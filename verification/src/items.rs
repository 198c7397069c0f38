//! Reading, setting and deleting items and slices.
use std::ops::Range;

use vstd::prelude::*;

use crate::error::{
    ErrorView, PyResult, index_error, new_index_error, new_type_error, new_value_error, outcome,
    type_error, value_error,
};
use crate::inner::PyByteInner;
use crate::integer::{
    ByteOr, PyInt, big_is_positive, big_is_zero, big_neg, big_to_i32,
};
use crate::object::{
    Either, PyObject, PySlice, assigned_outcome, is_bytes_object, is_int_object,
};
use crate::sequence::{
    after_first, before_last, get_pos, get_reverse_range, get_slice_items,
    get_slice_range, item_position, lemma_every_far, lemma_every_first, lemma_every_last,
    slice_arguments, slice_bounds, slice_outcome, slice_removed, stride, without_every_nth,
    without_every_nth_back,
};

verus! {

/// `s` without the items of a range.
pub open spec fn without_range(s: Seq<u8>, lo: int, hi: int) -> Seq<u8> {
    s.take(lo) + s.skip(hi)
}

/// The exception for an index that no item has.
pub open spec fn out_of_range() -> ErrorView {
    index_error("index out of range"@)
}

/// An object as the new value of an item.
pub open spec fn set_value_outcome(o: PyObject) -> Result<u8, ErrorView> {
    match o {
        PyObject::Int(i) => if 0 <= i@ <= u8::MAX {
            Ok(i@ as u8)
        } else {
            Err(value_error("byte must be in range(0, 256)"@))
        },
        _ => Err(type_error("an integer is required"@)),
    }
}

/// The bounds of a slice, looked at in order.
pub open spec fn bounds_outcome(slice: PySlice) -> Result<(Option<int>, Option<int>), ErrorView> {
    match (slice.spec_start(), slice.spec_stop()) {
        (Err(e), _) => Err(e),
        (Ok(_), Err(e)) => Err(e),
        (Ok(start), Ok(stop)) => Ok((start, stop)),
    }
}

/// The content and the bounds of an assignment to a slice: what is assigned is looked at first.
pub open spec fn set_slice_outcome(s: Seq<u8>, slice: PySlice, o: PyObject) -> Result<
    (Seq<u8>, int, int),
    ErrorView,
> {
    match (assigned_outcome(o), bounds_outcome(slice)) {
        (Err(e), _) => Err(e),
        (Ok(_), Err(e)) => Err(e),
        (Ok(new), Ok((start, stop))) => {
            let (lo, hi) = slice_bounds(start, stop, s.len() as int);
            Ok((new, lo, hi))
        },
    }
}

/// Whether the bounds of an assignment to a slice, where it comes to them, are in order.
pub open spec fn set_slice_in_order(s: Seq<u8>, slice: PySlice, o: PyObject) -> bool {
    set_slice_outcome(s, slice, o) matches Ok((_, lo, hi)) ==> lo <= hi
}

/// `s` with the items of a range replaced.
pub open spec fn with_range(s: Seq<u8>, lo: int, hi: int, new: Seq<u8>) -> Seq<u8> {
    s.take(lo) + new + s.skip(hi)
}

/// Whether a result is the integer, or the exception, of `v`.
pub open spec fn int_result(r: PyResult<PyObject>, v: Result<u8, ErrorView>) -> bool {
    match (r, v) {
        (Ok(o), Ok(b)) => is_int_object(o, b as int),
        (Err(e), Err(f)) => e@ == f,
        _ => false,
    }
}

/// Whether a result is the `bytes`, or the exception, of `v`.
pub open spec fn bytes_result(r: PyResult<PyObject>, v: Result<Seq<u8>, ErrorView>) -> bool {
    match (r, v) {
        (Ok(o), Ok(b)) => is_bytes_object(o, b),
        (Err(e), Err(f)) => e@ == f,
        _ => false,
    }
}

/// What reading the item at an index gives.
pub open spec fn item_at(s: Seq<u8>, p: int) -> Result<u8, ErrorView> {
    match item_position(p, s.len() as int) {
        Some(i) => Ok(s[i]),
        None => Err(out_of_range()),
    }
}

/// What setting the item at an index gives: the value set.
pub open spec fn set_item_outcome(s: Seq<u8>, p: int, o: PyObject) -> Result<u8, ErrorView> {
    match item_position(p, s.len() as int) {
        Some(_) => set_value_outcome(o),
        None => Err(out_of_range()),
    }
}

/// The byte string after the item at an index was set.
pub open spec fn with_item(s: Seq<u8>, p: int, o: PyObject) -> Seq<u8> {
    match (item_position(p, s.len() as int), set_value_outcome(o)) {
        (Some(i), Ok(b)) => s.update(i, b),
        _ => s,
    }
}

/// The byte string after an assignment to a slice.
pub open spec fn with_slice(s: Seq<u8>, slice: PySlice, o: PyObject) -> Seq<u8> {
    match set_slice_outcome(s, slice, o) {
        Ok((new, lo, hi)) => with_range(s, lo, hi, new),
        Err(_) => s,
    }
}

/// What an assignment to a slice gives: the slice read again, with its step, from the byte
/// string that the assignment left.
pub open spec fn set_slice_result(s: Seq<u8>, slice: PySlice, o: PyObject) -> Result<
    Seq<u8>,
    ErrorView,
> {
    match set_slice_outcome(s, slice, o) {
        Ok(_) => slice_outcome(with_slice(s, slice, o), slice),
        Err(e) => Err(e),
    }
}

/// What deleting an item or a slice gives.
pub open spec fn delete_outcome(s: Seq<u8>, needle: Either<i32, PySlice>) -> Result<(), ErrorView> {
    match needle {
        Either::A(p) => match item_position(p as int, s.len() as int) {
            Some(_) => Ok(()),
            None => Err(out_of_range()),
        },
        Either::B(slice) => match slice_arguments(slice) {
            Ok(_) => Ok(()),
            Err(e) => Err(e),
        },
    }
}

/// The byte string after an item or a slice was deleted.
pub open spec fn deleted(s: Seq<u8>, needle: Either<i32, PySlice>) -> Seq<u8> {
    match needle {
        Either::A(p) => match item_position(p as int, s.len() as int) {
            Some(i) => s.remove(i),
            None => s,
        },
        Either::B(slice) => match slice_arguments(slice) {
            Ok((start, stop, step)) => slice_removed(s, start, stop, step),
            Err(_) => s,
        },
    }
}

impl PyByteInner {
    /// The item at an index, or the items of a slice.
    pub fn getitem(&self, needle: Either<i32, PySlice>) -> (r: PyResult<PyObject>)
        ensures
            match needle {
                Either::A(p) => int_result(r, item_at(self@, p as int)),
                Either::B(slice) => bytes_result(r, slice_outcome(self@, slice)),
            },
    {
        match needle {
            Either::A(p) => {
                match get_pos(self.elements.len(), p) {
                    Some(i) => Ok(PyObject::Int(PyInt::from_byte(self.elements[i]))),
                    None => Err(new_index_error("index out of range".to_owned())),
                }
            },
            Either::B(slice) => {
                match get_slice_items(&self.elements, &slice) {
                    Ok(b) => Ok(PyObject::Bytes(b)),
                    Err(e) => Err(e),
                }
            },
        }
    }

    /// Sets the item at an index and returns its new value.
    fn setindex(&mut self, p: i32, object: PyObject) -> (r: PyResult<PyObject>)
        ensures
            final(self)@ == with_item(old(self)@, p as int, object),
            int_result(r, set_item_outcome(old(self)@, p as int, object)),
    {
        match get_pos(self.elements.len(), p) {
            Some(i) => {
                match object {
                    PyObject::Int(v) => {
                        match v.to_u8() {
                            Some(value) => {
                                self.elements.set(i, value);
                                Ok(PyObject::Int(PyInt::from_byte(value)))
                            },
                            None => Err(
                                new_value_error("byte must be in range(0, 256)".to_owned()),
                            ),
                        }
                    },
                    _ => Err(new_type_error("an integer is required".to_owned())),
                }
            },
            None => Err(new_index_error("index out of range".to_owned())),
        }
    }

    /// Replaces the items between the bounds of a slice and returns the slice, read again.
    fn setslice(&mut self, slice: PySlice, object: PyObject) -> (r: PyResult<PyObject>)
        requires
            set_slice_in_order(old(self)@, slice, object),
        ensures
            final(self)@ == with_slice(old(self)@, slice, object),
            bytes_result(r, set_slice_result(old(self)@, slice, object)),
    {
        let ghost s = self@;
        let mut new: Vec<u8> = match object.to_assigned() {
            Ok(b) => b,
            Err(e) => return Err(e),
        };
        let start: Option<PyInt> = match slice.start_index() {
            Ok(x) => x,
            Err(e) => return Err(e),
        };
        let stop: Option<PyInt> = match slice.stop_index() {
            Ok(x) => x,
            Err(e) => return Err(e),
        };
        let range: Range<usize> = get_slice_range(self.elements.len(), &start, &stop);
        let mut tail: Vec<u8> = self.elements.split_off(range.end);
        self.elements.truncate(range.start);
        self.elements.append(&mut new);
        self.elements.append(&mut tail);
        assert(self@ =~= with_slice(s, slice, object));
        match get_slice_items(&self.elements, &slice) {
            Ok(b) => Ok(PyObject::Bytes(b)),
            Err(e) => Err(e),
        }
    }

    /// Sets the item at an index, or replaces the items between the bounds of a slice.
    ///
    /// The bounds of the slice must be in order. The step of the slice has no part in what is
    /// replaced, only in what is returned.
    pub fn setitem(&mut self, needle: Either<i32, PySlice>, object: PyObject) -> (r: PyResult<
        PyObject,
    >)
        requires
            needle matches Either::B(slice) ==> set_slice_in_order(old(self)@, slice, object),
        ensures
            match needle {
                Either::A(p) => {
                    &&& final(self)@ == with_item(old(self)@, p as int, object)
                    &&& int_result(r, set_item_outcome(old(self)@, p as int, object))
                },
                Either::B(slice) => {
                    &&& final(self)@ == with_slice(old(self)@, slice, object)
                    &&& bytes_result(r, set_slice_result(old(self)@, slice, object))
                },
            },
    {
        match needle {
            Either::A(p) => self.setindex(p, object),
            Either::B(slice) => self.setslice(slice, object),
        }
    }

    /// Deletes the item at an index, or the items of a slice.
    pub fn delitem(&mut self, needle: Either<i32, PySlice>) -> (r: PyResult<()>)
        ensures
            final(self)@ == deleted(old(self)@, needle),
            outcome(r) == delete_outcome(old(self)@, needle),
    {
        match needle {
            Either::A(p) => {
                match get_pos(self.elements.len(), p) {
                    Some(i) => {
                        self.elements.remove(i);
                        Ok(())
                    },
                    None => Err(new_index_error("index out of range".to_owned())),
                }
            },
            Either::B(slice) => self.delslice(slice),
        }
    }

    /// Deletes the items of a slice.
    fn delslice(&mut self, slice: PySlice) -> (r: PyResult<()>)
        ensures
            final(self)@ == deleted(old(self)@, Either::B(slice)),
            outcome(r) == delete_outcome(old(self)@, Either::B(slice)),
    {
        let start: Option<PyInt> = match slice.start_index() {
            Ok(x) => x,
            Err(e) => return Err(e),
        };
        let stop: Option<PyInt> = match slice.stop_index() {
            Ok(x) => x,
            Err(e) => return Err(e),
        };
        let step: PyInt = match slice.step_index() {
            Ok(Some(x)) => x,
            Ok(None) => PyInt::new(1),
            Err(e) => return Err(e),
        };
        if big_is_zero(&step.bytes) {
            return Err(new_value_error("slice step cannot be zero".to_owned()));
        }
        let ghost s = self@;
        if big_is_positive(&step.bytes) {
            let range: Range<usize> = get_slice_range(self.elements.len(), &start, &stop);
            if range.start < range.end {
                let first: usize = range.start;
                let ghost lo = range.start as int;
                let ghost hi = range.end as int;
                let ghost mid = s.subrange(lo, hi);
                match big_to_i32(&step.bytes) {
                    Some(1) => {
                        proof {
                            lemma_every_first(mid);
                            assert(without_range(s, lo, hi) =~= s.take(lo) + without_every_nth(
                                mid,
                                1,
                            ) + s.skip(hi));
                        }
                        self._del_slice(range);
                    },
                    Some(num) => {
                        self._del_stepped_slice(range, num as usize);
                    },
                    None => {
                        proof {
                            lemma_every_far(mid, stride(step@, hi - lo));
                            assert(without_range(s, lo, lo + 1) =~= s.take(lo) + mid.skip(1)
                                + s.skip(hi));
                        }
                        self._del_slice(first..first + 1);
                    },
                }
            }
        } else {
            let range: Range<usize> = get_reverse_range(self.elements.len(), &start, &stop);
            if range.start < range.end {
                let end: usize = range.end;
                let ghost lo = range.start as int;
                let ghost hi = range.end as int;
                let ghost mid = s.subrange(lo, hi);
                match big_to_i32(&big_neg(&step.bytes)) {
                    Some(1) => {
                        proof {
                            lemma_every_last(mid);
                            assert(without_range(s, lo, hi) =~= s.take(lo)
                                + without_every_nth_back(mid, 1) + s.skip(hi));
                        }
                        self._del_slice(range);
                    },
                    Some(num) => {
                        self._del_stepped_slice_reverse(range, num as usize);
                    },
                    None => {
                        proof {
                            lemma_every_far(mid, stride(-step@, hi - lo));
                            assert(without_range(s, hi - 1, hi) =~= s.take(lo) + mid.drop_last()
                                + s.skip(hi));
                        }
                        self._del_slice(end - 1..end);
                    },
                }
            }
        }
        Ok(())
    }

    /// Deletes the items of a range.
    fn _del_slice(&mut self, range: Range<usize>)
        requires
            range.start <= range.end <= old(self)@.len(),
        ensures
            final(self)@ == without_range(old(self)@, range.start as int, range.end as int),
    {
        let ghost s = self@;
        let mut tail: Vec<u8> = self.elements.split_off(range.end);
        self.elements.truncate(range.start);
        self.elements.append(&mut tail);
        assert(self@ =~= without_range(s, range.start as int, range.end as int));
    }

    /// Deletes the first item of a range, and every `step`th one after it.
    fn _del_stepped_slice(&mut self, range: Range<usize>, step: usize)
        requires
            range.start <= range.end <= old(self)@.len(),
            step > 0,
        ensures
            final(self)@ == old(self)@.take(range.start as int) + without_every_nth(
                old(self)@.subrange(range.start as int, range.end as int),
                step as int,
            ) + old(self)@.skip(range.end as int),
    {
        let lo: usize = range.start;
        let hi: usize = range.end;
        let ghost s = self@;
        let ghost kept = without_every_nth(s.subrange(lo as int, hi as int), step as int);
        let mut deleted: usize = 0;
        // the next item to delete; `hi` where there is none left
        let mut next: usize = lo;
        let mut i: usize = lo;
        assert(s.subrange(lo as int, lo as int) + kept =~= kept);
        while i < hi
            invariant
                lo <= i <= hi <= s.len(),
                i <= next <= hi,
                deleted <= i - lo,
                step > 0,
                self@.len() == s.len(),
                self@.take(lo as int) =~= s.take(lo as int),
                self@.skip(i as int) =~= s.skip(i as int),
                kept =~= self@.subrange(lo as int, i - deleted) + s.subrange(i as int, next as int)
                    + without_every_nth(s.subrange(next as int, hi as int), step as int),
            decreases hi - i,
        {
            let ghost before = self@;
            if i == next {
                let ghost rest = s.subrange(next as int, hi as int);
                let ghost old_next = next;
                if step < hi - next {
                    next = next + step;
                } else {
                    next = hi;
                }
                deleted = deleted + 1;
                proof {
                    assert(after_first(rest, step as int) =~= s.subrange(next as int, hi as int));
                    assert(s.subrange(hi as int, hi as int).len() == 0);
                    assert(without_every_nth(rest, step as int) =~= s.subrange(
                        i + 1,
                        next as int,
                    ) + without_every_nth(s.subrange(next as int, hi as int), step as int));
                    assert(s.subrange(i as int, old_next as int).len() == 0);
                }
            } else {
                let a: u8 = self.elements[i - deleted];
                let b: u8 = self.elements[i];
                self.elements.set(i - deleted, b);
                self.elements.set(i, a);
                proof {
                    assert(b == before.skip(i as int)[0]);
                    assert(b == s.skip(i as int)[0]);
                    assert(self@.subrange(lo as int, i + 1 - deleted) =~= before.subrange(
                        lo as int,
                        i - deleted,
                    ).push(s[i as int]));
                }
            }
            assert(self@.skip(i + 1) =~= before.skip(i as int).skip(1));
            assert(s.skip(i + 1) =~= s.skip(i as int).skip(1));
            i = i + 1;
        }
        assert(s.subrange(hi as int, hi as int).len() == 0);
        assert(kept =~= self@.subrange(lo as int, hi - deleted));
        self._del_slice(hi - deleted..hi);
    }

    /// Deletes the last item of a range, and every `step`th one before it.
    fn _del_stepped_slice_reverse(&mut self, range: Range<usize>, step: usize)
        requires
            range.start <= range.end <= old(self)@.len(),
            step > 0,
        ensures
            final(self)@ == old(self)@.take(range.start as int) + without_every_nth_back(
                old(self)@.subrange(range.start as int, range.end as int),
                step as int,
            ) + old(self)@.skip(range.end as int),
    {
        let lo: usize = range.start;
        let hi: usize = range.end;
        let ghost s = self@;
        let ghost kept = without_every_nth_back(s.subrange(lo as int, hi as int), step as int);
        let mut deleted: usize = 0;
        // right after the next item to delete; `lo` where there is none left
        let mut next: usize = hi;
        // right after the item to look at
        let mut i: usize = hi;
        while lo < i
            invariant
                lo <= i <= hi <= s.len(),
                lo <= next <= i,
                deleted <= hi - i,
                step > 0,
                self@.len() == s.len(),
                self@.skip(hi as int) =~= s.skip(hi as int),
                self@.take(i as int) =~= s.take(i as int),
                kept =~= without_every_nth_back(s.subrange(lo as int, next as int), step as int)
                    + s.subrange(next as int, i as int) + self@.subrange(i + deleted, hi as int),
            decreases i - lo,
        {
            let ghost before = self@;
            if i == next {
                let ghost rest = s.subrange(lo as int, next as int);
                let ghost old_next = next;
                if step < next - lo {
                    next = next - step;
                } else {
                    next = lo;
                }
                deleted = deleted + 1;
                proof {
                    assert(before_last(rest, step as int) =~= s.subrange(lo as int, next as int));
                    assert(s.subrange(lo as int, lo as int).len() == 0);
                    assert(without_every_nth_back(rest, step as int) =~= without_every_nth_back(
                        s.subrange(lo as int, next as int),
                        step as int,
                    ) + s.subrange(next as int, i - 1));
                    assert(s.subrange(old_next as int, i as int).len() == 0);
                }
            } else {
                let a: u8 = self.elements[i - 1 + deleted];
                let b: u8 = self.elements[i - 1];
                self.elements.set(i - 1 + deleted, b);
                self.elements.set(i - 1, a);
                proof {
                    assert(b == before.take(i as int)[i - 1]);
                    assert(b == s.take(i as int)[i - 1]);
                    assert(self@.subrange(i - 1 + deleted, hi as int) =~= seq![s[i - 1]]
                        + before.subrange(i + deleted, hi as int));
                    assert(s.subrange(next as int, i as int) =~= s.subrange(
                        next as int,
                        i - 1,
                    ).push(s[i - 1]));
                }
            }
            assert(self@.take(i - 1) =~= before.take(i as int).take(i - 1));
            assert(s.take(i - 1) =~= s.take(i as int).take(i - 1));
            i = i - 1;
        }
        assert(s.subrange(lo as int, lo as int).len() == 0);
        assert(kept =~= self@.subrange(lo + deleted, hi as int));
        self._del_slice(lo..lo + deleted);
    }
}

} // verus!
