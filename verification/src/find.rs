//! Searching in a byte string.
use std::ops::Range;

use vstd::prelude::*;
use vstd::slice::slice_subrange;

use crate::bstring::{contents, rsplitn_str, split_at_most, split_back_at_most, splitn_str};
use crate::error::{ErrorView, PyResult, new_value_error, outcome, value_error};
use crate::inner::PyByteInner;
use crate::integer::{ByteOr, PyInt};
use crate::object::{
    Either, OptionalArg, PyObject, bytes_outcome, gather, is_valid_slice_arg, lemma_gather_step,
    slice_arg_outcome,
};
use crate::options::{ByteInnerFindOptions, sub_outcome};
use crate::search::{
    bytes_equal, first_occurrence, has_byte, last_occurrence, lemma_first_occurrence,
    lemma_last_occurrence, occurrences, occurs, occurs_at, stands_at,
};
use crate::sequence::{do_slice, get_slice_range, is_normal, slice_bounds};

verus! {

/// Whether a byte string, or the byte of an integer, is in `s`.
pub open spec fn contains_outcome(s: Seq<u8>, needle: Either<PyByteInner, PyInt>) -> Result<
    bool,
    ErrorView,
> {
    match sub_outcome(needle) {
        Ok(sub) => Ok(occurs(s, sub)),
        Err(e) => Err(e),
    }
}

/// How often `sub` stands in `s` between `lo` and `hi`. The empty byte string stands at every
/// position, the last one included.
pub open spec fn count_in(s: Seq<u8>, sub: Seq<u8>, lo: int, hi: int) -> int {
    if lo > hi {
        0
    } else if sub.len() == 0 {
        hi - lo + 1
    } else {
        occurrences(s, sub, lo, hi) as int
    }
}

/// Whether `sub` stands in `s` at `i`, within `lo` and `hi`.
pub open spec fn occurs_within(s: Seq<u8>, sub: Seq<u8>, lo: int, hi: int, i: int) -> bool {
    lo <= i && i + sub.len() <= hi && occurs_at(s, sub, i)
}

/// Whether `r` is the first position (the last one where `reverse` is set) at which `sub` stands
/// in `s` within `lo` and `hi`.
pub open spec fn is_found(
    s: Seq<u8>,
    sub: Seq<u8>,
    lo: int,
    hi: int,
    reverse: bool,
    r: Option<usize>,
) -> bool {
    if lo > hi {
        r is None
    } else {
        match r {
            Some(i) => {
                &&& occurs_within(s, sub, lo, hi, i as int)
                &&& forall|j: int|
                    occurs_within(s, sub, lo, hi, j) ==> if reverse {
                        j <= i
                    } else {
                        i <= j
                    }
            },
            None => forall|j: int| !occurs_within(s, sub, lo, hi, j),
        }
    }
}

/// The parts one after the other.
pub open spec fn concat(parts: Seq<Seq<u8>>) -> Seq<u8>
    decreases parts.len(),
{
    if parts.len() == 0 {
        Seq::empty()
    } else {
        concat(parts.drop_last()) + parts.last()
    }
}

/// What a byte string is tested for at its start or end. The items of a tuple are put one after
/// the other.
pub open spec fn affix_outcome(arg: Either<PyByteInner, Vec<PyObject>>) -> Result<
    Seq<u8>,
    ErrorView,
> {
    match arg {
        Either::A(v) => Ok(v@),
        Either::B(tuple) => match gather(tuple@.map_values(|o: PyObject| bytes_outcome(o))) {
            Ok(parts) => Ok(concat(parts)),
            Err(e) => Err(e),
        },
    }
}

/// The part of a byte string of the length `len` that two bounds stand for.
pub open spec fn part_outcome(
    start: OptionalArg<PyObject>,
    end: OptionalArg<PyObject>,
    len: int,
) -> Result<(int, int), ErrorView> {
    match (slice_arg_outcome(start), slice_arg_outcome(end)) {
        (Err(e), _) => Err(e),
        (Ok(_), Err(e)) => Err(e),
        (Ok(lo), Ok(hi)) => Ok(slice_bounds(lo, hi, len)),
    }
}

/// Whether the bounds of a test for an affix, where it comes to them, are in order, and, where
/// the end of a part long enough is tested, leave out nothing at the start.
pub open spec fn affix_in_range(
    s: Seq<u8>,
    arg: Either<PyByteInner, Vec<PyObject>>,
    start: OptionalArg<PyObject>,
    end: OptionalArg<PyObject>,
    endswith: bool,
) -> bool {
    match (affix_outcome(arg), part_outcome(start, end, s.len() as int)) {
        (Ok(affix), Ok((lo, hi))) => affix.len() > 0 ==> lo <= hi && (endswith && hi - lo
            >= affix.len() ==> lo == 0),
        _ => true,
    }
}

/// Whether a part of `s` starts, or ends, with an affix.
pub open spec fn affix_test_outcome(
    s: Seq<u8>,
    arg: Either<PyByteInner, Vec<PyObject>>,
    start: OptionalArg<PyObject>,
    end: OptionalArg<PyObject>,
    endswith: bool,
) -> Result<bool, ErrorView> {
    match affix_outcome(arg) {
        Err(e) => Err(e),
        Ok(affix) => if affix.len() == 0 {
            Ok(true)
        } else {
            match part_outcome(start, end, s.len() as int) {
                Err(e) => Err(e),
                Ok((lo, hi)) => if hi - lo < affix.len() {
                    Ok(false)
                } else if endswith {
                    Ok(s.subrange(hi - affix.len(), hi) == affix)
                } else {
                    Ok(s.subrange(lo, lo + affix.len()) == affix)
                },
            }
        },
    }
}

/// The exception for a separator without a byte.
pub open spec fn empty_separator() -> ErrorView {
    value_error("empty separator"@)
}

/// What is before the first occurrence of a separator, whether there is one, and what is after
/// it.
pub open spec fn partition_outcome(s: Seq<u8>, sep: Seq<u8>) -> Result<
    (Seq<u8>, bool, Seq<u8>),
    ErrorView,
> {
    if sep.len() == 0 {
        Err(empty_separator())
    } else {
        match first_occurrence(s, sep) {
            Some(i) => Ok((s.take(i), true, s.skip(i + sep.len()))),
            None => Ok((s, false, Seq::empty())),
        }
    }
}

/// What is before the last occurrence of a separator, whether there is one, and what is after it.
pub open spec fn rpartition_outcome(s: Seq<u8>, sep: Seq<u8>) -> Result<
    (Seq<u8>, bool, Seq<u8>),
    ErrorView,
> {
    if sep.len() == 0 {
        Err(empty_separator())
    } else {
        match last_occurrence(s, sep) {
            Some(i) => Ok((s.take(i), true, s.skip(i + sep.len()))),
            None => Ok((Seq::empty(), false, s)),
        }
    }
}

impl PyByteInner {
    /// Whether a byte string, or the byte of an integer, occurs in this one.
    pub fn contains(&self, needle: Either<PyByteInner, PyInt>) -> (r: PyResult<bool>)
        ensures
            outcome(r) == contains_outcome(self@, needle),
    {
        match needle {
            Either::A(sub) => {
                if sub.elements.is_empty() {
                    assert(occurs_at(self@, sub@, 0)) by {
                        assert(self@.subrange(0, 0) =~= sub@);
                    }
                    return Ok(true);
                }
                let mut n: usize = 0;
                while n < self.elements.len() && sub.elements.len() <= self.elements.len() - n
                    invariant
                        n <= self@.len(),
                        sub@.len() > 0,
                        needle == Either::<PyByteInner, PyInt>::A(sub),
                        forall|j: int| 0 <= j < n ==> !occurs_at(self@, sub@, j),
                    decreases self.elements.len() - n,
                {
                    if stands_at(&self.elements, &sub.elements, n) {
                        return Ok(true);
                    }
                    n = n + 1;
                }
                Ok(false)
            },
            Either::B(i) => {
                match i.byte_or() {
                    Ok(b) => {
                        let found: bool = has_byte(&self.elements, b);
                        proof {
                            if found {
                                let j = choose|j: int| 0 <= j < self@.len() && self@[j] == b;
                                assert(self@.subrange(j, j + 1) =~= seq![b]);
                                assert(occurs_at(self@, seq![b], j));
                            } else if occurs(self@, seq![b]) {
                                let j = choose|j: int| occurs_at(self@, seq![b], j);
                                assert(self@.subrange(j, j + 1)[0] == b);
                            }
                        }
                        Ok(found)
                    },
                    Err(e) => Err(e),
                }
            },
        }
    }

    /// The number of occurrences of a byte string in a range.
    pub fn count(&self, options: ByteInnerFindOptions) -> (r: PyResult<usize>)
        requires
            self@.len() < usize::MAX,
        ensures
            match (r, sub_outcome(options.sub)) {
                (Ok(n), Ok(sub)) => {
                    let (lo, hi) = options.spec_range(self@.len() as int);
                    n == count_in(self@, sub, lo, hi)
                },
                (Err(e), Err(f)) => e@ == f,
                _ => false,
            },
    {
        let (needle, range): (Vec<u8>, Range<usize>) = match options.get_value(
            self.elements.len(),
        ) {
            Ok(v) => v,
            Err(e) => return Err(e),
        };
        if !is_normal(&range) {
            return Ok(0);
        }
        if needle.is_empty() {
            return Ok(range.end - range.start + 1);
        }
        let mut total: usize = 0;
        let mut i: usize = range.start;
        let hi: usize = range.end;
        let ghost all = occurrences(self@, needle@, range.start as int, hi as int);
        while i < hi && needle.len() <= hi - i
            invariant
                range.start <= i <= hi <= self@.len() < usize::MAX,
                total <= i - range.start,
                needle@.len() > 0,
                all == total + occurrences(self@, needle@, i as int, hi as int),
            decreases hi - i,
        {
            if stands_at(&self.elements, &needle, i) {
                total = total + 1;
            }
            i = i + 1;
        }
        Ok(total)
    }

    /// The position of the first occurrence of a byte string in a range, or of the last one.
    pub fn find(&self, options: ByteInnerFindOptions, reverse: bool) -> (r: PyResult<Option<usize>>)
        ensures
            match (r, sub_outcome(options.sub)) {
                (Ok(found), Ok(sub)) => {
                    let (lo, hi) = options.spec_range(self@.len() as int);
                    is_found(self@, sub, lo, hi, reverse, found)
                },
                (Err(e), Err(f)) => e@ == f,
                _ => false,
            },
    {
        let (needle, range): (Vec<u8>, Range<usize>) = match options.get_value(
            self.elements.len(),
        ) {
            Ok(v) => v,
            Err(e) => return Err(e),
        };
        if !is_normal(&range) {
            return Ok(None);
        }
        let lo: usize = range.start;
        let hi: usize = range.end;
        if needle.is_empty() {
            let at: usize = if reverse {
                hi
            } else {
                lo
            };
            assert(self@.subrange(at as int, at as int) =~= needle@);
            return Ok(Some(at));
        }
        if hi - lo < needle.len() {
            return Ok(None);
        }
        if reverse {
            let mut i: usize = hi - needle.len() + 1;
            while lo < i
                invariant
                    reverse,
                    lo <= i,
                    i + needle@.len() <= hi + 1,
                    hi <= self@.len(),
                    needle@.len() > 0,
                    sub_outcome(options.sub) == Ok::<Seq<u8>, ErrorView>(needle@),
                    (lo as int, hi as int) == options.spec_range(self@.len() as int),
                    forall|j: int|
                        i <= j ==> !occurs_within(self@, needle@, lo as int, hi as int, j),
                decreases i,
            {
                i = i - 1;
                if stands_at(&self.elements, &needle, i) {
                    return Ok(Some(i));
                }
            }
        } else {
            let mut i: usize = lo;
            while i <= hi - needle.len()
                invariant
                    !reverse,
                    lo <= i,
                    needle@.len() <= hi - lo,
                    hi <= self@.len(),
                    needle@.len() > 0,
                    sub_outcome(options.sub) == Ok::<Seq<u8>, ErrorView>(needle@),
                    (lo as int, hi as int) == options.spec_range(self@.len() as int),
                    i + needle@.len() <= hi + 1,
                    forall|j: int|
                        j < i ==> !occurs_within(self@, needle@, lo as int, hi as int, j),
                decreases hi - i,
            {
                if stands_at(&self.elements, &needle, i) {
                    return Ok(Some(i));
                }
                i = i + 1;
            }
        }
        Ok(None)
    }

    /// Whether a part of the byte string starts, or ends, with a byte string. The items of a
    /// tuple are put one after the other first.
    ///
    /// The bounds of the part must be in order; where its end is tested, and the part is long
    /// enough, it must start where the byte string does.
    pub fn startsendswith(
        &self,
        arg: Either<PyByteInner, Vec<PyObject>>,
        start: OptionalArg<PyObject>,
        end: OptionalArg<PyObject>,
        endswith: bool,
    ) -> (r: PyResult<bool>)
        requires
            affix_in_range(self@, arg, start, end, endswith),
        ensures
            outcome(r) == affix_test_outcome(self@, arg, start, end, endswith),
    {
        let affix: Vec<u8> = match arg {
            Either::A(v) => v.elements,
            Either::B(tuple) => {
                let mut flat: Vec<u8> = Vec::new();
                let ghost all = tuple@.map_values(|o: PyObject| bytes_outcome(o));
                assert(all.take(0) =~= Seq::empty());
                let mut i: usize = 0;
                while i < tuple.len()
                    invariant
                        i <= tuple.len(),
                        all == tuple@.map_values(|o: PyObject| bytes_outcome(o)),
                        gather(all.take(i as int)) matches Ok(parts) && flat@ == concat(parts),
                        arg == Either::<PyByteInner, Vec<PyObject>>::B(tuple),
                    decreases tuple.len() - i,
                {
                    proof {
                        lemma_gather_step(all, i as int);
                    }
                    let ghost parts = gather(all.take(i as int))->Ok_0;
                    match tuple[i].to_bytes() {
                        Ok(mut b) => {
                            proof {
                                assert(parts.push(b@).drop_last() =~= parts);
                            }
                            flat.append(&mut b);
                        },
                        Err(e) => return Err(e),
                    }
                    i = i + 1;
                }
                assert(all.take(i as int) =~= all);
                flat
            },
        };
        if affix.is_empty() {
            return Ok(true);
        }
        let lower: Option<PyInt> = match is_valid_slice_arg(start) {
            Ok(x) => x,
            Err(e) => return Err(e),
        };
        let upper: Option<PyInt> = match is_valid_slice_arg(end) {
            Ok(x) => x,
            Err(e) => return Err(e),
        };
        let range: Range<usize> = get_slice_range(self.elements.len(), &lower, &upper);
        let lo: usize = range.start;
        let hi: usize = range.end;
        if hi - lo < affix.len() {
            return Ok(false);
        }
        let part: Vec<u8> = do_slice(&self.elements, range);
        if endswith {
            let tail: &[u8] = slice_subrange(&part, hi - affix.len(), hi);
            assert(tail@ =~= self@.subrange(hi - affix@.len(), hi as int));
            Ok(bytes_equal(&affix, tail))
        } else {
            let head: &[u8] = slice_subrange(&part, 0, affix.len());
            assert(head@ =~= self@.subrange(lo as int, lo + affix@.len()));
            Ok(bytes_equal(&affix, head))
        }
    }

    /// What is before the first occurrence of a separator, whether there is one, and what is
    /// after it.
    pub fn partition(&self, sub: &PyByteInner) -> (r: PyResult<(Vec<u8>, bool, Vec<u8>)>)
        ensures
            outcome(r) == partition_outcome(self@, sub@),
    {
        if sub.elements.is_empty() {
            return Err(new_value_error("empty separator".to_owned()));
        }
        let mut pieces: Vec<Vec<u8>> = splitn_str(&self.elements, 2, &sub.elements);
        proof {
            reveal_with_fuel(split_at_most, 3);
            lemma_first_occurrence(self@, sub@);
            assert(contents(pieces@).len() == pieces@.len());
            assert(contents(pieces@)[0] == pieces@[0]@);
            assert(pieces@.len() == 2 ==> contents(pieces@)[1] == pieces@[1]@);
        }
        if pieces.len() == 2 {
            let back: Vec<u8> = pieces.remove(1);
            let front: Vec<u8> = pieces.remove(0);
            Ok((front, true, back))
        } else {
            let front: Vec<u8> = pieces.remove(0);
            Ok((front, false, Vec::new()))
        }
    }

    /// What is before the last occurrence of a separator, whether there is one, and what is
    /// after it.
    pub fn rpartition(&self, sub: &PyByteInner) -> (r: PyResult<(Vec<u8>, bool, Vec<u8>)>)
        ensures
            outcome(r) == rpartition_outcome(self@, sub@),
    {
        if sub.elements.is_empty() {
            return Err(new_value_error("empty separator".to_owned()));
        }
        let mut pieces: Vec<Vec<u8>> = rsplitn_str(&self.elements, 2, &sub.elements);
        proof {
            reveal_with_fuel(split_back_at_most, 3);
            lemma_last_occurrence(self@, sub@);
            assert(contents(pieces@).len() == pieces@.len());
            assert(contents(pieces@)[0] == pieces@[0]@);
            assert(pieces@.len() == 2 ==> contents(pieces@)[1] == pieces@[1]@);
        }
        if pieces.len() == 2 {
            let front: Vec<u8> = pieces.remove(1);
            let back: Vec<u8> = pieces.remove(0);
            Ok((front, true, back))
        } else {
            let back: Vec<u8> = pieces.remove(0);
            Ok((Vec::new(), false, back))
        }
    }
}

} // verus!
