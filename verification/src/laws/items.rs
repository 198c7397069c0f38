//! Laws of reading, setting and deleting.
use vstd::prelude::*;

use crate::error::ErrorView;
use crate::items::{
    delete_outcome, deleted, item_at, set_item_outcome, set_slice_in_order, set_slice_outcome,
    with_item, with_slice,
};
use crate::object::{Either, PyObject, PySlice};
use crate::sequence::{
    after_first, before_last, bound_position, every_nth, every_nth_back, item_position,
    lemma_every_first, lemma_every_last, reverse_bounds, slice_arguments, slice_bounds, slice_items,
    stride, without_every_nth, without_every_nth_back,
};

verus! {

/// What is set is read again. Where setting an item succeeds, reading it gives the value that was
/// set, and every other item stays; where it fails, the byte string stays as it is.
pub proof fn law_read_after_set(s: Seq<u8>, p: int, o: PyObject)
    ensures
        with_item(s, p, o).len() == s.len(),
        set_item_outcome(s, p, o) matches Ok(b) ==> item_at(with_item(s, p, o), p) == Ok::<
            u8,
            ErrorView,
        >(b),
        set_item_outcome(s, p, o) is Err ==> with_item(s, p, o) == s,
        forall|q: int|
            item_position(q, s.len() as int) != item_position(p, s.len() as int) ==> #[trigger]
            item_at(with_item(s, p, o), q) == item_at(s, q),
{
}

/// A negative index counts from the end.
pub proof fn law_negative_index(s: Seq<u8>, p: int)
    requires
        -s.len() <= p < 0,
    ensures
        item_at(s, p) == item_at(s, p + s.len()),
        item_at(s, p) is Ok,
{
}

/// An assignment to a slice puts the new items between the bounds of the slice and leaves what is
/// before and behind them; an assignment that fails on its value or on its bounds changes nothing.
pub proof fn law_read_after_set_slice(s: Seq<u8>, slice: PySlice, o: PyObject)
    requires
        set_slice_in_order(s, slice, o),
    ensures
        match set_slice_outcome(s, slice, o) {
            Ok((new, lo, hi)) => {
                let t = with_slice(s, slice, o);
                &&& t.len() == s.len() - (hi - lo) + new.len()
                &&& t.subrange(lo, lo + new.len()) == new
                &&& t.take(lo) == s.take(lo)
                &&& t.skip(lo + new.len()) == s.skip(hi)
            },
            Err(_) => with_slice(s, slice, o) == s,
        },
{
    if let Ok((new, lo, hi)) = set_slice_outcome(s, slice, o) {
        let t = with_slice(s, slice, o);
        assert(t.subrange(lo, lo + new.len()) =~= new);
        assert(t.take(lo) =~= s.take(lo));
        assert(t.skip(lo + new.len()) =~= s.skip(hi));
    }
}

/// The items that a step takes and those that it leaves out are all items.
proof fn lemma_every_nth_parts(s: Seq<u8>, n: int)
    requires
        n > 0,
    ensures
        s.to_multiset() == every_nth(s, n).to_multiset().add(without_every_nth(s, n).to_multiset()),
        s.to_multiset() == every_nth_back(s, n).to_multiset().add(
            without_every_nth_back(s, n).to_multiset(),
        ),
    decreases s.len(),
{
    broadcast use {vstd::seq_lib::group_to_multiset_ensures, vstd::multiset::group_multiset_axioms};

    if s.len() > 0 {
        let rest = after_first(s, n);
        lemma_every_nth_parts(rest, n);
        let mid = if n < s.len() {
            s.subrange(1, n)
        } else {
            s.skip(1)
        };
        assert(s =~= seq![s[0]] + mid + rest);
        assert(without_every_nth(s, n) =~= mid + without_every_nth(rest, n));
        vstd::seq_lib::lemma_multiset_commutative(seq![s[0]] + mid, rest);
        vstd::seq_lib::lemma_multiset_commutative(seq![s[0]], mid);
        vstd::seq_lib::lemma_multiset_commutative(seq![s[0]], every_nth(rest, n));
        vstd::seq_lib::lemma_multiset_commutative(mid, without_every_nth(rest, n));
        assert(s.to_multiset() =~= every_nth(s, n).to_multiset().add(
            without_every_nth(s, n).to_multiset(),
        ));
        let front = before_last(s, n);
        lemma_every_nth_parts(front, n);
        let gap = if n < s.len() {
            s.subrange(s.len() - n, s.len() - 1)
        } else {
            s.drop_last()
        };
        assert(s =~= front + gap + seq![s.last()]);
        assert(without_every_nth_back(s, n) =~= without_every_nth_back(front, n) + gap);
        vstd::seq_lib::lemma_multiset_commutative(front + gap, seq![s.last()]);
        vstd::seq_lib::lemma_multiset_commutative(front, gap);
        vstd::seq_lib::lemma_multiset_commutative(seq![s.last()], every_nth_back(front, n));
        vstd::seq_lib::lemma_multiset_commutative(without_every_nth_back(front, n), gap);
        assert(s.to_multiset() =~= every_nth_back(s, n).to_multiset().add(
            without_every_nth_back(s, n).to_multiset(),
        ));
    } else {
        assert(s.to_multiset() =~= every_nth(s, n).to_multiset().add(
            without_every_nth(s, n).to_multiset(),
        ));
        assert(s.to_multiset() =~= every_nth_back(s, n).to_multiset().add(
            without_every_nth_back(s, n).to_multiset(),
        ));
    }
}

/// Deleting takes away exactly what reading gives: the items that are left and those of the item
/// or the slice are together the items that were there. A deletion that fails changes nothing.
pub proof fn law_delete_what_is_read(s: Seq<u8>, needle: Either<i32, PySlice>)
    ensures
        delete_outcome(s, needle) is Err ==> deleted(s, needle) == s,
        delete_outcome(s, needle) is Ok ==> match needle {
            Either::A(p) => item_at(s, p as int) matches Ok(b) && s.to_multiset() == deleted(
                s,
                needle,
            ).to_multiset().insert(b),
            Either::B(slice) => slice_arguments(slice) matches Ok((start, stop, step))
                && s.to_multiset() == deleted(s, needle).to_multiset().add(
                slice_items(s, start, stop, step).to_multiset(),
            ),
        },
{
    broadcast use {vstd::seq_lib::group_to_multiset_ensures, vstd::multiset::group_multiset_axioms};

    if delete_outcome(s, needle) is Ok {
        match needle {
            Either::A(p) => {
                let i = item_position(p as int, s.len() as int)->0;
                assert(s =~= s.remove(i).insert(i, s[i]));
                assert(s.to_multiset() =~= s.remove(i).to_multiset().insert(s[i]));
            },
            Either::B(slice) => {
                let (start, stop, step) = slice_arguments(slice)->Ok_0;
                let (lo, hi) = if step > 0 {
                    slice_bounds(start, stop, s.len() as int)
                } else {
                    reverse_bounds(start, stop, s.len() as int)
                };
                let taken = slice_items(s, start, stop, step);
                if lo < hi {
                    let mid = s.subrange(lo, hi);
                    let size = if step > 0 {
                        step
                    } else {
                        -step
                    };
                    let n = stride(size, hi - lo);
                    lemma_every_nth_parts(mid, n);
                    let left = if step > 0 {
                        without_every_nth(mid, n)
                    } else {
                        without_every_nth_back(mid, n)
                    };
                    assert(s =~= s.take(lo) + mid + s.skip(hi));
                    vstd::seq_lib::lemma_multiset_commutative(s.take(lo) + mid, s.skip(hi));
                    vstd::seq_lib::lemma_multiset_commutative(s.take(lo), mid);
                    vstd::seq_lib::lemma_multiset_commutative(s.take(lo) + left, s.skip(hi));
                    vstd::seq_lib::lemma_multiset_commutative(s.take(lo), left);
                    assert(deleted(s, needle) == s.take(lo) + left + s.skip(hi));
                    assert(s.to_multiset() =~= deleted(s, needle).to_multiset().add(
                        taken.to_multiset(),
                    ));
                } else {
                    assert(taken =~= Seq::empty());
                    assert(s.to_multiset() =~= s.to_multiset().add(taken.to_multiset()));
                }
            },
        }
    }
}

/// What is before a bound and what is behind it make up the whole byte string, whatever the bound
/// is.
pub proof fn law_slice_halves(s: Seq<u8>, x: int)
    ensures
        slice_items(s, None, Some(x), 1) + slice_items(s, Some(x), None, 1) == s,
{
    let p = bound_position(x, s.len() as int);
    lemma_every_first(s.subrange(0, p));
    lemma_every_first(s.subrange(p, s.len() as int));
    assert(slice_items(s, None, Some(x), 1) =~= s.take(p));
    assert(slice_items(s, Some(x), None, 1) =~= s.skip(p));
    assert(s.take(p) + s.skip(p) =~= s);
}

/// A slice without bounds is the whole byte string, and with a step of minus one the byte string
/// backwards.
pub proof fn law_open_slices(s: Seq<u8>)
    ensures
        slice_items(s, None, None, 1) == s,
        slice_items(s, None, None, -1) == s.reverse(),
{
    lemma_every_first(s);
    lemma_every_last(s);
    assert(s.subrange(0, s.len() as int) =~= s);
    assert(s.len() == 0 ==> s =~= Seq::empty() && s.reverse() =~= Seq::empty());
}

/// A slice takes items of the byte string only, and no more than there are.
pub proof fn law_slice_is_within(s: Seq<u8>, start: Option<int>, stop: Option<int>, step: int)
    requires
        step != 0,
    ensures
        slice_items(s, start, stop, step).len() <= s.len(),
        slice_items(s, start, stop, step).to_multiset().subset_of(s.to_multiset()),
{
    broadcast use {vstd::seq_lib::group_to_multiset_ensures, vstd::multiset::group_multiset_axioms};

    let (lo, hi) = if step > 0 {
        slice_bounds(start, stop, s.len() as int)
    } else {
        reverse_bounds(start, stop, s.len() as int)
    };
    if lo < hi {
        let mid = s.subrange(lo, hi);
        let n = stride(
            if step > 0 {
                step
            } else {
                -step
            },
            hi - lo,
        );
        lemma_every_nth_parts(mid, n);
        assert(s =~= s.take(lo) + mid + s.skip(hi));
        vstd::seq_lib::lemma_multiset_commutative(s.take(lo) + mid, s.skip(hi));
        vstd::seq_lib::lemma_multiset_commutative(s.take(lo), mid);
        assert(slice_items(s, start, stop, step).to_multiset().len() <= mid.to_multiset().len());
    }
}

} // verus!
