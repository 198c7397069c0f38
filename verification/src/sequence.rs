//! Positions, ranges and slices of a byte string.
use std::ops::Range;

use vstd::prelude::*;
use vstd::slice::{slice_subrange, slice_to_vec};

use crate::error::{ErrorView, PyResult, new_value_error, outcome, value_error};
use crate::integer::{
    PyInt, big_eq, big_from_i64, big_from_usize, big_is_negative, big_is_positive, big_is_zero,
    big_neg, big_sum, big_to_i32, big_to_usize, signed_value,
};
use crate::object::{OptionalArg, PySlice, opt_int};

verus! {

/// The position of an item by its index, which counts from the end where it is negative.
pub open spec fn item_position(p: int, len: int) -> Option<int> {
    if 0 <= p < len {
        Some(p)
    } else if -len <= p < 0 {
        Some(p + len)
    } else {
        None
    }
}

/// The position that a bound of a slice stands for: an index, cut off at both ends.
pub open spec fn bound_position(x: int, len: int) -> int {
    if x < 0 {
        if x + len < 0 {
            0
        } else {
            x + len
        }
    } else if x > len {
        len
    } else {
        x
    }
}

/// The positions `lo..hi` between the bounds of a slice with a positive step.
pub open spec fn slice_bounds(start: Option<int>, stop: Option<int>, len: int) -> (int, int) {
    (
        match start {
            Some(x) => bound_position(x, len),
            None => 0,
        },
        match stop {
            Some(x) => bound_position(x, len),
            None => len,
        },
    )
}

/// The position right after the item that a bound stands for, cut off at both ends.
pub open spec fn position_after(x: int, len: int) -> int {
    if x < 0 {
        if x + len + 1 < 0 {
            0
        } else {
            x + len + 1
        }
    } else if x + 1 > len {
        len
    } else {
        x + 1
    }
}

/// The positions `lo..hi` between the bounds of a slice with a negative step: it starts at the
/// item `start` and ends before it reaches the item `stop`.
pub open spec fn reverse_bounds(start: Option<int>, stop: Option<int>, len: int) -> (int, int) {
    (
        match stop {
            Some(x) => position_after(x, len),
            None => 0,
        },
        match start {
            Some(x) => position_after(x, len),
            None => len,
        },
    )
}

/// What is left of `s` after its first `n` items.
pub open spec fn after_first(s: Seq<u8>, n: int) -> Seq<u8> {
    if n < s.len() {
        s.skip(n)
    } else {
        Seq::empty()
    }
}

/// What is left of `s` before its last `n` items.
pub open spec fn before_last(s: Seq<u8>, n: int) -> Seq<u8> {
    if n < s.len() {
        s.take(s.len() - n)
    } else {
        Seq::empty()
    }
}

/// The first item of `s`, and every `n`th one after it.
pub open spec fn every_nth(s: Seq<u8>, n: int) -> Seq<u8>
    decreases s.len(),
{
    if s.len() == 0 || n <= 0 {
        Seq::empty()
    } else {
        seq![s[0]] + every_nth(after_first(s, n), n)
    }
}

/// The last item of `s`, and every `n`th one before it.
pub open spec fn every_nth_back(s: Seq<u8>, n: int) -> Seq<u8>
    decreases s.len(),
{
    if s.len() == 0 || n <= 0 {
        Seq::empty()
    } else {
        seq![s.last()] + every_nth_back(before_last(s, n), n)
    }
}

/// The items of `s` that [`every_nth`] leaves out, in order.
pub open spec fn without_every_nth(s: Seq<u8>, n: int) -> Seq<u8>
    decreases s.len(),
{
    if s.len() == 0 || n <= 0 {
        s
    } else if n < s.len() {
        s.subrange(1, n) + without_every_nth(after_first(s, n), n)
    } else {
        s.skip(1)
    }
}

/// The items of `s` that [`every_nth_back`] leaves out, in order.
pub open spec fn without_every_nth_back(s: Seq<u8>, n: int) -> Seq<u8>
    decreases s.len(),
{
    if s.len() == 0 || n <= 0 {
        s
    } else if n < s.len() {
        without_every_nth_back(before_last(s, n), n) + s.subrange(s.len() - n, s.len() - 1)
    } else {
        s.drop_last()
    }
}

/// The distance between the items that a step of size `m` takes out of `len` items. A step that
/// an `i32` cannot hold takes one item only.
pub open spec fn stride(m: int, len: int) -> int {
    if m > i32::MAX && m < len {
        len
    } else {
        m
    }
}

/// The items of `s` that a slice takes, in the order in which it takes them.
pub open spec fn slice_items(
    s: Seq<u8>,
    start: Option<int>,
    stop: Option<int>,
    step: int,
) -> Seq<u8> {
    if step > 0 {
        let (lo, hi) = slice_bounds(start, stop, s.len() as int);
        if lo < hi {
            every_nth(s.subrange(lo, hi), stride(step, hi - lo))
        } else {
            Seq::empty()
        }
    } else {
        let (lo, hi) = reverse_bounds(start, stop, s.len() as int);
        if lo < hi {
            every_nth_back(s.subrange(lo, hi), stride(-step, hi - lo))
        } else {
            Seq::empty()
        }
    }
}

/// What is left of `s` without the items that a slice takes.
pub open spec fn slice_removed(
    s: Seq<u8>,
    start: Option<int>,
    stop: Option<int>,
    step: int,
) -> Seq<u8> {
    if step > 0 {
        let (lo, hi) = slice_bounds(start, stop, s.len() as int);
        if lo < hi {
            s.take(lo) + without_every_nth(s.subrange(lo, hi), stride(step, hi - lo)) + s.skip(hi)
        } else {
            s
        }
    } else {
        let (lo, hi) = reverse_bounds(start, stop, s.len() as int);
        if lo < hi {
            s.take(lo) + without_every_nth_back(s.subrange(lo, hi), stride(-step, hi - lo))
                + s.skip(hi)
        } else {
            s
        }
    }
}

/// The exception for a slice without a direction.
pub open spec fn zero_step() -> ErrorView {
    value_error("slice step cannot be zero"@)
}

/// The step of a slice that leaves it open.
pub open spec fn step_or_one(step: Option<int>) -> int {
    match step {
        Some(x) => x,
        None => 1,
    }
}

/// The bounds and the step of a slice, looked at in this order.
pub open spec fn slice_arguments(slice: PySlice) -> Result<
    (Option<int>, Option<int>, int),
    ErrorView,
> {
    match (slice.spec_start(), slice.spec_stop(), slice.spec_step()) {
        (Err(e), _, _) => Err(e),
        (Ok(_), Err(e), _) => Err(e),
        (Ok(_), Ok(_), Err(e)) => Err(e),
        (Ok(start), Ok(stop), Ok(step)) => if step_or_one(step) == 0 {
            Err(zero_step())
        } else {
            Ok((start, stop, step_or_one(step)))
        },
    }
}

/// What taking a slice of `s` gives.
pub open spec fn slice_outcome(s: Seq<u8>, slice: PySlice) -> Result<Seq<u8>, ErrorView> {
    match slice_arguments(slice) {
        Ok((start, stop, step)) => Ok(slice_items(s, start, stop, step)),
        Err(e) => Err(e),
    }
}

/// The positions `start..end` that optional bounds stand for. The upper one is cut off at the
/// length, the lower one is not.
pub open spec fn adjusted_range(start: Option<isize>, end: Option<isize>, len: int) -> (int, int) {
    (
        match start {
            Some(x) => if x < 0 {
                if x + len < 0 {
                    0
                } else {
                    x + len
                }
            } else {
                x as int
            },
            None => 0,
        },
        match end {
            Some(x) => bound_position(x as int, len),
            None => len,
        },
    )
}

/// The position of an item by its index.
pub fn get_pos(len: usize, p: i32) -> (r: Option<usize>)
    ensures
        match r {
            Some(i) => item_position(p as int, len as int) == Some(i as int),
            None => item_position(p as int, len as int) is None,
        },
{
    if p < 0 {
        let back: usize = (-(p as i64)) as usize;
        if back > len {
            None
        } else {
            Some(len - back)
        }
    } else {
        let i: usize = p as usize;
        if i >= len {
            None
        } else {
            Some(i)
        }
    }
}

/// The position that a bound of a slice stands for.
pub fn get_slice_pos(len: usize, x: &PyInt) -> (r: usize)
    ensures
        r == bound_position(x@, len as int),
{
    if big_is_negative(&x.bytes) {
        let back: Vec<u8> = big_neg(&x.bytes);
        match big_to_usize(&back) {
            Some(n) => {
                if n > len {
                    0
                } else {
                    len - n
                }
            },
            None => 0,
        }
    } else {
        match big_to_usize(&x.bytes) {
            Some(n) => {
                if n > len {
                    len
                } else {
                    n
                }
            },
            None => len,
        }
    }
}

/// The range between two bounds of a slice.
pub fn get_slice_range(len: usize, start: &Option<PyInt>, stop: &Option<PyInt>) -> (r: Range<usize>)
    ensures
        (r.start as int, r.end as int) == slice_bounds(opt_int(*start), opt_int(*stop), len as int),
        r.start <= len,
        r.end <= len,
{
    let lo: usize = match start {
        Some(x) => get_slice_pos(len, x),
        None => 0,
    };
    let hi: usize = match stop {
        Some(x) => get_slice_pos(len, x),
        None => len,
    };
    lo..hi
}

/// The bound right after the item that a bound stands for. The item before the end has no index
/// after it: `past_end` takes that place.
fn bound_after(x: &PyInt, past_end: Vec<u8>) -> (r: PyInt)
    ensures
        r@ == (if x@ == -1 {
            signed_value(past_end@)
        } else {
            x@ + 1
        }),
{
    let minus_one: Vec<u8> = big_from_i64(-1);
    if big_eq(&x.bytes, &minus_one) {
        PyInt { bytes: past_end }
    } else {
        let one: Vec<u8> = big_from_i64(1);
        PyInt { bytes: big_sum(&x.bytes, &one) }
    }
}

/// The range between two bounds of a slice with a negative step.
pub fn get_reverse_range(
    len: usize,
    start: &Option<PyInt>,
    stop: &Option<PyInt>,
) -> (r: Range<usize>)
    ensures
        (r.start as int, r.end as int) == reverse_bounds(
            opt_int(*start),
            opt_int(*stop),
            len as int,
        ),
        r.start <= len,
        r.end <= len,
{
    // the bounds are made exclusive around stop, the lower number
    let above: Option<PyInt> = match start {
        Some(x) => {
            let one: Vec<u8> = big_from_i64(1);
            Some(bound_after(x, big_sum(&big_from_usize(len), &one)))
        },
        None => None,
    };
    let below: Option<PyInt> = match stop {
        Some(x) => Some(bound_after(x, big_from_usize(len))),
        None => None,
    };
    get_slice_range(len, &below, &above)
}

/// The items of a range.
pub fn do_slice(items: &[u8], range: Range<usize>) -> (r: Vec<u8>)
    requires
        range.start <= range.end <= items@.len(),
    ensures
        r@ == items@.subrange(range.start as int, range.end as int),
{
    slice_to_vec(slice_subrange(items, range.start, range.end))
}

/// The first item of a range, and every `step`th one after it.
pub fn do_stepped_slice(items: &[u8], range: Range<usize>, step: usize) -> (r: Vec<u8>)
    requires
        range.start <= range.end <= items@.len(),
        step > 0,
    ensures
        r@ == every_nth(items@.subrange(range.start as int, range.end as int), step as int),
{
    let mut taken: Vec<u8> = Vec::new();
    let hi: usize = range.end;
    let mut i: usize = range.start;
    let ghost all = every_nth(items@.subrange(range.start as int, hi as int), step as int);
    while i < hi
        invariant
            i <= hi <= items@.len(),
            step > 0,
            all =~= taken@ + every_nth(items@.subrange(i as int, hi as int), step as int),
        decreases hi - i,
    {
        let ghost rest = items@.subrange(i as int, hi as int);
        let ghost old_i = i;
        taken.push(items[i]);
        if step < hi - i {
            i = i + step;
        } else {
            i = hi;
        }
        assert(after_first(rest, step as int) =~= items@.subrange(i as int, hi as int));
        assert(rest[0] == items@[old_i as int]);
    }
    assert(items@.subrange(i as int, hi as int).len() == 0);
    taken
}

/// The last item of a range, and every `step`th one before it.
pub fn do_stepped_slice_reverse(items: &[u8], range: Range<usize>, step: usize) -> (r: Vec<u8>)
    requires
        range.start <= range.end <= items@.len(),
        step > 0,
    ensures
        r@ == every_nth_back(items@.subrange(range.start as int, range.end as int), step as int),
{
    let mut taken: Vec<u8> = Vec::new();
    let lo: usize = range.start;
    let mut j: usize = range.end;
    let ghost all = every_nth_back(items@.subrange(lo as int, j as int), step as int);
    while lo < j
        invariant
            lo <= j <= items@.len(),
            step > 0,
            all =~= taken@ + every_nth_back(items@.subrange(lo as int, j as int), step as int),
        decreases j - lo,
    {
        let ghost rest = items@.subrange(lo as int, j as int);
        let ghost old_j = j;
        taken.push(items[j - 1]);
        if step < j - lo {
            j = j - step;
        } else {
            j = lo;
        }
        assert(before_last(rest, step as int) =~= items@.subrange(lo as int, j as int));
        assert(rest.last() == items@[old_j - 1]);
    }
    assert(items@.subrange(lo as int, j as int).len() == 0);
    taken
}

/// A step of one takes every item.
pub proof fn lemma_every_first(s: Seq<u8>)
    ensures
        every_nth(s, 1) == s,
        without_every_nth(s, 1) == Seq::<u8>::empty(),
    decreases s.len(),
{
    if s.len() > 0 {
        lemma_every_first(after_first(s, 1));
        if s.len() == 1 {
            assert(after_first(s, 1) =~= Seq::empty());
        }
        assert(seq![s[0]] + after_first(s, 1) =~= s);
        assert(s.subrange(1, 1) =~= Seq::empty());
    }
}

/// A step of one backwards leaves no item out.
pub proof fn lemma_every_last(s: Seq<u8>)
    ensures
        every_nth_back(s, 1) == s.reverse(),
        without_every_nth_back(s, 1) == Seq::<u8>::empty(),
    decreases s.len(),
{
    if s.len() > 0 {
        lemma_every_last(before_last(s, 1));
        if s.len() == 1 {
            assert(before_last(s, 1) =~= Seq::empty());
        }
        assert(before_last(s, 1) =~= s.drop_last());
        assert(seq![s.last()] + s.drop_last().reverse() =~= s.reverse());
        assert(s.subrange(s.len() - 1, s.len() - 1) =~= Seq::empty());
    } else {
        assert(s.reverse() =~= s);
    }
}

/// A step beyond the last item takes one item.
pub proof fn lemma_every_far(s: Seq<u8>, n: int)
    requires
        0 < s.len() <= n,
    ensures
        every_nth(s, n) == seq![s[0]],
        without_every_nth(s, n) == s.skip(1),
        every_nth_back(s, n) == seq![s.last()],
        without_every_nth_back(s, n) == s.drop_last(),
{
    assert(every_nth(after_first(s, n), n) =~= Seq::empty());
    assert(every_nth_back(before_last(s, n), n) =~= Seq::empty());
    assert(every_nth(s, n) =~= seq![s[0]]);
    assert(every_nth_back(s, n) =~= seq![s.last()]);
}

/// The items that a slice takes.
pub fn get_slice_items(items: &[u8], slice: &PySlice) -> (r: PyResult<Vec<u8>>)
    ensures
        outcome(r) == slice_outcome(items@, *slice),
{
    let start: Option<PyInt> = match slice.start_index() {
        Ok(x) => x,
        Err(e) => return Err(e),
    };
    let stop: Option<PyInt> = match slice.stop_index() {
        Ok(x) => x,
        Err(e) => return Err(e),
    };
    let step: PyInt = match slice.step_index() {
        Ok(Some(x)) => x,
        Ok(None) => PyInt::new(1),
        Err(e) => return Err(e),
    };
    if big_is_zero(&step.bytes) {
        return Err(new_value_error("slice step cannot be zero".to_owned()));
    }
    if big_is_positive(&step.bytes) {
        let range: Range<usize> = get_slice_range(items.len(), &start, &stop);
        if range.start < range.end {
            let ghost taken = items@.subrange(range.start as int, range.end as int);
            match big_to_i32(&step.bytes) {
                Some(1) => {
                    proof {
                        lemma_every_first(taken);
                    }
                    Ok(do_slice(items, range))
                },
                Some(num) => Ok(do_stepped_slice(items, range, num as usize)),
                None => {
                    proof {
                        lemma_every_far(taken, stride(step@, taken.len() as int));
                        assert(items@.subrange(range.start as int, range.start + 1) =~= seq![
                            taken[0],
                        ]);
                    }
                    let first: usize = range.start;
                    Ok(do_slice(items, first..first + 1))
                },
            }
        } else {
            Ok(Vec::new())
        }
    } else {
        let range: Range<usize> = get_reverse_range(items.len(), &start, &stop);
        if range.start < range.end {
            let ghost taken = items@.subrange(range.start as int, range.end as int);
            match big_to_i32(&big_neg(&step.bytes)) {
                Some(num) => Ok(do_stepped_slice_reverse(items, range, num as usize)),
                None => {
                    proof {
                        lemma_every_far(taken, stride(-step@, taken.len() as int));
                        assert(items@.subrange(range.end - 1, range.end as int) =~= seq![
                            taken.last(),
                        ]);
                    }
                    let end: usize = range.end;
                    Ok(do_slice(items, end - 1..end))
                },
            }
        } else {
            Ok(Vec::new())
        }
    }
}

/// The range that optional bounds stand for.
pub fn adjust_indices(
    start: OptionalArg<Option<isize>>,
    end: OptionalArg<Option<isize>>,
    len: usize,
) -> (r: Range<usize>)
    ensures
        (r.start as int, r.end as int) == adjusted_range(
            start.spec_flat_option(),
            end.spec_flat_option(),
            len as int,
        ),
        r.end <= len,
{
    let lo: usize = match start.flat_option() {
        Some(x) => {
            if x < 0 {
                back_from(len, x)
            } else {
                x as usize
            }
        },
        None => 0,
    };
    let hi: usize = match end.flat_option() {
        Some(x) => {
            if x < 0 {
                back_from(len, x)
            } else if x as usize > len {
                len
            } else {
                x as usize
            }
        },
        None => len,
    };
    lo..hi
}

/// The position a negative index stands for, cut off at zero.
fn back_from(len: usize, x: isize) -> (r: usize)
    requires
        x < 0,
    ensures
        r == bound_position(x as int, len as int),
{
    let before: usize = (-(x + 1)) as usize;
    if before >= len {
        0
    } else {
        len - before - 1
    }
}

/// Whether the bounds of a range are in order.
pub fn is_normal(range: &Range<usize>) -> (r: bool)
    ensures
        r == (range.start <= range.end),
{
    range.start <= range.end
}

} // verus!
