//! Laws of indices and slices: which items they take, one by one.
use vstd::prelude::*;

use crate::error::{ErrorKind, ErrorView, PyResult};
use crate::items::{
    bytes_result, delete_outcome, deleted, int_result, item_at, set_item_outcome, set_slice_result,
    with_item, with_slice,
};
use crate::object::{Either, PyObject, PySlice, assigned_outcome, index_outcome};
use crate::sequence::{
    after_first, before_last, every_nth, every_nth_back, lemma_every_first, reverse_bounds,
    slice_bounds, slice_items, slice_outcome, slice_removed, without_every_nth,
    without_every_nth_back,
};

verus! {

/// Reading by an index: from the start where it is not negative, from the end where it is, and an
/// `IndexError` where no item is there.
pub proof fn law_item(s: Seq<u8>, p: int)
    ensures
        0 <= p < s.len() ==> item_at(s, p) == Ok::<u8, ErrorView>(s[p]),
        -s.len() <= p < 0 ==> item_at(s, p) == Ok::<u8, ErrorView>(s[s.len() + p]),
        !(-s.len() <= p < s.len()) ==> (item_at(s, p) matches Err(e) && e.kind
            == ErrorKind::IndexError),
{
}

/// Setting by an index: the item at its place becomes the number, which must be a byte, and nothing
/// else changes.
pub proof fn law_set_item(s: Seq<u8>, p: int, o: PyObject)
    ensures
        ({
            let at = if p < 0 {
                s.len() + p
            } else {
                p
            };
            let inside = -s.len() <= p < s.len();
            &&& !inside ==> (set_item_outcome(s, p, o) matches Err(e) && e.kind
                == ErrorKind::IndexError) && with_item(s, p, o) == s
            &&& inside && (o matches PyObject::Int(v) && 0 <= v@ < 256) ==> set_item_outcome(s, p, o)
                == Ok::<u8, ErrorView>((o->Int_0)@ as u8) && with_item(s, p, o) == s.update(
                at,
                (o->Int_0)@ as u8,
            )
            &&& inside && (o matches PyObject::Int(v) && !(0 <= v@ < 256)) ==> (set_item_outcome(
                s,
                p,
                o,
            ) matches Err(e) && e.kind == ErrorKind::ValueError) && with_item(s, p, o) == s
            &&& inside && !(o is Int) ==> (set_item_outcome(s, p, o) matches Err(e) && e.kind
                == ErrorKind::TypeError) && with_item(s, p, o) == s
        }),
{
}

/// Deleting by an index: the items before it stay, and those behind it move up by one.
pub proof fn law_delete_item(s: Seq<u8>, p: i32)
    ensures
        ({
            let at = if p < 0 {
                s.len() + p
            } else {
                p as int
            };
            let t = deleted(s, Either::A(p));
            &&& -s.len() <= p < s.len() ==> {
                &&& delete_outcome(s, Either::A(p)) is Ok
                &&& t.len() == s.len() - 1
                &&& forall|i: int| 0 <= i < at ==> t[i] == s[i]
                &&& forall|i: int| at <= i < t.len() ==> t[i] == s[i + 1]
            }
            &&& !(-s.len() <= p < s.len()) ==> t == s && (delete_outcome(
                s,
                Either::A(p),
            ) matches Err(e) && e.kind == ErrorKind::IndexError)
        }),
{
}

/// Whether the item at `i` of `len` items is not before a bound, which counts from the end where it
/// is negative.
pub open spec fn reaches(i: int, x: int, len: int) -> bool {
    if x >= 0 {
        x <= i
    } else {
        x <= i - len
    }
}

/// Whether the item at `i` is between the bounds of a slice that goes forwards: not before its
/// start, and before its stop.
pub open spec fn between(i: int, start: Option<int>, stop: Option<int>, len: int) -> bool {
    &&& start matches Some(x) ==> reaches(i, x, len)
    &&& stop matches Some(y) ==> !reaches(i, y, len)
}

/// Whether the item at `i` is between the bounds of a slice that goes backwards: not behind its
/// start, and behind its stop.
pub open spec fn between_back(i: int, start: Option<int>, stop: Option<int>, len: int) -> bool {
    &&& start matches Some(x) ==> !reaches(i - 1, x, len)
    &&& stop matches Some(y) ==> reaches(i - 1, y, len)
}

/// The number of items that a step takes out of some.
pub open spec fn taken(len: int, step: int) -> int {
    (len + step - 1) / step
}

proof fn lemma_taken(len: int, n: int)
    requires
        n > 0,
        len >= 0,
    ensures
        len == 0 ==> taken(len, n) == 0,
        0 < len <= n ==> taken(len, n) == 1,
        len > n ==> taken(len, n) == 1 + taken(len - n, n),
        forall|k: int| 0 <= k ==> (k < taken(len, n) <==> #[trigger] (k * n) < len),
{
    vstd::arithmetic::div_mod::lemma_fundamental_div_mod(len + n - 1, n);
    let q = taken(len, n);
    let r = (len + n - 1) % n;
    assert(0 <= r < n);
    assert(len + n - 1 == n * q + r);
    if len == 0 {
        assert(q == 0) by (nonlinear_arith)
            requires
                n - 1 == n * q + r,
                0 <= r < n,
                n > 0,
        ;
    }
    if 0 < len <= n {
        assert(q == 1) by (nonlinear_arith)
            requires
                len + n - 1 == n * q + r,
                0 <= r < n,
                0 < len <= n,
        ;
    }
    if len > n {
        vstd::arithmetic::div_mod::lemma_fundamental_div_mod(len - 1, n);
        let p = (len - 1) / n;
        assert(q == p + 1) by (nonlinear_arith)
            requires
                len + n - 1 == n * q + r,
                0 <= r < n,
                len - 1 == n * p + (len - 1) % n,
                0 <= (len - 1) % n < n,
        ;
    }
    assert forall|k: int| 0 <= k implies (k < q <==> #[trigger] (k * n) < len) by {
        if k < q {
            assert(k * n < len) by (nonlinear_arith)
                requires
                    k < q,
                    len + n - 1 == n * q + r,
                    0 <= r < n,
                    n > 0,
            ;
        } else {
            assert(k * n >= len) by (nonlinear_arith)
                requires
                    k >= q,
                    len + n - 1 == n * q + r,
                    0 <= r < n,
                    n > 0,
            ;
        }
    }
}

proof fn lemma_every_nth_items(t: Seq<u8>, n: int)
    requires
        n > 0,
    ensures
        every_nth(t, n).len() == taken(t.len() as int, n),
        forall|k: int|
            0 <= k < every_nth(t, n).len() ==> #[trigger] every_nth(t, n)[k] == t[k * n],
    decreases t.len(),
{
    let len = t.len() as int;
    lemma_taken(len, n);
    let all = every_nth(t, n);
    if len > 0 {
        let rest = after_first(t, n);
        lemma_every_nth_items(rest, n);
        lemma_taken(rest.len() as int, n);
        assert(all =~= seq![t[0]] + every_nth(rest, n));
        assert forall|k: int| 0 <= k < all.len() implies #[trigger] all[k] == t[k * n] by {
            if k == 0 {
                assert(k * n == 0) by (nonlinear_arith)
                    requires
                        k == 0,
                ;
            } else {
                assert(all[k] == every_nth(rest, n)[k - 1]);
                assert((k - 1) * n < rest.len());
                assert(0 <= (k - 1) * n) by (nonlinear_arith)
                    requires
                        k >= 1,
                        n > 0,
                ;
                assert((k - 1) * n + n == k * n) by (nonlinear_arith);
                assert(rest[(k - 1) * n] == t[k * n]);
            }
        }
    }
}

/// Whether the item at `i` of `t` is kept, without the first item and every `n`th one behind it,
/// and has moved up by as many places as items before it are gone.
pub open spec fn is_kept(t: Seq<u8>, w: Seq<u8>, n: int, i: int) -> bool {
    i % n != 0 ==> 0 <= i - 1 - i / n < w.len() && w[i - 1 - i / n] == t[i]
}

proof fn lemma_without_items(t: Seq<u8>, n: int)
    requires
        n > 0,
    ensures
        without_every_nth(t, n).len() == t.len() - taken(t.len() as int, n),
        forall|i: int| 0 <= i < t.len() ==> #[trigger] is_kept(t, without_every_nth(t, n), n, i),
    decreases t.len(),
{
    let len = t.len() as int;
    lemma_taken(len, n);
    let w = without_every_nth(t, n);
    if len > 0 {
        if n < len {
            let rest = after_first(t, n);
            let tail = without_every_nth(rest, n);
            lemma_without_items(rest, n);
            lemma_taken(rest.len() as int, n);
            assert(w =~= t.subrange(1, n) + tail);
            assert forall|i: int| 0 <= i < len implies #[trigger] is_kept(t, w, n, i) by {
                if i < n {
                    vstd::arithmetic::div_mod::lemma_small_mod(i as nat, n as nat);
                    vstd::arithmetic::div_mod::lemma_basic_div(i, n);
                } else {
                    vstd::arithmetic::div_mod::lemma_div_minus_one(i, n);
                    vstd::arithmetic::div_mod::lemma_mod_sub_multiples_vanish(i, n);
                    assert((i - n) / n == i / n - 1) by (nonlinear_arith)
                        requires
                            n > 0,
                    ;
                    assert((i - n) % n == i % n);
                    let j = i - n;
                    assert(rest[j] == t[i]);
                    assert(is_kept(rest, tail, n, j));
                }
            }
        } else {
            assert forall|i: int| 0 <= i < len implies #[trigger] is_kept(t, w, n, i) by {
                vstd::arithmetic::div_mod::lemma_small_mod(i as nat, n as nat);
                vstd::arithmetic::div_mod::lemma_basic_div(i, n);
            }
        }
    }
}

proof fn lemma_backwards(t: Seq<u8>, n: int)
    requires
        n > 0,
    ensures
        every_nth_back(t, n) == every_nth(t.reverse(), n),
        without_every_nth_back(t, n) == without_every_nth(t.reverse(), n).reverse(),
    decreases t.len(),
{
    let r = t.reverse();
    if t.len() > 0 {
        let front = before_last(t, n);
        lemma_backwards(front, n);
        assert(front.reverse() =~= after_first(r, n));
        assert(r[0] == t.last());
        if n < t.len() {
            let gap = t.subrange(t.len() - n, t.len() - 1);
            assert(gap.reverse() =~= r.subrange(1, n));
            assert(without_every_nth_back(t, n) =~= without_every_nth(r, n).reverse());
        } else {
            assert(t.drop_last() =~= r.skip(1).reverse());
        }
    } else {
        assert(r =~= t);
        assert(t.reverse() =~= t);
    }
}

/// Whether the item at `i` is between the bounds of a slice.
pub open spec fn is_between(
    i: int,
    start: Option<int>,
    stop: Option<int>,
    step: int,
    len: int,
) -> bool {
    if step > 0 {
        between(i, start, stop, len)
    } else {
        between_back(i, start, stop, len)
    }
}

/// Whether the items from `lo` on, before `hi`, are those between the bounds of a slice.
pub open spec fn are_between(
    lo: int,
    hi: int,
    start: Option<int>,
    stop: Option<int>,
    step: int,
    len: int,
) -> bool {
    &&& 0 <= lo <= hi <= len
    &&& forall|i: int|
        0 <= i < len ==> (lo <= i < hi <==> #[trigger] is_between(i, start, stop, step, len))
}

proof fn lemma_between(
    lo: int,
    hi: int,
    start: Option<int>,
    stop: Option<int>,
    step: int,
    len: int,
)
    requires
        are_between(lo, hi, start, stop, step, len),
        step != 0,
    ensures
        ({
            let (a, b) = if step > 0 {
                slice_bounds(start, stop, len)
            } else {
                reverse_bounds(start, stop, len)
            };
            &&& lo < hi ==> a == lo && b == hi
            &&& lo == hi ==> a >= b
        }),
{
    let (a, b) = if step > 0 {
        slice_bounds(start, stop, len)
    } else {
        reverse_bounds(start, stop, len)
    };
    assert forall|i: int| 0 <= i < len implies (a <= i < b <==> #[trigger] is_between(
        i,
        start,
        stop,
        step,
        len,
    )) by {}
    if lo < hi {
        assert(is_between(lo, start, stop, step, len));
        assert(is_between(hi - 1, start, stop, step, len));
        if a < lo {
            assert(!is_between(lo - 1, start, stop, step, len));
        }
        if hi < b {
            assert(!is_between(hi, start, stop, step, len));
        }
    } else if a < b {
        assert(is_between(a, start, stop, step, len));
    }
}

/// The size of a step, and at least the number of items where an `i32` cannot hold it.
pub open spec fn step_size(step: int, len: int) -> int {
    let m = if step > 0 {
        step
    } else {
        -step
    };
    if m > 0x7fff_ffff && m < len {
        len
    } else {
        m
    }
}

/// The items of a slice. It takes the first item between its bounds, or the last one where it goes
/// backwards, and from there each that is a multiple of its step away; a step that an `i32` cannot
/// hold takes no other.
pub proof fn law_slice_takes(
    s: Seq<u8>,
    start: Option<int>,
    stop: Option<int>,
    step: int,
    lo: int,
    hi: int,
)
    requires
        step != 0,
        are_between(lo, hi, start, stop, step, s.len() as int),
    ensures
        ({
            let t = slice_items(s, start, stop, step);
            let m = step_size(step, hi - lo);
            &&& lo == hi ==> t.len() == 0
            &&& lo < hi ==> t.len() == taken(hi - lo, m)
            &&& forall|k: int|
                0 <= k < t.len() ==> #[trigger] t[k] == s[if step > 0 {
                    lo + k * m
                } else {
                    hi - 1 - k * m
                }]
        }),
{
    lemma_between(lo, hi, start, stop, step, s.len() as int);
    let t = slice_items(s, start, stop, step);
    let m = step_size(step, hi - lo);
    if lo < hi {
        let mid = s.subrange(lo, hi);
        lemma_taken(hi - lo, m);
        if step > 0 {
            lemma_every_nth_items(mid, m);
            assert forall|k: int| 0 <= k < t.len() implies #[trigger] t[k] == s[lo + k * m] by {
                assert(k * m < hi - lo);
                assert(0 <= k * m) by (nonlinear_arith)
                    requires
                        k >= 0,
                        m > 0,
                ;
                assert(mid[k * m] == s[lo + k * m]);
            }
        } else {
            lemma_backwards(mid, m);
            lemma_every_nth_items(mid.reverse(), m);
            assert forall|k: int| 0 <= k < t.len() implies #[trigger] t[k] == s[hi - 1 - k * m] by {
                assert(k * m < hi - lo);
                assert(0 <= k * m) by (nonlinear_arith)
                    requires
                        k >= 0,
                        m > 0,
                ;
                assert(mid.reverse()[k * m] == s[hi - 1 - k * m]);
            }
        }
    }
}

/// What is left without a slice. The items before and behind its bounds stay, and between them
/// those that it does not take, in their order.
pub proof fn law_slice_leaves(
    s: Seq<u8>,
    start: Option<int>,
    stop: Option<int>,
    step: int,
    lo: int,
    hi: int,
)
    requires
        step != 0,
        are_between(lo, hi, start, stop, step, s.len() as int),
    ensures
        ({
            let t = slice_removed(s, start, stop, step);
            let m = step_size(step, hi - lo);
            let n = taken(hi - lo, m);
            let mid = s.subrange(lo, hi);
            let left = t.subrange(lo, hi - n);
            &&& lo == hi ==> t == s
            &&& lo < hi ==> {
                &&& t.len() == s.len() - n
                &&& t.take(lo) == s.take(lo)
                &&& t.skip(hi - n) == s.skip(hi)
                &&& forall|i: int|
                    0 <= i < mid.len() ==> if step > 0 {
                        #[trigger] is_kept(mid, left, m, i)
                    } else {
                        is_kept(mid.reverse(), left.reverse(), m, i)
                    }
            }
        }),
{
    lemma_between(lo, hi, start, stop, step, s.len() as int);
    let t = slice_removed(s, start, stop, step);
    let m = step_size(step, hi - lo);
    let n = taken(hi - lo, m);
    let mid = s.subrange(lo, hi);
    if lo < hi {
        lemma_taken(hi - lo, m);
        let kept = if step > 0 {
            without_every_nth(mid, m)
        } else {
            without_every_nth_back(mid, m)
        };
        if step > 0 {
            lemma_without_items(mid, m);
        } else {
            lemma_backwards(mid, m);
            lemma_without_items(mid.reverse(), m);
        }
        assert(t == s.take(lo) + kept + s.skip(hi));
        assert(kept.len() == hi - lo - n);
        assert(t.take(lo) =~= s.take(lo));
        assert(t.skip(hi - n) =~= s.skip(hi));
        assert(t.subrange(lo, hi - n) =~= kept);
        assert forall|i: int| 0 <= i < mid.len() implies if step > 0 {
            #[trigger] is_kept(mid, kept, m, i)
        } else {
            is_kept(mid.reverse(), kept.reverse(), m, i)
        } by {
            if step < 0 {
                assert(is_kept(mid.reverse(), without_every_nth(mid.reverse(), m), m, i));
                assert(kept.reverse() =~= without_every_nth(mid.reverse(), m));
            }
        }
    }
}

/// The number that an object gives as a bound or as a step, where it gives one; `None` gives none.
pub open spec fn gives(o: PyObject, x: Option<int>) -> bool {
    match o {
        PyObject::NoneObject => x is None,
        PyObject::Int(i) => x == Some(i@),
        PyObject::Instance(i) => i.index_method matches Some(Ok(v)) && x == Some(v@),
        _ => false,
    }
}

/// What the parts of a slice object give.
pub open spec fn slice_gives(
    slice: PySlice,
    start: Option<int>,
    stop: Option<int>,
    step: Option<int>,
) -> bool {
    &&& match slice.start {
        Some(o) => gives(o, start),
        None => start is None,
    }
    &&& gives(slice.stop, stop)
    &&& match slice.step {
        Some(o) => gives(o, step),
        None => step is None,
    }
}

/// Reading and deleting by a slice object take the items of its bounds and its step, which is one
/// where it has none. A step of zero is refused, and nothing is deleted.
pub proof fn law_slice_object(
    s: Seq<u8>,
    slice: PySlice,
    start: Option<int>,
    stop: Option<int>,
    step: Option<int>,
)
    requires
        slice_gives(slice, start, stop, step),
    ensures
        step == Some(0int) ==> {
            &&& slice_outcome(s, slice) matches Err(e) && e.kind == ErrorKind::ValueError
            &&& delete_outcome(s, Either::B(slice)) matches Err(e) && e.kind == ErrorKind::ValueError
            &&& deleted(s, Either::B(slice)) == s
        },
        step is None ==> {
            &&& slice_outcome(s, slice) == Ok::<Seq<u8>, ErrorView>(slice_items(s, start, stop, 1))
            &&& delete_outcome(s, Either::B(slice)) is Ok
            &&& deleted(s, Either::B(slice)) == slice_removed(s, start, stop, 1)
        },
        step matches Some(n) ==> n != 0 ==> {
            &&& slice_outcome(s, slice) == Ok::<Seq<u8>, ErrorView>(slice_items(s, start, stop, n))
            &&& delete_outcome(s, Either::B(slice)) is Ok
            &&& deleted(s, Either::B(slice)) == slice_removed(s, start, stop, n)
        },
{
}

/// What is neither a number, nor `None`, nor an object with an index is refused as a bound.
pub proof fn law_bad_bound(s: Seq<u8>, slice: PySlice, o: PyObject)
    requires
        !(o is Int || o is NoneObject || o is Instance),
        slice.start == Some(o) || (slice.start is None && slice.stop == o),
    ensures
        slice_outcome(s, slice) matches Err(e) && e.kind == ErrorKind::TypeError,
        delete_outcome(s, Either::B(slice)) matches Err(e) && e.kind == ErrorKind::TypeError,
        deleted(s, Either::B(slice)) == s,
{
}

/// An assignment to a slice puts the new items between what is before its start and what is from
/// its stop on, and returns the slice read again.
pub proof fn law_set_slice(
    s: Seq<u8>,
    slice: PySlice,
    o: PyObject,
    start: Option<int>,
    stop: Option<int>,
    step: Option<int>,
    new: Seq<u8>,
)
    requires
        slice_gives(slice, start, stop, step),
        assigned_outcome(o) == Ok::<Seq<u8>, ErrorView>(new),
    ensures
        ({
            let front = match start {
                Some(_) => slice_items(s, None, start, 1),
                None => Seq::empty(),
            };
            let back = match stop {
                Some(_) => slice_items(s, stop, None, 1),
                None => Seq::empty(),
            };
            &&& with_slice(s, slice, o) == front + new + back
            &&& set_slice_result(s, slice, o) == slice_outcome(with_slice(s, slice, o), slice)
        }),
{
    let (lo, hi) = slice_bounds(start, stop, s.len() as int);
    let n = s.len() as int;
    lemma_every_first(s.subrange(0, lo));
    lemma_every_first(s.subrange(hi, n));
    assert(s.subrange(0, lo) =~= s.take(lo));
    assert(s.subrange(hi, n) =~= s.skip(hi));
    if let Some(x) = start {
        assert(slice_items(s, None, start, 1) =~= s.take(lo));
    }
    if let Some(y) = stop {
        assert(slice_items(s, stop, None, 1) =~= s.skip(hi));
    }
    assert(s.take(0) =~= Seq::empty());
    assert(s.skip(n) =~= Seq::empty());
}

/// What an object is as a bound: a number, nothing where it is `None`, what its index method gives
/// or raises, and else a `TypeError`.
pub proof fn law_bound(o: PyObject)
    ensures
        match o {
            PyObject::NoneObject => index_outcome(o) == Ok::<Option<int>, ErrorView>(None),
            PyObject::Int(i) => index_outcome(o) == Ok::<Option<int>, ErrorView>(Some(i@)),
            PyObject::Instance(i) => match i.index_method {
                Some(Ok(v)) => index_outcome(o) == Ok::<Option<int>, ErrorView>(Some(v@)),
                Some(Err(e)) => index_outcome(o) == Err::<Option<int>, ErrorView>(e@),
                None => index_outcome(o) matches Err(e) && e.kind == ErrorKind::TypeError,
            },
            _ => index_outcome(o) matches Err(e) && e.kind == ErrorKind::TypeError,
        },
{
}

/// The exception of a slice object is that of its start, else that of its stop, else that of its
/// step; an assignment raises that of its value before, and none of a step before it is done. What
/// raises before it is done changes nothing.
pub proof fn law_slice_errors(s: Seq<u8>, slice: PySlice, o: PyObject)
    ensures
        ({
            let first = match slice.start {
                Some(x) => index_outcome(x),
                None => Ok(None),
            };
            let second = index_outcome(slice.stop);
            let third = match slice.step {
                Some(x) => index_outcome(x),
                None => Ok(None),
            };
            let whole = slice_outcome(s, slice);
            &&& first matches Err(e) ==> whole == Err::<Seq<u8>, ErrorView>(e)
            &&& first is Ok ==> (second matches Err(e) ==> whole == Err::<Seq<u8>, ErrorView>(e))
            &&& first is Ok && second is Ok ==> (third matches Err(e) ==> whole == Err::<
                Seq<u8>,
                ErrorView,
            >(e))
            &&& whole matches Err(e) ==> delete_outcome(s, Either::B(slice)) == Err::<(), ErrorView>(
                e,
            ) && deleted(s, Either::B(slice)) == s
            &&& assigned_outcome(o) matches Err(e) ==> set_slice_result(s, slice, o) == Err::<
                Seq<u8>,
                ErrorView,
            >(e) && with_slice(s, slice, o) == s
            &&& assigned_outcome(o) is Ok ==> (first matches Err(e) ==> set_slice_result(
                s,
                slice,
                o,
            ) == Err::<Seq<u8>, ErrorView>(e) && with_slice(s, slice, o) == s)
            &&& assigned_outcome(o) is Ok && first is Ok ==> (second matches Err(e)
                ==> set_slice_result(s, slice, o) == Err::<Seq<u8>, ErrorView>(e) && with_slice(
                s,
                slice,
                o,
            ) == s)
        }),
{
}

/// What results are: the integer or the `bytes` that the operation gives, or its exception.
pub proof fn law_results(r: PyResult<PyObject>, v: u8, b: Seq<u8>, f: ErrorView)
    ensures
        int_result(r, Ok(v)) <==> (r matches Ok(PyObject::Int(i)) && i@ == v),
        int_result(r, Err(f)) <==> (r matches Err(e) && e@ == f),
        bytes_result(r, Ok(b)) <==> (r matches Ok(PyObject::Bytes(x)) && x@ == b),
        bytes_result(r, Err(f)) <==> (r matches Err(e) && e@ == f),
{
}

} // verus!
