//! Laws of searching.
use vstd::prelude::*;

use crate::find::{
    affix_test_outcome, count_in, is_found, occurs_within, partition_outcome, rpartition_outcome,
};
use crate::inner::PyByteInner;
use crate::object::{Either, OptionalArg, PyObject};
use crate::search::{
    first_occurrence, last_occurrence, lemma_first_occurrence, lemma_last_occurrence, occurrences,
    occurs, occurs_at,
};

verus! {

/// A search has one result.
pub proof fn law_found_once(
    s: Seq<u8>,
    sub: Seq<u8>,
    lo: int,
    hi: int,
    reverse: bool,
    r: Option<usize>,
    t: Option<usize>,
)
    requires
        is_found(s, sub, lo, hi, reverse, r),
        is_found(s, sub, lo, hi, reverse, t),
    ensures
        r == t,
{
    if lo <= hi {
        if let Some(i) = r {
            assert(occurs_within(s, sub, lo, hi, i as int));
        }
        if let Some(i) = t {
            assert(occurs_within(s, sub, lo, hi, i as int));
        }
    }
}

/// A search from the left and one from the right find something, or nothing, together, and what
/// is found from the left is not behind what is found from the right.
pub proof fn law_first_before_last(
    s: Seq<u8>,
    sub: Seq<u8>,
    lo: int,
    hi: int,
    first: Option<usize>,
    last: Option<usize>,
)
    requires
        is_found(s, sub, lo, hi, false, first),
        is_found(s, sub, lo, hi, true, last),
    ensures
        first is Some <==> last is Some,
        first is Some ==> first->0 <= last->0,
{
    if lo <= hi {
        if let Some(i) = first {
            assert(occurs_within(s, sub, lo, hi, i as int));
        }
        if let Some(i) = last {
            assert(occurs_within(s, sub, lo, hi, i as int));
        }
    }
}

proof fn lemma_occurrences_positive(s: Seq<u8>, sub: Seq<u8>, lo: int, hi: int)
    requires
        sub.len() > 0,
        0 <= lo,
        hi <= s.len(),
    ensures
        occurrences(s, sub, lo, hi) > 0 <==> exists|i: int| occurs_within(s, sub, lo, hi, i),
    decreases hi - lo,
{
    if lo < hi && lo + sub.len() <= hi {
        lemma_occurrences_positive(s, sub, lo + 1, hi);
        if occurs_at(s, sub, lo) {
            assert(occurs_within(s, sub, lo, hi, lo));
        } else if occurrences(s, sub, lo + 1, hi) > 0 {
            let next = lo + 1;
            let i = choose|i: int| occurs_within(s, sub, next, hi, i);
            assert(occurs_within(s, sub, lo, hi, i));
        } else if exists|i: int| occurs_within(s, sub, lo, hi, i) {
            let i = choose|i: int| occurs_within(s, sub, lo, hi, i);
            assert(occurs_within(s, sub, lo + 1, hi, i));
        }
    }
}

/// There is something to count in a range exactly where a search in it finds something.
pub proof fn law_counted_if_found(
    s: Seq<u8>,
    sub: Seq<u8>,
    lo: int,
    hi: int,
    reverse: bool,
    r: Option<usize>,
)
    requires
        0 <= lo,
        hi <= s.len(),
        is_found(s, sub, lo, hi, reverse, r),
    ensures
        count_in(s, sub, lo, hi) > 0 <==> r is Some,
        count_in(s, sub, lo, hi) >= 0,
{
    if lo <= hi {
        if sub.len() > 0 {
            lemma_occurrences_positive(s, sub, lo, hi);
        } else {
            assert(s.subrange(lo, lo) =~= sub);
            assert(occurs_within(s, sub, lo, hi, lo));
        }
    }
}

/// A byte string is contained in another exactly where a search in the whole of it finds it, and
/// where it counts at least once.
pub proof fn law_contained_if_found(s: Seq<u8>, sub: Seq<u8>, reverse: bool, r: Option<usize>)
    requires
        is_found(s, sub, 0, s.len() as int, reverse, r),
    ensures
        occurs(s, sub) <==> r is Some,
        occurs(s, sub) <==> count_in(s, sub, 0, s.len() as int) > 0,
{
    law_counted_if_found(s, sub, 0, s.len() as int, reverse, r);
    if occurs(s, sub) {
        let i = choose|i: int| occurs_at(s, sub, i);
        assert(occurs_within(s, sub, 0, s.len() as int, i));
    }
    if let Some(i) = r {
        assert(occurs_at(s, sub, i as int));
    }
}

/// The parts of a partition, with the separator where there is one, make up the byte string. It
/// has the separator exactly where the byte string contains it, and then no occurrence is before
/// the one that the partition is made at, and a search finds it there.
pub proof fn law_partition(s: Seq<u8>, sep: Seq<u8>)
    requires
        sep.len() > 0,
    ensures
        partition_outcome(s, sep) matches Ok((front, has_mid, back)) && {
            &&& s == (if has_mid {
                front + sep + back
            } else {
                front + back
            })
            &&& has_mid == occurs(s, sep)
            &&& !occurs(front, sep)
            &&& has_mid && front.len() <= usize::MAX ==> is_found(
                s,
                sep,
                0,
                s.len() as int,
                false,
                Some(front.len() as usize),
            )
        },
{
    lemma_first_occurrence(s, sep);
    let (front, has_mid, back) = partition_outcome(s, sep)->Ok_0;
    if let Some(i) = first_occurrence(s, sep) {
        assert(s =~= front + sep + back) by {
            assert(s =~= s.take(i) + s.subrange(i, i + sep.len()) + s.skip(i + sep.len()));
        }
        if occurs(front, sep) {
            let k = choose|k: int| occurs_at(front, sep, k);
            assert(s.subrange(k, k + sep.len()) =~= front.subrange(k, k + sep.len()));
            assert(occurs_at(s, sep, k));
        }
    } else {
        assert(s =~= front + back);
    }
}

/// The parts of a partition from the right, with the separator where there is one, make up the
/// byte string. It has the separator exactly where the byte string contains it, and then no
/// occurrence is behind the one that the partition is made at, and a search finds it there.
pub proof fn law_rpartition(s: Seq<u8>, sep: Seq<u8>)
    requires
        sep.len() > 0,
    ensures
        rpartition_outcome(s, sep) matches Ok((front, has_mid, back)) && {
            &&& s == (if has_mid {
                front + sep + back
            } else {
                front + back
            })
            &&& has_mid == occurs(s, sep)
            &&& !occurs(back, sep)
            &&& has_mid && front.len() <= usize::MAX ==> is_found(
                s,
                sep,
                0,
                s.len() as int,
                true,
                Some(front.len() as usize),
            )
        },
{
    lemma_last_occurrence(s, sep);
    let (front, has_mid, back) = rpartition_outcome(s, sep)->Ok_0;
    if let Some(i) = last_occurrence(s, sep) {
        assert(s =~= front + sep + back) by {
            assert(s =~= s.take(i) + s.subrange(i, i + sep.len()) + s.skip(i + sep.len()));
        }
        if occurs(back, sep) {
            let k = choose|k: int| occurs_at(back, sep, k);
            let j = i + sep.len() + k;
            assert(s.subrange(j, j + sep.len()) =~= back.subrange(k, k + sep.len()));
            assert(occurs_at(s, sep, j));
        }
    } else {
        assert(s =~= front + back);
    }
}

/// A byte string that starts, or ends, with an affix is the affix with something behind it, or
/// before it, and contains the affix.
pub proof fn law_affix(s: Seq<u8>, affix: PyByteInner, endswith: bool)
    ensures
        affix_test_outcome(
            s,
            Either::<PyByteInner, Vec<PyObject>>::A(affix),
            OptionalArg::Missing,
            OptionalArg::Missing,
            endswith,
        ) matches Ok(b) && {
            &&& b <==> affix@.len() <= s.len() && s == (if endswith {
                s.take(s.len() - affix@.len()) + affix@
            } else {
                affix@ + s.skip(affix@.len() as int)
            })
            &&& b ==> occurs(s, affix@)
        },
{
    let a = affix@;
    let n = s.len() - a.len();
    let arg = Either::<PyByteInner, Vec<PyObject>>::A(affix);
    let b = affix_test_outcome(s, arg, OptionalArg::Missing, OptionalArg::Missing, endswith)->Ok_0;
    if n >= 0 {
        assert(s =~= s.take(n) + s.subrange(n, s.len() as int));
        assert((s.take(n) + a).subrange(n, s.len() as int) =~= a);
        assert(s =~= s.subrange(0, a.len() as int) + s.skip(a.len() as int));
        assert((a + s.skip(a.len() as int)).subrange(0, a.len() as int) =~= a);
        assert(a.len() == 0 ==> s.take(n) + a =~= s && a + s.skip(0) =~= s);
        assert(a.len() == 0 ==> s.subrange(0, 0) =~= a);
    }
    if b {
        if endswith {
            assert(a.len() == 0 ==> s.subrange(n, s.len() as int) =~= a);
            assert(occurs_at(s, a, n));
        } else {
            assert(occurs_at(s, a, 0));
        }
    }
}

} // verus!
