//! Laws of what a search, a count, a partition and a test for an affix give.
use vstd::prelude::*;

use crate::error::{ErrorKind, ErrorView};
use crate::find::{
    affix_in_range, affix_outcome, affix_test_outcome, concat, contains_outcome, count_in,
    is_found, occurs_within, part_outcome, partition_outcome, rpartition_outcome,
};
use crate::inner::PyByteInner;
use crate::integer::PyInt;
use crate::laws::separators::{law_occurs_where_it_stands, stands};
use crate::laws::objects::law_gather;
use crate::object::{Either, OptionalArg, PyObject, bytes_outcome};
use crate::options::{ByteInnerFindOptions, sub_outcome};
use crate::search::{
    lemma_first_occurrence, lemma_last_occurrence, occurrences, occurs, occurs_at,
};
use crate::sequence::{lemma_every_first, slice_bounds, slice_items};

verus! {

proof fn lemma_stands(s: Seq<u8>, sub: Seq<u8>)
    ensures
        forall|i: int| #![trigger occurs_at(s, sub, i)]
            #![trigger stands(s, sub, i)]
            occurs_at(s, sub, i) <==> stands(s, sub, i),
{
    assert forall|i: int| #![trigger occurs_at(s, sub, i)]
        #![trigger stands(s, sub, i)]
        occurs_at(s, sub, i) <==> stands(s, sub, i) by {
        law_occurs_where_it_stands(s, sub, i);
    }
}

/// A search finds the first position in its range, or the last one, at which all bytes of what is
/// searched for stand within the range, and nothing only where there is none, or where the range
/// ends before it starts.
pub proof fn law_search(
    s: Seq<u8>,
    sub: Seq<u8>,
    lo: int,
    hi: int,
    reverse: bool,
    r: Option<usize>,
)
    requires
        is_found(s, sub, lo, hi, reverse, r),
    ensures
        lo > hi ==> r is None,
        r matches Some(i) ==> lo <= i && i + sub.len() <= hi && stands(s, sub, i as int),
        forall|j: int|
            lo <= j && j + sub.len() <= hi && #[trigger] stands(s, sub, j) ==> match r {
                Some(i) => if reverse {
                    j <= i
                } else {
                    i <= j
                },
                None => lo > hi,
            },
{
    lemma_stands(s, sub);
    assert forall|j: int|
        lo <= j && j + sub.len() <= hi && #[trigger] stands(s, sub, j) implies match r {
        Some(i) => if reverse {
            j <= i
        } else {
            i <= j
        },
        None => lo > hi,
    } by {
        assert(occurs_at(s, sub, j));
        if lo <= hi {
            assert(occurs_within(s, sub, lo, hi, j));
        }
    }
    if let Some(i) = r {
        assert(occurs_at(s, sub, i as int));
    }
}

/// A count is one more for each position at which what is counted stands within the range; the
/// empty byte string also stands at the end of the range, and nothing is in a range that ends
/// before it starts.
pub proof fn law_count(s: Seq<u8>, sub: Seq<u8>, lo: int, hi: int)
    requires
        0 <= lo,
        hi <= s.len(),
    ensures
        lo > hi ==> count_in(s, sub, lo, hi) == 0,
        lo == hi ==> count_in(s, sub, lo, hi) == (if sub.len() == 0 {
            1int
        } else {
            0
        }),
        lo < hi ==> count_in(s, sub, lo, hi) == count_in(s, sub, lo + 1, hi) + (if lo + sub.len()
            <= hi && stands(s, sub, lo) {
            1int
        } else {
            0
        }),
{
    law_occurs_where_it_stands(s, sub, lo);
    if lo < hi && lo + sub.len() > hi {
        assert(occurrences(s, sub, lo + 1, hi) == 0);
    }
}

/// A byte string is contained where it stands somewhere, and a number where it is a byte that is
/// there; a number that is no byte is refused.
pub proof fn law_contains(s: Seq<u8>, v: PyByteInner, n: PyInt)
    ensures
        contains_outcome(s, Either::A(v)) == Ok::<bool, ErrorView>(
            exists|i: int| stands(s, v@, i),
        ),
        0 <= n@ < 256 ==> contains_outcome(s, Either::B(n)) == Ok::<bool, ErrorView>(
            s.contains(n@ as u8),
        ),
        !(0 <= n@ < 256) ==> (contains_outcome(s, Either::B(n)) matches Err(e) && e.kind
            == ErrorKind::ValueError),
{
    lemma_stands(s, v@);
    if occurs(s, v@) {
        let i = choose|i: int| occurs_at(s, v@, i);
        assert(stands(s, v@, i));
    }
    if exists|i: int| stands(s, v@, i) {
        let i = choose|i: int| stands(s, v@, i);
        assert(occurs_at(s, v@, i));
    }
    if 0 <= n@ < 256 {
        let b = n@ as u8;
        let one = seq![b];
        lemma_stands(s, one);
        if occurs(s, one) {
            let i = choose|i: int| occurs_at(s, one, i);
            assert(stands(s, one, i));
            assert(s[i + 0] == one[0]);
            assert(s.contains(b));
        }
        if s.contains(b) {
            let i = choose|i: int| 0 <= i < s.len() && s[i] == b;
            assert(stands(s, one, i));
            assert(occurs_at(s, one, i));
        }
    }
}

/// What to search for: a byte string, or the byte of a number.
pub proof fn law_searched(v: PyByteInner, n: PyInt)
    ensures
        sub_outcome(Either::A(v)) == Ok::<Seq<u8>, ErrorView>(v@),
        0 <= n@ < 256 ==> sub_outcome(Either::B(n)) == Ok::<Seq<u8>, ErrorView>(seq![n@ as u8]),
        !(0 <= n@ < 256) ==> (sub_outcome(Either::B(n)) matches Err(e) && e.kind
            == ErrorKind::ValueError),
{
}

/// Where to search. A negative bound counts from the end, and does not go beyond the start; the
/// upper one does not go beyond the end. Without bounds the whole byte string is searched.
pub proof fn law_search_range(options: ByteInnerFindOptions, len: int)
    requires
        len >= 0,
    ensures
        ({
            let (lo, hi) = options.spec_range(len);
            &&& (options.start matches OptionalArg::Present(Some(x)) ==> {
                &&& x >= 0 ==> lo == x
                &&& -len <= x < 0 ==> lo == len + x
                &&& x < -len ==> lo == 0
            })
            &&& !(options.start matches OptionalArg::Present(Some(_))) ==> lo == 0
            &&& (options.end matches OptionalArg::Present(Some(x)) ==> {
                &&& x > len ==> hi == len
                &&& 0 <= x <= len ==> hi == x
                &&& -len <= x < 0 ==> hi == len + x
                &&& x < -len ==> hi == 0
            })
            &&& !(options.end matches OptionalArg::Present(Some(_))) ==> hi == len
        }),
{
}

/// A partition is made at the first position at which the separator stands: its front is all that
/// is before it, its back all that is behind the separator. Without one the front is everything.
pub proof fn law_partition_at_first(s: Seq<u8>, sep: Seq<u8>)
    ensures
        sep.len() == 0 ==> (partition_outcome(s, sep) matches Err(e) && e.kind
            == ErrorKind::ValueError),
        sep.len() > 0 ==> (partition_outcome(s, sep) matches Ok((front, has_mid, back)) && {
            let n = front.len() as int;
            &&& has_mid <==> exists|i: int| stands(s, sep, i)
            &&& has_mid ==> stands(s, sep, n) && front == s.take(n) && back == s.skip(n + sep.len())
                && forall|i: int| i < n ==> !stands(s, sep, i)
            &&& !has_mid ==> front == s && back.len() == 0
        }),
{
    if sep.len() > 0 {
        lemma_first_occurrence(s, sep);
        lemma_stands(s, sep);
        if exists|i: int| stands(s, sep, i) {
            let i = choose|i: int| stands(s, sep, i);
            assert(occurs_at(s, sep, i));
        }
    }
}

/// A partition from the right is made at the last position at which the separator stands. Without
/// one the back is everything.
pub proof fn law_partition_at_last(s: Seq<u8>, sep: Seq<u8>)
    ensures
        sep.len() == 0 ==> (rpartition_outcome(s, sep) matches Err(e) && e.kind
            == ErrorKind::ValueError),
        sep.len() > 0 ==> (rpartition_outcome(s, sep) matches Ok((front, has_mid, back)) && {
            let n = front.len() as int;
            &&& has_mid <==> exists|i: int| stands(s, sep, i)
            &&& has_mid ==> stands(s, sep, n) && front == s.take(n) && back == s.skip(n + sep.len())
                && forall|i: int| n < i ==> !stands(s, sep, i)
            &&& !has_mid ==> back == s && front.len() == 0
        }),
{
    if sep.len() > 0 {
        lemma_last_occurrence(s, sep);
        lemma_stands(s, sep);
        if exists|i: int| stands(s, sep, i) {
            let i = choose|i: int| stands(s, sep, i);
            assert(occurs_at(s, sep, i));
        }
    }
}

/// A bound that is given as an integer, and none where it is not given.
pub open spec fn bound_given(arg: OptionalArg<PyObject>, x: Option<int>) -> bool {
    match arg {
        OptionalArg::Present(PyObject::Int(i)) => x == Some(i@),
        OptionalArg::Present(PyObject::NoneObject) => x is None,
        OptionalArg::Present(_) => false,
        OptionalArg::Missing => x is None,
    }
}

/// A test for an affix looks at the slice between its bounds: it is passed where the slice is not
/// shorter than the affix, and starts, or ends, with all its bytes.
pub proof fn law_affix_of_slice(
    s: Seq<u8>,
    arg: Either<PyByteInner, Vec<PyObject>>,
    start: OptionalArg<PyObject>,
    end: OptionalArg<PyObject>,
    endswith: bool,
    affix: Seq<u8>,
    x: Option<int>,
    y: Option<int>,
)
    requires
        affix_outcome(arg) == Ok::<Seq<u8>, ErrorView>(affix),
        bound_given(start, x),
        bound_given(end, y),
        affix_in_range(s, arg, start, end, endswith),
    ensures
        ({
            let t = slice_items(s, x, y, 1);
            affix_test_outcome(s, arg, start, end, endswith) == Ok::<bool, ErrorView>(
                affix.len() <= t.len() && stands(
                    t,
                    affix,
                    if endswith {
                        t.len() - affix.len()
                    } else {
                        0
                    },
                ),
            )
        }),
{
    let t = slice_items(s, x, y, 1);
    let (lo, hi) = slice_bounds(x, y, s.len() as int);
    assert(part_outcome(start, end, s.len() as int) == Ok::<(int, int), ErrorView>((lo, hi)));
    if affix.len() == 0 {
        assert(stands(t, affix, 0) && stands(t, affix, t.len() as int));
    } else {
        if lo < hi {
            lemma_every_first(s.subrange(lo, hi));
            assert(t == s.subrange(lo, hi));
        }
        assert(t.len() == hi - lo);
        if affix.len() <= t.len() {
            let i = if endswith {
                t.len() - affix.len()
            } else {
                0
            };
            law_occurs_where_it_stands(t, affix, i);
            assert(t.subrange(i, i + affix.len()) =~= s.subrange(lo + i, lo + i + affix.len()));
        }
    }
}

/// A test for nothing is passed, whatever the bounds are; else a bound that is no number and not
/// `None` is refused, and what is tested for raises its exception before.
pub proof fn law_affix_errors(
    s: Seq<u8>,
    arg: Either<PyByteInner, Vec<PyObject>>,
    start: OptionalArg<PyObject>,
    end: OptionalArg<PyObject>,
    endswith: bool,
)
    ensures
        ({
            let r = affix_test_outcome(s, arg, start, end, endswith);
            &&& affix_outcome(arg) matches Err(e) ==> r == Err::<bool, ErrorView>(e)
            &&& affix_outcome(arg) matches Ok(affix) ==> affix.len() == 0 ==> r == Ok::<
                bool,
                ErrorView,
            >(true)
            &&& affix_outcome(arg) matches Ok(affix) ==> affix.len() > 0 && (exists|x: PyObject|
                (start == OptionalArg::Present(x) || end == OptionalArg::Present(x)) && !(x is Int
                    || x is NoneObject)) ==> (r matches Err(e) && e.kind == ErrorKind::TypeError)
        }),
{
}

/// What is tested for is a byte string, or the byte strings of a tuple one after the other; an item
/// of the tuple that gives none raises its exception.
pub proof fn law_affixes(v: PyByteInner, tuple: Vec<PyObject>, parts: Seq<Seq<u8>>)
    ensures
        affix_outcome(Either::A(v)) == Ok::<Seq<u8>, ErrorView>(v@),
        parts.len() == tuple@.len() && (forall|k: int|
            0 <= k < parts.len() ==> bytes_outcome(tuple@[k]) == Ok::<Seq<u8>, ErrorView>(
                #[trigger] parts[k],
            )) ==> affix_outcome(Either::B(tuple)) == Ok::<Seq<u8>, ErrorView>(concat(parts)),
{
    let all = tuple@.map_values(|o: PyObject| bytes_outcome(o));
    if parts.len() == tuple@.len() && (forall|k: int|
        0 <= k < parts.len() ==> bytes_outcome(tuple@[k]) == Ok::<Seq<u8>, ErrorView>(
            #[trigger] parts[k],
        )) {
        law_gather(all, parts, 0);
    }
}

} // verus!
