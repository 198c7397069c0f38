//! Laws of splitting by a separator, and of what stands where.
use vstd::prelude::*;

use crate::laws::pieces::{law_pieces_make_up, lemma_separated_front, separated};
use crate::search::{first_occurrence_from, lemma_first_occurrence_from, occurs_at};
use crate::split::{pieces, slices, split_pieces};

verus! {

/// Whether `s` has the bytes of `sub`, one by one, from position `i` on.
pub open spec fn stands(s: Seq<u8>, sub: Seq<u8>, i: int) -> bool {
    &&& 0 <= i
    &&& i + sub.len() <= s.len()
    &&& forall|j: int| 0 <= j < sub.len() ==> s[i + j] == #[trigger] sub[j]
}

/// What stands somewhere is what occurs there.
pub proof fn law_occurs_where_it_stands(s: Seq<u8>, sub: Seq<u8>, i: int)
    ensures
        occurs_at(s, sub, i) <==> stands(s, sub, i),
{
    if 0 <= i && i + sub.len() <= s.len() {
        let t = s.subrange(i, i + sub.len());
        if t == sub {
            assert forall|j: int| 0 <= j < sub.len() implies s[i + j] == #[trigger] sub[j] by {
                assert(t[j] == s[i + j]);
            }
        }
        if stands(s, sub, i) {
            assert(t =~= sub);
        }
    }
}

/// The piece with the number `k`, and the separator behind it, which the last piece lacks.
pub open spec fn followed(u: Seq<Seq<u8>>, k: int, sep: Seq<u8>) -> Seq<u8> {
    if k < u.len() - 1 {
        u[k] + sep
    } else {
        u[k]
    }
}

/// The separator does not stand in `t` where `s` has the same bytes and does not have it.
proof fn lemma_stands_not(s: Seq<u8>, t: Seq<u8>, sep: Seq<u8>, p: int, j: int)
    requires
        0 <= p,
        0 <= j,
        p + t.len() <= s.len(),
        t == s.subrange(p, p + t.len()),
        !occurs_at(s, sep, p + j),
    ensures
        !stands(t, sep, j),
{
    if stands(t, sep, j) {
        assert forall|x: int| 0 <= x < sep.len() implies s[p + j + x] == #[trigger] sep[x] by {
            assert(t[j + x] == sep[x]);
        }
        law_occurs_where_it_stands(s, sep, p + j);
    }
}

proof fn lemma_pieces_leftmost(s: Seq<u8>, sep: Seq<u8>, p: int, max: int)
    requires
        sep.len() > 0,
        0 <= p <= s.len(),
        max <= 0,
    ensures
        ({
            let u = pieces(s, sep, p, max);
            forall|k: int, j: int|
                0 <= k < u.len() && 0 <= j < u[k].len() ==> !(#[trigger] stands(
                    followed(u, k, sep),
                    sep,
                    j,
                ))
        }),
    decreases s.len() - p,
{
    let u = pieces(s, sep, p, max);
    lemma_first_occurrence_from(s, sep, p);
    match first_occurrence_from(s, sep, p) {
        Some(i) => {
            let next = i + sep.len();
            let rest = pieces(s, sep, next, max - 1);
            lemma_pieces_leftmost(s, sep, next, max - 1);
            lemma_pieces_some(s, sep, next, max - 1);
            assert(u =~= seq![s.subrange(p, i)] + rest);
            let t = u[0] + sep;
            assert(t =~= s.subrange(p, next)) by {
                assert(s.subrange(p, next) =~= s.subrange(p, i) + s.subrange(i, next));
            }
            assert forall|k: int, j: int| 0 <= k < u.len() && 0 <= j < u[k].len() implies !(
            #[trigger] stands(followed(u, k, sep), sep, j)) by {
                if k == 0 {
                    lemma_stands_not(s, t, sep, p, j);
                } else {
                    assert(followed(u, k, sep) == followed(rest, k - 1, sep));
                }
            }
        },
        None => {
            assert forall|k: int, j: int| 0 <= k < u.len() && 0 <= j < u[k].len() implies !(
            #[trigger] stands(followed(u, k, sep), sep, j)) by {
                assert(u[0] =~= s.subrange(p, p + u[0].len()));
                lemma_stands_not(s, u[0], sep, p, j);
            }
        },
    }
}

proof fn lemma_pieces_some(s: Seq<u8>, sep: Seq<u8>, p: int, max: int)
    requires
        sep.len() > 0,
        0 <= p <= s.len(),
    ensures
        pieces(s, sep, p, max).len() > 0,
{
}

/// A byte string is split at every separator, as they are found from the left: the pieces with the
/// separator between them make up the byte string, and in no piece, with the separator that is
/// behind it, does the separator stand before that one.
pub proof fn law_split_at_each_separator(s: Seq<u8>, sep: Seq<u8>)
    requires
        sep.len() > 0,
    ensures
        ({
            let u = split_pieces(s, sep, -1, false);
            &&& u.len() > 0
            &&& separated(sep, u) == s
            &&& forall|k: int, j: int|
                0 <= k < u.len() && 0 <= j < u[k].len() ==> !(#[trigger] stands(
                    followed(u, k, sep),
                    sep,
                    j,
                ))
        }),
{
    law_pieces_make_up(s, sep, -1, false);
    lemma_pieces_leftmost(s, sep, 0, -1);
}

proof fn lemma_separated_pieces(s: Seq<u8>, sep: Seq<u8>, p: int)
    requires
        sep.len() > 0,
        0 <= p <= s.len(),
    ensures
        separated(sep, pieces(s, sep, p, -1)) == s.skip(p),
    decreases s.len() - p,
{
    lemma_first_occurrence_from(s, sep, p);
    if let Some(i) = first_occurrence_from(s, sep, p) {
        let next = i + sep.len();
        lemma_pieces_same(s, sep, next, -1, -2);
        lemma_separated_pieces(s, sep, next);
        lemma_separated_front(sep, s.subrange(p, i), pieces(s, sep, next, -2));
        assert(s.skip(p) =~= s.subrange(p, i) + s.subrange(i, next) + s.skip(next));
    }
}

proof fn lemma_pieces_same(s: Seq<u8>, sep: Seq<u8>, p: int, m: int, n: int)
    requires
        sep.len() > 0,
        0 <= p <= s.len(),
        m <= 0,
        n <= 0,
    ensures
        pieces(s, sep, p, m) == pieces(s, sep, p, n),
    decreases s.len() - p,
{
    lemma_first_occurrence_from(s, sep, p);
    if let Some(i) = first_occurrence_from(s, sep, p) {
        lemma_pieces_same(s, sep, i + sep.len(), m - 1, n - 1);
    }
}

proof fn lemma_pieces_limited(s: Seq<u8>, sep: Seq<u8>, p: int, max: int)
    requires
        sep.len() > 0,
        0 <= p <= s.len(),
        max > 0,
    ensures
        ({
            let u = pieces(s, sep, p, -1);
            pieces(s, sep, p, max) == (if u.len() <= max + 1 {
                u
            } else {
                u.take(max).push(separated(sep, u.skip(max)))
            })
        }),
    decreases s.len() - p,
{
    let u = pieces(s, sep, p, -1);
    let t = pieces(s, sep, p, max);
    lemma_first_occurrence_from(s, sep, p);
    if let Some(i) = first_occurrence_from(s, sep, p) {
        let next = i + sep.len();
        let x = s.subrange(p, i);
        lemma_pieces_same(s, sep, next, -1, -2);
        let rest = pieces(s, sep, next, -1);
        assert(u =~= seq![x] + rest);
        if max == 1 {
            lemma_separated_pieces(s, sep, next);
            assert(t =~= seq![x, s.skip(next)]);
            if u.len() <= 2 {
                assert(rest.len() == 1);
                assert(separated(sep, rest) == rest[0]);
                assert(t =~= u);
            } else {
                assert(u.skip(1) =~= rest);
                assert(t =~= u.take(1).push(separated(sep, u.skip(1))));
            }
        } else {
            lemma_pieces_limited(s, sep, next, max - 1);
            let more = pieces(s, sep, next, max - 1);
            assert(t =~= seq![x] + more);
            if u.len() <= max + 1 {
                assert(t =~= u);
            } else {
                assert(u.skip(max) =~= rest.skip(max - 1));
                assert(t =~= u.take(max).push(separated(sep, u.skip(max))));
            }
        }
    }
}

/// A limit keeps as many of the first pieces as it says and leaves the others, with the separator
/// between them, as one last piece.
pub proof fn law_split_limited(s: Seq<u8>, sep: Seq<u8>, max: int)
    requires
        sep.len() > 0,
        max > 0,
    ensures
        ({
            let u = split_pieces(s, sep, -1, false);
            split_pieces(s, sep, max, false) == (if u.len() <= max + 1 {
                u
            } else {
                u.take(max).push(separated(sep, u.skip(max)))
            })
        }),
{
    lemma_pieces_limited(s, sep, 0, max);
}

/// The pieces that are returned are slices with these contents, in this order.
pub proof fn law_slices(v: Seq<&[u8]>, k: int)
    requires
        0 <= k < v.len(),
    ensures
        slices(v).len() == v.len(),
        slices(v)[k] == v[k]@,
{
}

} // verus!
