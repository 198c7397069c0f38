//! Laws of words: how a byte string is split where no separator is given.
use vstd::prelude::*;

use crate::find::concat;
use crate::laws::pieces::law_words;
use crate::laws::table::law_concat;
use crate::split::{
    is_separator, last_word_end, last_word_start, lemma_last_word_end, lemma_last_word_start,
    lemma_word_end, lemma_word_start, pieces, pieces_back, split_pieces, word_end, word_start,
    words, words_back,
};
use crate::search::{
    first_occurrence_from, last_occurrence_from, lemma_first_occurrence_from,
    lemma_last_occurrence_from, occurs_at,
};

verus! {

/// Whether a byte separates words: a tab, a line feed, a carriage return or a space.
pub open spec fn is_blank(b: u8) -> bool {
    b == 9 || b == 10 || b == 13 || b == 32
}

/// The pieces of a byte string without a separator and without a limit.
pub open spec fn all_words(s: Seq<u8>) -> Seq<Seq<u8>> {
    split_pieces(s, Seq::empty(), -1, false)
}

proof fn lemma_all_words(s: Seq<u8>)
    ensures
        all_words(s) == words(s, 0, 0),
{
    lemma_unlimited(s, 0, -1, 0);
    if s.len() == 0 {
        assert(words(s, 0, 0) =~= Seq::empty());
    }
}

proof fn lemma_unlimited(s: Seq<u8>, i: int, m: int, n: int)
    requires
        0 <= i <= s.len(),
        m <= 0,
        n <= 0,
    ensures
        words(s, i, m) == words(s, i, n),
    decreases s.len() - i,
{
    lemma_word_start(s, i);
    let a = word_start(s, i);
    lemma_word_end(s, a);
    if a < s.len() && word_end(s, a) < s.len() {
        lemma_unlimited(s, word_end(s, a) + 1, m - 1, n - 1);
    }
}

/// The word from a position on that a longer byte string and a shorter one share.
proof fn lemma_bounds_shift(s: Seq<u8>, i: int, j: int)
    requires
        0 <= i <= s.len(),
        0 <= j <= s.len() - i,
    ensures
        word_start(s, i + j) == i + word_start(s.skip(i), j),
        word_end(s, i + j) == i + word_end(s.skip(i), j),
    decreases s.len() - i - j,
{
    if i + j < s.len() {
        assert(s.skip(i)[j] == s[i + j]);
        lemma_bounds_shift(s, i, j + 1);
    }
}

proof fn lemma_words_shift(s: Seq<u8>, i: int, j: int, max: int)
    requires
        0 <= i <= s.len(),
        0 <= j <= s.len() - i,
    ensures
        words(s, i + j, max) == words(s.skip(i), j, max),
    decreases s.len() - i - j,
{
    let t = s.skip(i);
    lemma_bounds_shift(s, i, j);
    let a = word_start(t, j);
    lemma_word_start(t, j);
    if a < t.len() {
        lemma_bounds_shift(s, i, a);
        lemma_word_end(t, a);
        let b = word_end(t, a);
        assert(s.subrange(i + a, i + b) =~= t.subrange(a, b));
        if b < t.len() {
            assert(s.skip(i + b + 1) =~= t.skip(b + 1));
            if max != 1 {
                lemma_words_shift(s, i, b + 1, max - 1);
            }
        }
        assert(words(s, i + j, max) =~= words(t, j, max));
    }
}

/// The bounds of a word that ends before `n`, or of one that a separator at `n` ends.
proof fn lemma_bounds_prefix(s: Seq<u8>, i: int, n: int)
    requires
        0 <= i <= n <= s.len(),
    ensures
        word_start(s.take(n), i) == (if word_start(s, i) < n {
            word_start(s, i)
        } else {
            n
        }),
        word_end(s.take(n), i) == (if word_end(s, i) < n {
            word_end(s, i)
        } else {
            n
        }),
    decreases n - i,
{
    if i < n {
        assert(s.take(n)[i] == s[i]);
        lemma_bounds_prefix(s, i + 1, n);
    } else {
        lemma_word_start(s, i);
        lemma_word_end(s, i);
    }
}

/// Words before and behind a separator at `n`.
proof fn lemma_words_apart(s: Seq<u8>, i: int, n: int)
    requires
        0 <= i <= n < s.len(),
        is_separator(s[n]),
    ensures
        words(s, i, 0) == words(s.take(n), i, 0) + words(s, n + 1, 0),
    decreases n - i,
{
    let t = s.take(n);
    let a = word_start(s, i);
    let b = word_end(s, a);
    lemma_word_start(s, i);
    lemma_bounds_prefix(s, i, n);
    if a >= n {
        assert(words(t, i, 0) =~= Seq::empty());
        assert(a > n);
        assert(word_start(s, n + 1) == a) by {
            lemma_word_start(s, n + 1);
            let z = word_start(s, n + 1);
            if z < a {
                assert(is_separator(s[z]));
            }
            if a < z && a < s.len() {
                assert(is_separator(s[a]));
            }
        }
        assert(words(s, i, 0) =~= words(t, i, 0) + words(s, n + 1, 0));
    } else {
        lemma_word_end(s, a);
        lemma_bounds_prefix(s, a, n);
        assert(b <= n) by {
            if b > n {
                assert(!is_separator(s[n]));
            }
        }
        assert(t.subrange(a, b) =~= s.subrange(a, b));
        lemma_unlimited(s, b + 1, 0, -1);
        if b < n {
            lemma_words_apart(s, b + 1, n);
            lemma_unlimited(t, b + 1, 0, -1);
        }
        assert(words(s, i, 0) =~= words(t, i, 0) + words(s, n + 1, 0));
    }
}

/// Where a tab, a line feed, a carriage return or a space is between two byte strings, the words
/// are those of the first and then those of the second.
pub proof fn law_words_around_a_blank(s: Seq<u8>, b: u8, t: Seq<u8>)
    requires
        is_blank(b),
    ensures
        all_words(s + seq![b] + t) == all_words(s) + all_words(t),
{
    let all = s + seq![b] + t;
    let n = s.len() as int;
    lemma_all_words(all);
    lemma_all_words(s);
    lemma_all_words(t);
    assert(all[n] == b);
    lemma_words_apart(all, 0, n);
    assert(all.take(n) =~= s);
    assert(all.skip(n + 1) =~= t);
    lemma_words_shift(all, n + 1, 0, 0);
}

/// Some bytes without a tab, a line feed, a carriage return or a space are one word; and there is
/// no word in nothing.
pub proof fn law_word_alone(w: Seq<u8>)
    requires
        forall|j: int| 0 <= j < w.len() ==> !is_blank(#[trigger] w[j]),
    ensures
        w.len() > 0 ==> all_words(w) == seq![w],
        w.len() == 0 ==> all_words(w) == Seq::<Seq<u8>>::empty(),
{
    if w.len() > 0 {
        lemma_all_words(w);
        assert(!is_blank(w[0]));
        lemma_word_start(w, 0);
        lemma_word_end(w, 0);
        let e = word_end(w, 0);
        if e < w.len() {
            assert(is_blank(w[e]));
        }
        assert(w.subrange(0, w.len() as int) =~= w);
        assert(words(w, 0, 0) =~= seq![w]);
    }
}

/// Any negative limit is none.
pub proof fn law_negative_limit(s: Seq<u8>, sep: Seq<u8>, max: int, reverse: bool)
    requires
        max < 0,
    ensures
        split_pieces(s, sep, max, reverse) == split_pieces(s, sep, -1, reverse),
{
    lemma_unlimited(s, 0, max, -1);
    lemma_back_unlimited(s, s.len() as int, max, -1);
    lemma_pieces_unlimited(s, sep, 0, max, -1);
    lemma_pieces_back_unlimited(s, sep, s.len() as int, max, -1);
}

/// With a separator a limit of zero is none.
pub proof fn law_zero_limit_with_separator(s: Seq<u8>, sep: Seq<u8>, reverse: bool)
    requires
        sep.len() > 0,
    ensures
        split_pieces(s, sep, 0, reverse) == split_pieces(s, sep, -1, reverse),
{
    lemma_pieces_unlimited(s, sep, 0, 0, -1);
    lemma_pieces_back_unlimited(s, sep, s.len() as int, 0, -1);
}

proof fn lemma_back_unlimited(s: Seq<u8>, i: int, m: int, n: int)
    requires
        0 <= i <= s.len(),
        m <= 0,
        n <= 0,
    ensures
        words_back(s, i, m) == words_back(s, i, n),
    decreases i,
{
    let b = last_word_end(s, i);
    lemma_last_word_end(s, i);
    lemma_last_word_start(s, b);
    let a = last_word_start(s, b);
    if b > 0 && a > 0 {
        lemma_back_unlimited(s, a - 1, m - 1, n - 1);
    }
}

proof fn lemma_pieces_unlimited(s: Seq<u8>, sep: Seq<u8>, p: int, m: int, n: int)
    requires
        0 <= p <= s.len(),
        m <= 0,
        n <= 0,
    ensures
        pieces(s, sep, p, m) == pieces(s, sep, p, n),
    decreases s.len() - p,
{
    lemma_first_occurrence_from(s, sep, p);
    if let Some(i) = first_occurrence_from(s, sep, p) {
        if sep.len() > 0 {
            lemma_pieces_unlimited(s, sep, i + sep.len(), m - 1, n - 1);
        }
    }
}

proof fn lemma_pieces_back_unlimited(s: Seq<u8>, sep: Seq<u8>, p: int, m: int, n: int)
    requires
        0 <= p <= s.len(),
        m <= 0,
        n <= 0,
    ensures
        pieces_back(s, sep, p, m) == pieces_back(s, sep, p, n),
    decreases p,
{
    lemma_last_occurrence_from(s, sep, p - sep.len());
    if let Some(i) = last_occurrence_from(s, sep, p - sep.len()) {
        if sep.len() > 0 {
            lemma_pieces_back_unlimited(s, sep, i, m - 1, n - 1);
        }
    }
}

/// Where the `max`-th word from `i` on ends.
spec fn nth_word_end(s: Seq<u8>, i: int, max: int) -> int
    decreases max,
{
    let b = word_end(s, word_start(s, i));
    if max <= 1 {
        b
    } else {
        nth_word_end(s, b + 1, max - 1)
    }
}

proof fn lemma_words_limited(s: Seq<u8>, i: int, max: int)
    requires
        0 <= i <= s.len(),
        max > 0,
    ensures
        ({
            let t = words(s, i, max);
            let u = words(s, i, 0);
            let e = nth_word_end(s, i, max);
            &&& t.len() == max + 1 <==> u.len() > max || (u.len() == max && s.len() > 0
                && is_separator(s.last()))
            &&& t.len() != max + 1 ==> t == u
            &&& t.len() == max + 1 ==> {
                &&& t.take(max) == u.take(max)
                &&& i < e < s.len()
                &&& is_separator(s[e])
                &&& !is_separator(s[e - 1])
                &&& t.last() == s.skip(e + 1)
                &&& words(s.take(e), i, 0).len() == max
            }
        }),
    decreases max,
{
    let t = words(s, i, max);
    let u = words(s, i, 0);
    let a = word_start(s, i);
    let b = word_end(s, a);
    lemma_word_start(s, i);
    if a < s.len() {
        lemma_word_end(s, a);
        let w = s.subrange(a, b);
        if b < s.len() {
            lemma_unlimited(s, b + 1, 0, -1);
            let rest = words(s, b + 1, 0);
            assert(u =~= seq![w] + rest);
            if max == 1 {
                assert(t =~= seq![w, s.skip(b + 1)]);
                assert(t.take(1) =~= u.take(1));
                if rest.len() == 0 {
                    lemma_word_start(s, b + 1);
                    let z = word_start(s, b + 1);
                    assert(z >= s.len());
                    assert(is_separator(s.last()));
                }
                lemma_bounds_prefix(s, i, b);
                lemma_bounds_prefix(s, a, b);
                assert(words(s.take(b), i, 0) =~= seq![s.take(b).subrange(a, b)]);
            } else {
                lemma_words_limited(s, b + 1, max - 1);
                let more = words(s, b + 1, max - 1);
                assert(t =~= seq![w] + more);
                if t.len() == max + 1 {
                    assert(more.take(max - 1) == rest.take(max - 1));
                    assert(t.take(max) =~= seq![w] + more.take(max - 1));
                    assert(u.take(max) =~= seq![w] + rest.take(max - 1));
                    let e = nth_word_end(s, i, max);
                    lemma_bounds_prefix(s, i, e);
                    lemma_bounds_prefix(s, a, e);
                    lemma_unlimited(s.take(e), b + 1, 0, -1);
                    assert(words(s.take(e), i, 0) =~= seq![s.take(e).subrange(a, b)] + words(
                        s.take(e),
                        b + 1,
                        -1,
                    ));
                }
            }
        } else {
            assert(t =~= seq![w]);
            assert(u =~= seq![w]);
            assert(!is_separator(s[s.len() - 1]));
        }
    }
}

/// A split into words with a limit loses nothing. As long as there are no more words than the
/// limit, and nothing is behind the last one of as many, the pieces are the words. Otherwise there
/// is one piece more than the limit says: as many words, which are the first ones, and all that is
/// behind the blank that ends the last of them.
pub proof fn law_words_limited(s: Seq<u8>, max: int)
    requires
        max > 0,
    ensures
        ({
            let t = split_pieces(s, Seq::empty(), max, false);
            let u = all_words(s);
            if u.len() > max || (u.len() == max && is_blank(s.last())) {
                &&& t.len() == max + 1
                &&& t.take(max) == u.take(max)
                &&& exists|e: int|
                    0 < e < s.len() && is_blank(#[trigger] s[e]) && !is_blank(s[e - 1]) && all_words(
                        s.take(e),
                    ) == u.take(max) && t.last() == s.skip(e + 1)
            } else {
                t == u
            }
        }),
{
    if s.len() > 0 {
        lemma_all_words(s);
        lemma_words_limited(s, 0, max);
        let t = words(s, 0, max);
        let u = words(s, 0, 0);
        if t.len() == max + 1 {
            let e = nth_word_end(s, 0, max);
            law_words_around_a_blank(s.take(e), s[e], s.skip(e + 1));
            lemma_all_words(s.take(e));
            assert(s =~= s.take(e) + seq![s[e]] + s.skip(e + 1));
            assert(all_words(s.take(e)) =~= u.take(max));
            assert(is_blank(s[e]));
        }
    } else {
        assert(all_words(s).len() == 0);
    }
}

/// A limit of zero takes away the blanks at the start and splits nothing.
pub proof fn law_words_unsplit(s: Seq<u8>)
    requires
        s.len() > 0,
    ensures
        ({
            let t = split_pieces(s, Seq::empty(), 0, false);
            &&& t.len() == 1
            &&& t[0].len() <= s.len()
            &&& t[0] == s.skip(s.len() - t[0].len())
            &&& forall|j: int| 0 <= j < s.len() - t[0].len() ==> is_blank(#[trigger] s[j])
            &&& t[0].len() > 0 ==> !is_blank(t[0][0])
        }),
{
    lemma_word_start(s, 0);
}

/// The bytes that are no tab, line feed, carriage return or space.
pub open spec fn without_blanks(s: Seq<u8>) -> Seq<u8> {
    s.filter(|b: u8| !is_blank(b))
}

/// The pieces in the other order, and each of them backwards.
pub open spec fn mirrored(v: Seq<Seq<u8>>) -> Seq<Seq<u8>> {
    Seq::new(v.len(), |k: int| v[v.len() - 1 - k].reverse())
}

proof fn lemma_mirrored_front(x: Seq<u8>, v: Seq<Seq<u8>>)
    ensures
        mirrored(seq![x] + v) == mirrored(v).push(x.reverse()),
{
    assert(mirrored(seq![x] + v) =~= mirrored(v).push(x.reverse()));
}

proof fn lemma_bounds_mirror(s: Seq<u8>, i: int)
    requires
        0 <= i <= s.len(),
    ensures
        last_word_end(s, i) == s.len() - word_start(s.reverse(), s.len() - i),
        last_word_start(s, i) == s.len() - word_end(s.reverse(), s.len() - i),
    decreases i,
{
    if i > 0 {
        assert(s.reverse()[s.len() - i] == s[i - 1]);
        lemma_bounds_mirror(s, i - 1);
    }
}

proof fn lemma_words_mirror(s: Seq<u8>, i: int, max: int)
    requires
        0 <= i <= s.len(),
    ensures
        words_back(s, i, max) == mirrored(words(s.reverse(), s.len() - i, max)),
    decreases i,
{
    let r = s.reverse();
    let n = s.len() as int;
    let b = last_word_end(s, i);
    let a = last_word_start(s, b);
    let none: Seq<Seq<u8>> = Seq::empty();
    lemma_last_word_end(s, i);
    lemma_bounds_mirror(s, i);
    assert(mirrored(none) =~= none);
    if b > 0 {
        lemma_last_word_start(s, b);
        lemma_bounds_mirror(s, b);
        let w = r.subrange(n - b, n - a);
        assert(w.reverse() =~= s.subrange(a, b));
        if a <= 0 {
            lemma_mirrored_front(w, none);
            assert(s.subrange(0, b) =~= s.take(b));
            assert(words_back(s, i, max) =~= mirrored(words(r, n - i, max)));
        } else {
            let rest = if max == 1 {
                seq![r.skip(n - a + 1)]
            } else {
                words(r, n - a + 1, max - 1)
            };
            lemma_mirrored_front(w, rest);
            if max == 1 {
                lemma_mirrored_front(r.skip(n - a + 1), none);
                assert(r.skip(n - a + 1).reverse() =~= s.take(a - 1));
                assert(rest =~= seq![r.skip(n - a + 1)] + none);
                assert(mirrored(rest) =~= seq![s.take(a - 1)]);
            } else {
                lemma_words_mirror(s, a - 1, max - 1);
            }
        }
    } else {
        assert(words(r, n - i, max) =~= none);
    }
}

proof fn lemma_occurs_mirror(s: Seq<u8>, sep: Seq<u8>, i: int)
    ensures
        occurs_at(s, sep, i) == occurs_at(s.reverse(), sep.reverse(), s.len() - sep.len() - i),
{
    let n = s.len() as int;
    let m = sep.len() as int;
    let j = n - m - i;
    if 0 <= i && i + m <= n {
        let a = s.subrange(i, i + m);
        let b = s.reverse().subrange(j, j + m);
        assert(a.reverse() =~= b);
        assert(a == sep ==> b == sep.reverse());
        assert(b.reverse() =~= a);
        assert(sep.reverse().reverse() =~= sep);
    }
}

proof fn lemma_occurrence_mirror(s: Seq<u8>, sep: Seq<u8>, i: int)
    requires
        i <= s.len() - sep.len(),
    ensures
        last_occurrence_from(s, sep, i) == (match first_occurrence_from(
            s.reverse(),
            sep.reverse(),
            s.len() - sep.len() - i,
        ) {
            Some(j) => Some(s.len() - sep.len() - j),
            None => None,
        }),
    decreases i + 1,
{
    lemma_occurs_mirror(s, sep, i);
    if i >= 0 {
        lemma_occurrence_mirror(s, sep, i - 1);
    }
}

proof fn lemma_pieces_mirror(s: Seq<u8>, sep: Seq<u8>, p: int, max: int)
    requires
        0 <= p <= s.len(),
        sep.len() > 0,
    ensures
        pieces_back(s, sep, p, max) == mirrored(
            pieces(s.reverse(), sep.reverse(), s.len() - p, max),
        ),
    decreases p,
{
    let r = s.reverse();
    let back = sep.reverse();
    let n = s.len() as int;
    let m = sep.len() as int;
    let none: Seq<Seq<u8>> = Seq::empty();
    assert(mirrored(none) =~= none);
    lemma_occurrence_mirror(s, sep, p - m);
    lemma_last_occurrence_from(s, sep, p - m);
    lemma_first_occurrence_from(r, back, n - p);
    match last_occurrence_from(s, sep, p - m) {
        Some(i) => {
            let j = n - m - i;
            let x = r.subrange(n - p, j);
            assert(x.reverse() =~= s.subrange(i + m, p));
            let rest = if max == 1 {
                seq![r.skip(j + m)]
            } else {
                pieces(r, back, j + m, max - 1)
            };
            lemma_mirrored_front(x, rest);
            if max == 1 {
                lemma_mirrored_front(r.skip(j + m), none);
                assert(r.skip(j + m).reverse() =~= s.take(i));
                assert(rest =~= seq![r.skip(j + m)] + none);
                assert(mirrored(rest) =~= seq![s.take(i)]);
            } else {
                lemma_pieces_mirror(s, sep, i, max - 1);
            }
        },
        None => {
            lemma_mirrored_front(r.skip(n - p), none);
            assert(r.skip(n - p).reverse() =~= s.take(p));
            assert(seq![r.skip(n - p)] =~= seq![r.skip(n - p)] + none);
            assert(mirrored(seq![r.skip(n - p)]) =~= seq![s.take(p)]);
        },
    }
}

/// A split from the right is a split from the left of everything backwards.
pub proof fn law_split_from_the_right(s: Seq<u8>, sep: Seq<u8>, max: int)
    ensures
        split_pieces(s, sep, max, true) == mirrored(
            split_pieces(s.reverse(), sep.reverse(), max, false),
        ),
{
    let r = s.reverse();
    let n = s.len() as int;
    let none: Seq<Seq<u8>> = Seq::empty();
    if sep.len() > 0 {
        lemma_pieces_mirror(s, sep, n, max);
    } else if n == 0 {
        assert(mirrored(none) =~= none);
    } else if max == 0 {
        lemma_bounds_mirror(s, n);
        lemma_last_word_end(s, n);
        let x = r.skip(word_start(r, 0));
        lemma_mirrored_front(x, none);
        assert(x.reverse() =~= s.take(last_word_end(s, n)));
        assert(seq![x] =~= seq![x] + none);
        assert(mirrored(none) =~= none);
        assert(mirrored(seq![x]) =~= seq![s.take(last_word_end(s, n))]);
    } else {
        lemma_words_mirror(s, n, max);
    }
}

proof fn lemma_without_blanks(a: Seq<u8>, b: Seq<u8>)
    ensures
        without_blanks(a + b) == without_blanks(a) + without_blanks(b),
{
    Seq::filter_distributes_over_add(a, b, |x: u8| !is_blank(x));
}

proof fn lemma_one_without_blanks(x: u8)
    ensures
        without_blanks(seq![x]) == (if is_blank(x) {
            Seq::empty()
        } else {
            seq![x]
        }),
{
    reveal(Seq::filter);
    let kept = |x: u8| !is_blank(x);
    assert(seq![x].drop_last() =~= Seq::empty());
    assert(seq![x].drop_last().filter(kept) =~= Seq::empty());
    assert(kept(x) == !is_blank(x));
    assert(without_blanks(seq![x]) =~= if is_blank(x) {
        Seq::empty()
    } else {
        seq![x]
    });
}

proof fn lemma_all_blanks(s: Seq<u8>)
    requires
        forall|j: int| 0 <= j < s.len() ==> is_blank(#[trigger] s[j]),
    ensures
        without_blanks(s) == Seq::<u8>::empty(),
    decreases s.len(),
{
    reveal(Seq::filter);
    if s.len() > 0 {
        assert forall|j: int| 0 <= j < s.drop_last().len() implies is_blank(
            #[trigger] s.drop_last()[j],
        ) by {
            assert(s.drop_last()[j] == s[j]);
        }
        lemma_all_blanks(s.drop_last());
        assert(is_blank(s[s.len() - 1]));
    }
}

proof fn lemma_without_blanks_again(s: Seq<u8>)
    ensures
        without_blanks(without_blanks(s)) == without_blanks(s),
        without_blanks(s.reverse()) == without_blanks(s).reverse(),
    decreases s.len(),
{
    if s.len() > 0 {
        let t = s.drop_last();
        let x = s.last();
        lemma_without_blanks_again(t);
        lemma_one_without_blanks(x);
        assert(s =~= t + seq![x]);
        lemma_without_blanks(t, seq![x]);
        lemma_without_blanks(without_blanks(t), without_blanks(seq![x]));
        reveal(Seq::filter);
        assert(s.reverse() =~= seq![x] + t.reverse());
        lemma_without_blanks(seq![x], t.reverse());
        assert(without_blanks(s).reverse() =~= without_blanks(seq![x]) + without_blanks(
            t,
        ).reverse());
    } else {
        reveal(Seq::filter);
        assert(s.reverse() =~= s);
        assert(without_blanks(s) =~= s);
    }
}

proof fn lemma_concat_mirrored(v: Seq<Seq<u8>>)
    ensures
        concat(mirrored(v)) == concat(v).reverse(),
    decreases v.len(),
{
    let none: Seq<Seq<u8>> = Seq::empty();
    if v.len() > 0 {
        let u = v.drop_last();
        let x = v.last();
        lemma_concat_mirrored(u);
        assert(mirrored(v) =~= seq![x.reverse()] + mirrored(u));
        law_concat(seq![x.reverse()], mirrored(u), x.reverse());
        assert(concat(v).reverse() =~= x.reverse() + concat(u).reverse());
    } else {
        assert(mirrored(v) =~= none);
        assert(v =~= none);
        assert(concat(v).reverse() =~= concat(v));
    }
}

proof fn lemma_words_keep_bytes(s: Seq<u8>, max: int)
    ensures
        without_blanks(concat(split_pieces(s, Seq::empty(), max, false))) == without_blanks(s),
{
    let t = split_pieces(s, Seq::empty(), max, false);
    let none: Seq<Seq<u8>> = Seq::empty();
    let empty: Seq<u8> = Seq::empty();
    law_words(s, -1);
    lemma_without_blanks_again(s);
    assert((|b: u8| !is_separator(b)) =~= (|b: u8| !is_blank(b)));
    assert(without_blanks(concat(all_words(s))) == without_blanks(s));
    if max < 0 {
        law_negative_limit(s, empty, max, false);
    } else if s.len() > 0 && max == 0 {
        law_words_unsplit(s);
        let k = s.len() - t[0].len();
        law_concat(none, none, t[0]);
        assert(t =~= seq![t[0]]);
        assert(s =~= s.take(k) + t[0]);
        lemma_without_blanks(s.take(k), t[0]);
        assert forall|j: int| 0 <= j < k implies is_blank(#[trigger] s.take(k)[j]) by {
            assert(s.take(k)[j] == s[j]);
        }
        lemma_all_blanks(s.take(k));
        assert(without_blanks(s) =~= without_blanks(t[0]));
    } else if s.len() > 0 {
        law_words_limited(s, max);
        let u = all_words(s);
        if u.len() > max || (u.len() == max && is_blank(s.last())) {
            let e = choose|e: int|
                0 < e < s.len() && is_blank(#[trigger] s[e]) && !is_blank(s[e - 1]) && all_words(
                    s.take(e),
                ) == u.take(max) && t.last() == s.skip(e + 1);
            let front = s.take(e);
            let rest = s.skip(e + 1);
            assert(t =~= t.take(max) + seq![rest]);
            law_concat(t.take(max), seq![rest], rest);
            law_words(front, -1);
            lemma_without_blanks_again(front);
            lemma_without_blanks(concat(t.take(max)), rest);
            lemma_without_blanks(front, seq![s[e]] + rest);
            lemma_without_blanks(seq![s[e]], rest);
            lemma_one_without_blanks(s[e]);
            assert(s =~= front + (seq![s[e]] + rest));
            assert(without_blanks(s) =~= without_blanks(front) + without_blanks(rest));
        }
    }
}

/// No split into words loses a byte but blanks, or changes the order, with any limit and from
/// either side.
pub proof fn law_words_keep_bytes(s: Seq<u8>, max: int, reverse: bool)
    ensures
        without_blanks(concat(split_pieces(s, Seq::empty(), max, reverse))) == without_blanks(s),
{
    lemma_words_keep_bytes(s, max);
    if reverse {
        let empty: Seq<u8> = Seq::empty();
        let t = split_pieces(s.reverse(), empty, max, false);
        assert(empty.reverse() =~= empty);
        law_split_from_the_right(s, empty, max);
        lemma_words_keep_bytes(s.reverse(), max);
        lemma_concat_mirrored(t);
        lemma_without_blanks_again(concat(t));
        lemma_without_blanks_again(s);
        assert(without_blanks(s).reverse().reverse() =~= without_blanks(s));
    }
}

} // verus!
