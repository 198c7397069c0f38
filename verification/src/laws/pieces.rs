//! Laws of splitting and joining.
use vstd::prelude::*;

use crate::find::concat;
use crate::lines::{break_len, is_line_break, lemma_line_end, line_end, lines};
use crate::search::{
    first_occurrence_from, last_occurrence_from, lemma_first_occurrence_from,
    lemma_last_occurrence_from, occurs, occurs_at,
};
use crate::split::{
    is_separator, last_word_end, last_word_start, lemma_last_word_end, lemma_last_word_start,
    lemma_word_end, lemma_word_start, pieces, pieces_back, split_pieces, word_end, word_start,
    words, words_back,
};
use crate::text::{CARRIAGE_RETURN, LINE_FEED};
use crate::transform::joined;

verus! {

/// The parts with `sep` between each two of them.
pub open spec fn separated(sep: Seq<u8>, parts: Seq<Seq<u8>>) -> Seq<u8>
    decreases parts.len(),
{
    if parts.len() == 0 {
        Seq::empty()
    } else if parts.len() == 1 {
        parts[0]
    } else {
        separated(sep, parts.drop_last()) + sep + parts.last()
    }
}

pub(crate) proof fn lemma_separated_front(sep: Seq<u8>, x: Seq<u8>, rest: Seq<Seq<u8>>)
    requires
        rest.len() > 0,
    ensures
        separated(sep, seq![x] + rest) == x + sep + separated(sep, rest),
    decreases rest.len(),
{
    let all = seq![x] + rest;
    assert(all.drop_last() =~= seq![x] + rest.drop_last());
    if rest.len() == 1 {
        assert(all.drop_last() =~= seq![x]);
        assert(separated(sep, seq![x]) == x);
    } else {
        lemma_separated_front(sep, x, rest.drop_last());
        assert(separated(sep, all) =~= x + sep + separated(sep, rest));
    }
}

/// Joining puts the separator between each two parts where the first part is not empty, and
/// where there is only one part.
pub proof fn law_join_separates(sep: Seq<u8>, parts: Seq<Seq<u8>>)
    requires
        parts.len() <= 1 || parts[0].len() > 0,
    ensures
        joined(sep, parts) == separated(sep, parts),
    decreases parts.len(),
{
    if parts.len() > 0 {
        law_join_separates(sep, parts.drop_last());
        if parts.len() > 1 {
            assert(joined(sep, parts.drop_last()).len() > 0) by {
                lemma_separated_len(sep, parts.drop_last());
            }
        }
    }
}

proof fn lemma_separated_len(sep: Seq<u8>, parts: Seq<Seq<u8>>)
    requires
        parts.len() > 0,
    ensures
        separated(sep, parts).len() >= parts[0].len(),
    decreases parts.len(),
{
    if parts.len() > 1 {
        lemma_separated_len(sep, parts.drop_last());
    }
}

/// Without a separator between them the parts are joined one after the other.
pub proof fn law_join_without_separator(parts: Seq<Seq<u8>>)
    ensures
        joined(Seq::empty(), parts) == concat(parts),
    decreases parts.len(),
{
    if parts.len() > 0 {
        law_join_without_separator(parts.drop_last());
        let before = joined(Seq::empty(), parts.drop_last());
        assert(before + Seq::empty() + parts.last() =~= before + parts.last());
        assert(before.len() == 0 ==> before + parts.last() =~= parts.last());
    }
}

proof fn lemma_pieces_make_up(s: Seq<u8>, sep: Seq<u8>, p: int, max: int)
    requires
        sep.len() > 0,
        0 <= p <= s.len(),
    ensures
        pieces(s, sep, p, max).len() > 0,
        separated(sep, pieces(s, sep, p, max)) == s.skip(p),
    decreases s.len() - p,
{
    lemma_first_occurrence_from(s, sep, p);
    if let Some(i) = first_occurrence_from(s, sep, p) {
        let next = i + sep.len();
        let rest = if max == 1 {
            seq![s.skip(next)]
        } else {
            pieces(s, sep, next, max - 1)
        };
        if max != 1 {
            lemma_pieces_make_up(s, sep, next, max - 1);
        }
        lemma_separated_front(sep, s.subrange(p, i), rest);
        assert(s.skip(p) =~= s.subrange(p, i) + s.subrange(i, next) + s.skip(next));
    }
}

proof fn lemma_pieces_back_make_up(s: Seq<u8>, sep: Seq<u8>, p: int, max: int)
    requires
        sep.len() > 0,
        0 <= p <= s.len(),
    ensures
        pieces_back(s, sep, p, max).len() > 0,
        separated(sep, pieces_back(s, sep, p, max)) == s.take(p),
    decreases p,
{
    lemma_last_occurrence_from(s, sep, p - sep.len());
    if let Some(i) = last_occurrence_from(s, sep, p - sep.len()) {
        let rest = if max == 1 {
            seq![s.take(i)]
        } else {
            pieces_back(s, sep, i, max - 1)
        };
        if max != 1 {
            lemma_pieces_back_make_up(s, sep, i, max - 1);
        }
        let x = s.subrange(i + sep.len(), p);
        assert(rest.push(x).drop_last() =~= rest);
        assert(separated(sep, seq![s.take(i)]) == s.take(i));
        assert(s.take(p) =~= s.take(i) + s.subrange(i, i + sep.len()) + x);
    }
}

/// The pieces of a split by a separator, with the separator between each two of them, make up the
/// byte string, from either side and with any limit.
pub proof fn law_pieces_make_up(s: Seq<u8>, sep: Seq<u8>, max: int, reverse: bool)
    requires
        sep.len() > 0,
    ensures
        split_pieces(s, sep, max, reverse).len() > 0,
        separated(sep, split_pieces(s, sep, max, reverse)) == s,
{
    lemma_pieces_make_up(s, sep, 0, max);
    lemma_pieces_back_make_up(s, sep, s.len() as int, max);
    assert(s.skip(0) =~= s);
    assert(s.take(s.len() as int) =~= s);
}

/// Joining the pieces of a split with the separator gives back the byte string, from either side
/// and with any limit, unless it is split at its very start.
pub proof fn law_join_after_split(s: Seq<u8>, sep: Seq<u8>, max: int, reverse: bool)
    requires
        sep.len() > 0,
        split_pieces(s, sep, max, reverse).len() == 1 || split_pieces(s, sep, max, reverse)[0].len()
            > 0,
    ensures
        joined(sep, split_pieces(s, sep, max, reverse)) == s,
{
    law_pieces_make_up(s, sep, max, reverse);
    law_join_separates(sep, split_pieces(s, sep, max, reverse));
}

proof fn lemma_pieces_apart(s: Seq<u8>, sep: Seq<u8>, p: int, max: int)
    requires
        sep.len() > 0,
        0 <= p <= s.len(),
        max <= 0,
    ensures
        forall|k: int|
            0 <= k < pieces(s, sep, p, max).len() ==> !occurs(
                #[trigger] pieces(s, sep, p, max)[k],
                sep,
            ),
    decreases s.len() - p,
{
    lemma_first_occurrence_from(s, sep, p);
    let all = pieces(s, sep, p, max);
    let first = match first_occurrence_from(s, sep, p) {
        Some(i) => s.subrange(p, i),
        None => s.skip(p),
    };
    if occurs(first, sep) {
        let k = choose|k: int| occurs_at(first, sep, k);
        assert(s.subrange(p + k, p + k + sep.len()) =~= first.subrange(k, k + sep.len()));
        assert(occurs_at(s, sep, p + k));
    }
    if let Some(i) = first_occurrence_from(s, sep, p) {
        lemma_pieces_apart(s, sep, i + sep.len(), max - 1);
        let rest = pieces(s, sep, i + sep.len(), max - 1);
        assert forall|k: int| 0 <= k < all.len() implies !occurs(#[trigger] all[k], sep) by {
            if k > 0 {
                assert(all[k] == rest[k - 1]);
            }
        }
    }
}

proof fn lemma_pieces_back_apart(s: Seq<u8>, sep: Seq<u8>, p: int, max: int)
    requires
        sep.len() > 0,
        0 <= p <= s.len(),
        max <= 0,
    ensures
        forall|k: int|
            0 <= k < pieces_back(s, sep, p, max).len() ==> !occurs(
                #[trigger] pieces_back(s, sep, p, max)[k],
                sep,
            ),
    decreases p,
{
    lemma_last_occurrence_from(s, sep, p - sep.len());
    let all = pieces_back(s, sep, p, max);
    let (from, last) = match last_occurrence_from(s, sep, p - sep.len()) {
        Some(i) => (i + sep.len(), s.subrange(i + sep.len(), p)),
        None => (0, s.take(p)),
    };
    if occurs(last, sep) {
        let k = choose|k: int| occurs_at(last, sep, k);
        assert(s.subrange(from + k, from + k + sep.len()) =~= last.subrange(k, k + sep.len()));
        assert(occurs_at(s, sep, from + k));
    }
    if let Some(i) = last_occurrence_from(s, sep, p - sep.len()) {
        lemma_pieces_back_apart(s, sep, i, max - 1);
        let rest = pieces_back(s, sep, i, max - 1);
        assert forall|k: int| 0 <= k < all.len() implies !occurs(#[trigger] all[k], sep) by {
            if k < rest.len() {
                assert(all[k] == rest[k]);
            }
        }
    }
}

/// Without a limit no piece of a split by a separator contains the separator.
pub proof fn law_pieces_hold_no_separator(s: Seq<u8>, sep: Seq<u8>, max: int, reverse: bool)
    requires
        sep.len() > 0,
        max <= 0,
    ensures
        forall|k: int|
            0 <= k < split_pieces(s, sep, max, reverse).len() ==> !occurs(
                #[trigger] split_pieces(s, sep, max, reverse)[k],
                sep,
            ),
{
    lemma_pieces_apart(s, sep, 0, max);
    lemma_pieces_back_apart(s, sep, s.len() as int, max);
}

proof fn lemma_pieces_limit(s: Seq<u8>, sep: Seq<u8>, p: int, max: int)
    requires
        max > 0,
    ensures
        pieces(s, sep, p, max).len() <= max + 1,
        pieces_back(s, sep, p, max).len() <= max + 1,
        words(s, p, max).len() <= max + 1,
        words_back(s, p, max).len() <= max + 1,
    decreases max,
{
    if max > 1 {
        if let Some(i) = first_occurrence_from(s, sep, p) {
            lemma_pieces_limit(s, sep, i + sep.len(), max - 1);
        }
        if let Some(i) = last_occurrence_from(s, sep, p - sep.len()) {
            lemma_pieces_limit(s, sep, i, max - 1);
        }
        lemma_pieces_limit(s, sep, word_end(s, word_start(s, p)) + 1, max - 1);
        lemma_pieces_limit(s, sep, last_word_start(s, last_word_end(s, p)) - 1, max - 1);
    }
}

/// A limit allows one piece more than it says.
pub proof fn law_split_limit(s: Seq<u8>, sep: Seq<u8>, max: int, reverse: bool)
    requires
        max > 0,
    ensures
        split_pieces(s, sep, max, reverse).len() <= max + 1,
{
    lemma_pieces_limit(s, sep, 0, max);
    lemma_pieces_limit(s, sep, s.len() as int, max);
}

proof fn lemma_concat_front(x: Seq<u8>, rest: Seq<Seq<u8>>)
    ensures
        concat(seq![x] + rest) == x + concat(rest),
    decreases rest.len(),
{
    let all = seq![x] + rest;
    if rest.len() == 0 {
        assert(concat(all.drop_last()) =~= Seq::empty());
        assert(concat(all) =~= x + concat(rest));
    } else {
        assert(all.drop_last() =~= seq![x] + rest.drop_last());
        lemma_concat_front(x, rest.drop_last());
        assert(concat(all) =~= x + concat(rest));
    }
}

/// Whether a piece is a word: some bytes, none of which separates words.
pub open spec fn is_word(piece: Seq<u8>) -> bool {
    piece.len() > 0 && forall|j: int| 0 <= j < piece.len() ==> !is_separator(#[trigger] piece[j])
}

/// The bytes of `s` that are in words.
pub open spec fn word_bytes(s: Seq<u8>) -> Seq<u8> {
    s.filter(|b: u8| !is_separator(b))
}

proof fn lemma_word_bytes_none(s: Seq<u8>)
    requires
        forall|j: int| 0 <= j < s.len() ==> is_separator(s[j]),
    ensures
        word_bytes(s) == Seq::<u8>::empty(),
    decreases s.len(),
{
    reveal(Seq::filter);
    if s.len() > 0 {
        lemma_word_bytes_none(s.drop_last());
    }
}

proof fn lemma_word_bytes_all(s: Seq<u8>)
    requires
        forall|j: int| 0 <= j < s.len() ==> !is_separator(s[j]),
    ensures
        word_bytes(s) == s,
    decreases s.len(),
{
    reveal(Seq::filter);
    if s.len() > 0 {
        lemma_word_bytes_all(s.drop_last());
    }
}

proof fn lemma_words(s: Seq<u8>, i: int, max: int)
    requires
        0 <= i <= s.len(),
        max <= 0,
    ensures
        forall|k: int| 0 <= k < words(s, i, max).len() ==> is_word(#[trigger] words(s, i, max)[k]),
        concat(words(s, i, max)) == word_bytes(s.skip(i)),
    decreases s.len() - i,
{
    let a = word_start(s, i);
    let b = word_end(s, a);
    let kept = |b: u8| !is_separator(b);
    lemma_word_start(s, i);
    lemma_word_bytes_none(s.subrange(i, a));
    if a >= s.len() {
        assert(s.skip(i) =~= s.subrange(i, a));
    } else {
        lemma_word_end(s, a);
        let word = s.subrange(a, b);
        assert(s.skip(i) =~= s.subrange(i, a) + word + s.skip(b));
        let all = words(s, i, max);
        let rest = if b >= s.len() {
            Seq::empty()
        } else {
            words(s, b + 1, max - 1)
        };
        lemma_word_bytes_all(word);
        if b < s.len() {
            lemma_words(s, b + 1, max - 1);
            lemma_word_bytes_none(s.subrange(b, b + 1));
            Seq::filter_distributes_over_add(s.subrange(b, b + 1), s.skip(b + 1), kept);
            assert(s.skip(b) =~= s.subrange(b, b + 1) + s.skip(b + 1));
            assert(word_bytes(s.skip(b)) =~= word_bytes(s.skip(b + 1)));
        } else {
            lemma_word_bytes_none(s.skip(b));
        }
        Seq::filter_distributes_over_add(s.subrange(i, a), word, kept);
        Seq::filter_distributes_over_add(s.subrange(i, a) + word, s.skip(b), kept);
        lemma_concat_front(word, rest);
        assert(concat(all) =~= word_bytes(s.skip(i)));
        assert forall|k: int| 0 <= k < all.len() implies is_word(#[trigger] all[k]) by {
            if k > 0 {
                assert(all[k] == rest[k - 1]);
            }
        }
    }
}

/// Without a separator and without a limit the pieces of a split from the left are words, and
/// together they are all bytes that do not separate words, in order.
pub proof fn law_words(s: Seq<u8>, max: int)
    requires
        max < 0,
    ensures
        forall|k: int|
            0 <= k < split_pieces(s, Seq::empty(), max, false).len() ==> is_word(
                #[trigger] split_pieces(s, Seq::empty(), max, false)[k],
            ),
        concat(split_pieces(s, Seq::empty(), max, false)) == word_bytes(s),
{
    if s.len() == 0 {
        lemma_word_bytes_none(s);
    } else {
        lemma_words(s, 0, max);
        assert(s.skip(0) =~= s);
    }
}

proof fn lemma_words_unlimited(s: Seq<u8>, i: int, m: int, n: int)
    requires
        0 <= i <= s.len(),
        m <= 0,
        n <= 0,
    ensures
        words(s, i, m) == words(s, i, n),
    decreases s.len() - i,
{
    lemma_word_start(s, i);
    let a = word_start(s, i);
    lemma_word_end(s, a);
    if a < s.len() && word_end(s, a) < s.len() {
        lemma_words_unlimited(s, word_end(s, a) + 1, m - 1, n - 1);
    }
}

proof fn lemma_words_in_front(s: Seq<u8>, j: int, i: int, a: int, b: int)
    requires
        0 <= j <= a < b <= i <= s.len(),
        a > 0 ==> is_separator(s[a - 1]),
        forall|k: int| a <= k < b ==> !is_separator(s[k]),
        forall|k: int| b <= k < i ==> is_separator(s[k]),
    ensures
        words(s.take(i), j, 0) == words(s.take(a), j, 0).push(s.subrange(a, b)),
    decreases a - j,
{
    let t = s.take(i);
    let u = s.take(a);
    let x = word_start(t, j);
    let y = word_end(t, x);
    lemma_word_start(t, j);
    lemma_word_start(u, j);
    assert(t[a] == s[a]);
    assert(x <= a) by {
        if x > a {
            assert(is_separator(t[a]));
        }
    }
    lemma_word_end(t, x);
    if x == a {
        assert(word_start(u, j) == a) by {
            let z = word_start(u, j);
            if z < a {
                assert(u[z] == t[z]);
                assert(is_separator(t[z]));
            }
        }
        assert(y == b) by {
            if y < b {
                assert(t[y] == s[y]);
            }
            if y > b {
                assert(t[b] == s[b]);
            }
        }
        assert(t.subrange(a, b) =~= s.subrange(a, b));
        if b < i {
            lemma_word_start(t, b + 1);
            let z = word_start(t, b + 1);
            assert(z == i) by {
                if z < i {
                    assert(t[z] == s[z]);
                }
            }
            assert(words(t, b + 1, -1) =~= Seq::empty());
        }
        assert(words(u, j, 0) =~= Seq::empty());
        assert(words(t, j, 0) =~= seq![s.subrange(a, b)]);
    } else {
        assert(word_start(u, j) == x) by {
            let z = word_start(u, j);
            if z < x {
                assert(u[z] == t[z]);
                assert(is_separator(t[z]));
            }
            if x < z {
                assert(u[x] == t[x]);
                assert(is_separator(u[x]));
            }
        }
        lemma_word_end(u, x);
        assert(t[a - 1] == s[a - 1]);
        assert(y <= a - 1) by {
            if y > a - 1 {
                assert(!is_separator(t[a - 1]));
            }
        }
        assert(word_end(u, x) == y) by {
            let z = word_end(u, x);
            if z < y {
                assert(u[z] == t[z]);
                assert(!is_separator(t[z]));
            }
            if y < z {
                assert(u[y] == t[y]);
                assert(!is_separator(u[y]));
            }
        }
        lemma_words_in_front(s, y + 1, i, a, b);
        lemma_words_unlimited(t, y + 1, 0, -1);
        lemma_words_unlimited(u, y + 1, 0, -1);
        assert(t.subrange(x, y) =~= u.subrange(x, y));
        assert(words(t, j, 0) =~= words(u, j, 0).push(s.subrange(a, b)));
    }
}

/// Separators at the end give no word.
proof fn lemma_words_no_more(s: Seq<u8>, j: int, i: int)
    requires
        0 <= j <= i < s.len(),
        is_separator(s[i]),
    ensures
        words(s.take(i + 1), j, 0) == words(s.take(i), j, 0),
    decreases i - j,
{
    let t = s.take(i + 1);
    let u = s.take(i);
    lemma_word_start(t, j);
    lemma_word_start(u, j);
    let x = word_start(u, j);
    assert(t[i] == s[i]);
    if x == i {
        let z = word_start(t, j);
        assert(z == i + 1) by {
            if z < i {
                assert(u[z] == t[z]);
                assert(is_separator(u[z]));
            }
        }
    } else {
        assert(word_start(t, j) == x) by {
            let z = word_start(t, j);
            assert(u[x] == t[x]);
            if z < x {
                assert(u[z] == t[z]);
                assert(is_separator(u[z]));
            }
            if x < z {
                assert(is_separator(t[x]));
            }
        }
        lemma_word_end(t, x);
        lemma_word_end(u, x);
        let y = word_end(u, x);
        let z = word_end(t, x);
        assert(z == y) by {
            if z < y {
                assert(u[z] == t[z]);
                assert(!is_separator(u[z]));
            }
            if y < z {
                if y < i {
                    assert(u[y] == t[y]);
                }
                assert(!is_separator(t[y]));
            }
        }
        assert(t.subrange(x, y) =~= u.subrange(x, y));
        if y == i {
            assert(words(t, i + 1, -1) =~= Seq::empty());
        } else {
            lemma_words_no_more(s, y + 1, i);
            lemma_words_unlimited(t, y + 1, 0, -1);
            lemma_words_unlimited(u, y + 1, 0, -1);
        }
        assert(words(t, j, 0) =~= words(u, j, 0));
    }
}

proof fn lemma_words_back(s: Seq<u8>, i: int, max: int)
    requires
        0 <= i <= s.len(),
        max <= 0,
    ensures
        words_back(s, i, max) == words(s.take(i), 0, 0),
    decreases i,
{
    let b = last_word_end(s, i);
    let a = last_word_start(s, b);
    lemma_last_word_end(s, i);
    lemma_last_word_start(s, b);
    if b <= 0 {
        lemma_word_start(s.take(i), 0);
        let z = word_start(s.take(i), 0);
        assert(z == i) by {
            if z < i {
                assert(s.take(i)[z] == s[z]);
            }
        }
        assert(words(s.take(i), 0, 0) =~= Seq::empty());
    } else {
        lemma_words_in_front(s, 0, i, a, b);
        if a <= 0 {
            assert(words(s.take(0), 0, 0) =~= Seq::empty());
            assert(s.subrange(0, b) =~= s.take(b));
            assert(words_back(s, i, max) =~= words(s.take(i), 0, 0));
        } else {
            lemma_words_no_more(s, 0, a - 1);
            lemma_words_back(s, a - 1, max - 1);
        }
    }
}

/// Without a separator and without a limit a split from the right gives the same words as one
/// from the left.
pub proof fn law_words_from_the_right(s: Seq<u8>, max: int)
    requires
        max < 0,
    ensures
        split_pieces(s, Seq::empty(), max, true) == split_pieces(s, Seq::empty(), max, false),
{
    if s.len() > 0 {
        lemma_words_back(s, s.len() as int, max);
        assert(s.take(s.len() as int) =~= s);
        lemma_words_unlimited(s, 0, 0, max);
    }
}

proof fn lemma_lines_make_up(s: Seq<u8>, i: int)
    requires
        0 <= i <= s.len(),
    ensures
        concat(lines(s, i, true)) == s.skip(i),
    decreases s.len() - i,
{
    let all = lines(s, i, true);
    if i < s.len() {
        let j = line_end(s, i);
        lemma_line_end(s, i);
        if j >= s.len() {
            assert(all =~= seq![s.skip(i)] + Seq::empty());
            lemma_concat_front(s.skip(i), Seq::empty());
            assert(concat(all) =~= s.skip(i));
        } else {
            let next = j + break_len(s, j);
            lemma_lines_make_up(s, next);
            lemma_concat_front(s.subrange(i, next), lines(s, next, true));
            assert(s.skip(i) =~= s.subrange(i, next) + s.skip(next));
        }
    } else {
        assert(concat(all) =~= s.skip(i));
    }
}

/// Whether `full` is the line `line` with what ends it: a line feed, a carriage return, a carriage
/// return and a line feed, or, at the end of the byte string, nothing.
pub open spec fn is_line_with_end(line: Seq<u8>, full: Seq<u8>, last: bool) -> bool {
    &&& line.len() <= full.len() <= line.len() + 2
    &&& full.take(line.len() as int) == line
    &&& forall|j: int| 0 <= j < line.len() ==> !is_line_break(#[trigger] line[j])
    &&& forall|j: int| line.len() <= j < full.len() ==> is_line_break(#[trigger] full[j])
    &&& full.len() == line.len() ==> last
    &&& full.len() == line.len() + 2 ==> full[line.len() as int] == CARRIAGE_RETURN && full.last()
        == LINE_FEED
}

proof fn lemma_lines_pair(s: Seq<u8>, i: int)
    requires
        0 <= i <= s.len(),
    ensures
        ({
            let bare = lines(s, i, false);
            let full = lines(s, i, true);
            &&& bare.len() == full.len()
            &&& forall|k: int|
                0 <= k < bare.len() ==> is_line_with_end(
                    #[trigger] bare[k],
                    full[k],
                    k == bare.len() - 1,
                )
        }),
    decreases s.len() - i,
{
    let bare = lines(s, i, false);
    let full = lines(s, i, true);
    if i < s.len() {
        let j = line_end(s, i);
        lemma_line_end(s, i);
        if j >= s.len() {
            assert(bare[0] =~= full[0].take(bare[0].len() as int));
        } else {
            let next = j + break_len(s, j);
            lemma_lines_pair(s, next);
            let rest = lines(s, next, false);
            let rest_full = lines(s, next, true);
            assert(bare[0] =~= full[0].take(bare[0].len() as int));
            assert forall|k: int| 0 <= k < bare.len() implies is_line_with_end(
                #[trigger] bare[k],
                full[k],
                k == bare.len() - 1,
            ) by {
                if k > 0 {
                    assert(bare[k] == rest[k - 1] && full[k] == rest_full[k - 1]);
                }
            }
        }
    }
}

/// The lines with what ends them make up the byte string. Without what ends them they are as many,
/// and the same but for the line breaks, of which they hold none.
pub proof fn law_lines(s: Seq<u8>)
    ensures
        concat(lines(s, 0, true)) == s,
        lines(s, 0, false).len() == lines(s, 0, true).len(),
        forall|k: int|
            0 <= k < lines(s, 0, false).len() ==> is_line_with_end(
                #[trigger] lines(s, 0, false)[k],
                lines(s, 0, true)[k],
                k == lines(s, 0, false).len() - 1,
            ),
{
    lemma_lines_make_up(s, 0);
    lemma_lines_pair(s, 0);
    assert(s.skip(0) =~= s);
}

} // verus!
