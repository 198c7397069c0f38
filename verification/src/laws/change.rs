//! Laws of repeating, replacing, padding and stripping.
use vstd::prelude::*;

use crate::bstring::{is_trimmed_end, is_trimmed_start};
use crate::laws::pieces::separated;
use crate::laws::text::is_ascii;
use crate::options::{identity_table, missing};
use crate::padding::{centered, fill, is_sign, left_share, zero_filled};
use crate::search::{
    first_occurrence_from, lemma_first_occurrence_from, occurs, occurs_at,
};
use crate::split::pieces;
use crate::transform::{
    first_position, lemma_repeated_len, mapped, repeated, replaced, translated, translation,
};

verus! {

/// Repeating a byte string first some times and then some more times is repeating it as often as
/// both together, and the length grows with the number of times.
pub proof fn law_repeat(s: Seq<u8>, m: int, n: int)
    requires
        0 <= m,
        0 <= n,
    ensures
        repeated(s, m + n) == repeated(s, m) + repeated(s, n),
        repeated(s, n).len() == n * s.len(),
        repeated(s, 1) == s,
    decreases n,
{
    lemma_repeated_len(s, n);
    assert(repeated(s, 0) =~= Seq::empty());
    assert(repeated(s, 1) =~= s);
    if n > 0 {
        law_repeat(s, m, n - 1);
        assert(repeated(s, m + n) =~= repeated(s, m) + repeated(s, n));
    } else {
        assert(repeated(s, m + n) =~= repeated(s, m) + repeated(s, n));
    }
}

/// Repeating what was repeated.
pub proof fn law_repeat_twice(s: Seq<u8>, m: int, n: int)
    requires
        0 <= m,
        0 <= n,
    ensures
        repeated(repeated(s, m), n) == repeated(s, m * n),
    decreases n,
{
    if n > 0 {
        law_repeat_twice(s, m, n - 1);
        assert(m * n == m * (n - 1) + m && 0 <= m * (n - 1)) by (nonlinear_arith)
            requires
                n > 0,
                m >= 0,
        ;
        law_repeat(s, m * (n - 1), m);
    } else {
        assert(m * n == 0) by (nonlinear_arith)
            requires
                n == 0,
        ;
    }
}

proof fn lemma_replaced_step(s: Seq<u8>, find: Seq<u8>, new: Seq<u8>, p: int, count: int)
    requires
        0 <= p <= s.len(),
        find.len() > 0,
        count > 0,
    ensures
        match first_occurrence_from(s, find, p) {
            Some(i) => replaced(s, find, new, p, count) == s.subrange(p, i) + new + replaced(
                s,
                find,
                new,
                i + find.len(),
                count - 1,
            ),
            None => replaced(s, find, new, p, count) == s.skip(p),
        },
    decreases s.len() - p,
{
    if p + find.len() <= s.len() {
        if occurs_at(s, find, p) {
            assert(s.subrange(p, p) =~= Seq::empty());
            assert(Seq::empty() + new =~= new);
        } else {
            lemma_replaced_step(s, find, new, p + 1, count);
            lemma_first_occurrence_from(s, find, p + 1);
            match first_occurrence_from(s, find, p) {
                Some(i) => {
                    assert(seq![s[p]] + s.subrange(p + 1, i) =~= s.subrange(p, i));
                    let rest = replaced(s, find, new, i + find.len(), count - 1);
                    assert(seq![s[p]] + (s.subrange(p + 1, i) + new + rest) =~= s.subrange(p, i)
                        + new + rest);
                },
                None => {
                    assert(seq![s[p]] + s.skip(p + 1) =~= s.skip(p));
                },
            }
        }
    }
}

proof fn lemma_replace_pieces(s: Seq<u8>, find: Seq<u8>, new: Seq<u8>, p: int, count: int)
    requires
        0 <= p <= s.len(),
        find.len() > 0,
        count > 0,
    ensures
        pieces(s, find, p, count).len() > 0,
        replaced(s, find, new, p, count) == separated(new, pieces(s, find, p, count)),
    decreases s.len() - p,
{
    lemma_replaced_step(s, find, new, p, count);
    lemma_first_occurrence_from(s, find, p);
    match first_occurrence_from(s, find, p) {
        Some(i) => {
            let next = i + find.len();
            let rest = if count == 1 {
                seq![s.skip(next)]
            } else {
                pieces(s, find, next, count - 1)
            };
            if count > 1 {
                lemma_replace_pieces(s, find, new, next, count - 1);
            } else {
                assert(separated(new, rest) == s.skip(next));
            }
            crate::laws::pieces::lemma_separated_front(new, s.subrange(p, i), rest);
        },
        None => {
            assert(separated(new, seq![s.skip(p)]) == s.skip(p));
        },
    }
}

/// Replacing a byte string a number of times is splitting by it as often, and putting the new byte
/// string between the pieces.
pub proof fn law_replace_between_pieces(s: Seq<u8>, find: Seq<u8>, new: Seq<u8>, count: int)
    requires
        find.len() > 0,
        count > 0,
    ensures
        replaced(s, find, new, 0, count) == separated(new, pieces(s, find, 0, count)),
{
    lemma_replace_pieces(s, find, new, 0, count);
}

proof fn lemma_enough_pieces(s: Seq<u8>, sep: Seq<u8>, p: int, m: int, n: int)
    requires
        0 <= p <= s.len(),
        sep.len() > 0,
        m >= s.len() - p,
        n <= 0,
    ensures
        pieces(s, sep, p, m) == pieces(s, sep, p, n),
    decreases s.len() - p,
{
    lemma_first_occurrence_from(s, sep, p);
    if let Some(i) = first_occurrence_from(s, sep, p) {
        let next = i + sep.len();
        lemma_enough_pieces(s, sep, next, m - 1, n - 1);
        if m == 1 {
            lemma_first_occurrence_from(s, sep, next);
        }
    }
}

/// With a count that is not below the length every occurrence is replaced, as it is found from the
/// left.
pub proof fn law_replace_all(s: Seq<u8>, find: Seq<u8>, new: Seq<u8>, count: int)
    requires
        find.len() > 0,
        count >= s.len(),
    ensures
        replaced(s, find, new, 0, count) == separated(new, pieces(s, find, 0, -1)),
{
    if count > 0 {
        lemma_replace_pieces(s, find, new, 0, count);
        lemma_enough_pieces(s, find, 0, count, -1);
    } else {
        lemma_first_occurrence_from(s, find, 0);
        assert(s.skip(0) =~= s);
        assert(separated(new, seq![s.skip(0)]) == s.skip(0));
    }
}

proof fn lemma_replace_same(s: Seq<u8>, find: Seq<u8>, i: int, count: int)
    requires
        0 <= i <= s.len(),
        find.len() > 0,
    ensures
        replaced(s, find, find, i, count) == s.skip(i),
    decreases s.len() - i, count,
{
    if count > 0 && i + find.len() <= s.len() {
        if occurs_at(s, find, i) {
            lemma_replace_same(s, find, i + find.len(), count - 1);
            assert(s.skip(i) =~= s.subrange(i, i + find.len()) + s.skip(i + find.len()));
        } else {
            lemma_replace_same(s, find, i + 1, count);
            assert(s.skip(i) =~= seq![s[i]] + s.skip(i + 1));
        }
    }
}

/// Replacing changes nothing where the count is zero, where the byte string does not contain what
/// is to be replaced, and where that is replaced by itself.
pub proof fn law_replace_nothing(s: Seq<u8>, find: Seq<u8>, new: Seq<u8>, count: int)
    requires
        count >= 0,
    ensures
        count == 0 ==> replaced(s, find, new, 0, count) == s,
        !occurs(s, find) ==> replaced(s, find, new, 0, count) == s,
        find == new ==> replaced(s, find, new, 0, count) == s,
{
    assert(s.skip(0) =~= s);
    if find.len() == 0 {
        assert(s.subrange(0, 0) =~= find);
        assert(occurs_at(s, find, 0));
        if find == new {
            lemma_replace_empty(s, find, count);
        }
    } else {
        lemma_replace_same(s, find, 0, count);
        if !occurs(s, find) && count > 0 {
            lemma_replaced_step(s, find, new, 0, count);
            lemma_first_occurrence_from(s, find, 0);
        }
    }
}

proof fn lemma_replace_empty(s: Seq<u8>, find: Seq<u8>, count: int)
    requires
        find.len() == 0,
    ensures
        replaced(s, find, find, 0, count) == s,
    decreases count,
{
    assert(s.skip(0) =~= s);
    if count > 0 {
        assert(s.subrange(0, 0) =~= find);
        lemma_replace_empty(s, find, count - 1);
        assert(find + s =~= s);
    }
}

proof fn lemma_replace_len(s: Seq<u8>, find: Seq<u8>, new: Seq<u8>, i: int, count: int)
    requires
        0 <= i <= s.len(),
        find.len() == new.len() > 0,
    ensures
        replaced(s, find, new, i, count).len() == s.len() - i,
    decreases s.len() - i, count,
{
    if count > 0 && i + find.len() <= s.len() {
        if occurs_at(s, find, i) {
            lemma_replace_len(s, find, new, i + find.len(), count - 1);
        } else {
            lemma_replace_len(s, find, new, i + 1, count);
        }
    }
}

/// Replacing by as many bytes keeps the length.
pub proof fn law_replace_keeps_length(s: Seq<u8>, find: Seq<u8>, new: Seq<u8>, count: int)
    requires
        find.len() == new.len(),
    ensures
        replaced(s, find, new, 0, count).len() == s.len(),
{
    if find.len() == 0 {
        assert(find =~= new);
        lemma_replace_empty(s, find, count);
    } else {
        lemma_replace_len(s, find, new, 0, count);
    }
}

proof fn lemma_delete_nothing(s: Seq<u8>, delete: Seq<u8>)
    requires
        forall|i: int| 0 <= i < s.len() ==> !delete.contains(#[trigger] s[i]),
    ensures
        s.filter(|b: u8| !delete.contains(b)) == s,
    decreases s.len(),
{
    reveal(Seq::filter);
    let kept = |b: u8| !delete.contains(b);
    if s.len() > 0 {
        assert forall|i: int| 0 <= i < s.drop_last().len() implies !delete.contains(
            #[trigger] s.drop_last()[i],
        ) by {
            assert(s.drop_last()[i] == s[i]);
        }
        lemma_delete_nothing(s.drop_last(), delete);
        assert(kept(s[s.len() - 1]));
        assert(s.filter(kept) =~= s);
    }
}

/// A translation without bytes to delete replaces each byte at its place.
pub proof fn law_translate_each(s: Seq<u8>, table: Seq<u8>)
    ensures
        translated(s, table, Seq::empty()).len() == s.len(),
        forall|i: int|
            0 <= i < s.len() ==> #[trigger] translated(s, table, Seq::empty())[i]
                == table[s[i] as int],
{
    lemma_delete_nothing(s, Seq::empty());
}

/// The table that maps every byte to itself changes nothing but that it takes away the bytes to
/// delete: none of these is left, and nothing goes where there are none.
pub proof fn law_translate_by_identity(s: Seq<u8>, delete: Seq<u8>)
    ensures
        translated(s, identity_table(), delete) == s.filter(|b: u8| !delete.contains(b)),
        forall|i: int|
            0 <= i < translated(s, identity_table(), delete).len() ==> !delete.contains(
                #[trigger] translated(s, identity_table(), delete)[i],
            ),
        (forall|i: int| 0 <= i < s.len() ==> !delete.contains(#[trigger] s[i])) ==> translated(
            s,
            identity_table(),
            delete,
        ) == s,
{
    let kept = |b: u8| !delete.contains(b);
    let t = s.filter(kept);
    assert(translated(s, identity_table(), delete) =~= t);
    assert forall|i: int| 0 <= i < t.len() implies !delete.contains(#[trigger] t[i]) by {
        s.lemma_filter_pred(kept, i);
    }
    if forall|i: int| 0 <= i < s.len() ==> !delete.contains(#[trigger] s[i]) {
        lemma_delete_nothing(s, delete);
    }
}

proof fn lemma_first_position(s: Seq<u8>, b: u8, i: int)
    requires
        0 <= i <= s.len(),
    ensures
        match first_position(s, b, i) {
            Some(p) => i <= p < s.len() && s[p] == b,
            None => forall|k: int| i <= k < s.len() ==> s[k] != b,
        },
    decreases s.len() - i,
{
    if i < s.len() && s[i] != b {
        lemma_first_position(s, b, i + 1);
    }
}

/// A table is made for every byte, and maps each byte to itself where both byte strings are the
/// same.
pub proof fn law_table(from: Seq<u8>, to: Seq<u8>)
    ensures
        translation(from, to).len() == 256,
        translation(from, from) == identity_table(),
{
    assert forall|i: int| 0 <= i < 256 implies translation(from, from)[i] == i as u8 by {
        lemma_first_position(from, i as u8, 0);
    }
    assert(translation(from, from) =~= identity_table());
}

/// The table of the two byte strings the other way round undoes a translation, where all bytes are
/// to be replaced, and by different ones.
pub proof fn law_translate_back(s: Seq<u8>, from: Seq<u8>, to: Seq<u8>)
    requires
        from.len() == to.len(),
        to.no_duplicates(),
        forall|i: int| 0 <= i < s.len() ==> from.contains(#[trigger] s[i]),
    ensures
        translated(
            translated(s, translation(from, to), Seq::empty()),
            translation(to, from),
            Seq::empty(),
        ) == s,
{
    let t = translated(s, translation(from, to), Seq::empty());
    law_translate_each(s, translation(from, to));
    law_translate_each(t, translation(to, from));
    let u = translated(t, translation(to, from), Seq::empty());
    assert forall|i: int| 0 <= i < s.len() implies u[i] == s[i] by {
        assert(from.contains(s[i]));
        lemma_first_position(from, s[i], 0);
        let p = first_position(from, s[i], 0)->0;
        assert(t[i] == to[p]);
        lemma_first_position(to, t[i], 0);
        assert(u[i] == mapped(to, from, t[i]));
    }
    assert(u =~= s);
}

/// What a width asks for. Filling up to it gives the width, or the length where that is not below
/// it, and keeps the byte string: at the start with `ljust`, at the end with `rjust`, and with
/// `center` in the middle, where one side gets at most one byte more than the other.
pub proof fn law_padding(s: Seq<u8>, b: u8, width: int)
    requires
        width <= usize::MAX,
    ensures
        ({
            let n = missing(width, s.len() as int);
            let len = if width > s.len() {
                width
            } else {
                s.len() as int
            };
            let left = left_share(n, s.len() as int);
            &&& (s + fill(b, n)).len() == len
            &&& (fill(b, n) + s).len() == len
            &&& centered(s, b, n).len() == len
            &&& (s + fill(b, n)).take(s.len() as int) == s
            &&& (fill(b, n) + s).skip(n) == s
            &&& occurs_at(centered(s, b, n), s, left)
            &&& -1 <= left - (n - left) <= 1
            &&& n == 0 ==> s + fill(b, n) == s && fill(b, n) + s == s && centered(s, b, n) == s
        }),
{
    let n = missing(width, s.len() as int);
    let left = left_share(n, s.len() as int);
    assert((s + fill(b, n)).take(s.len() as int) =~= s);
    assert((fill(b, n) + s).skip(n) =~= s);
    assert(centered(s, b, n).subrange(left, left + s.len()) =~= s);
    if n == 0 {
        assert(s + fill(b, n) =~= s);
        assert(fill(b, n) + s =~= s);
        assert(centered(s, b, n) =~= s);
    }
}

/// Filling up with zeros gives the width, or the length where that is not below it, and keeps a
/// sign at the start and everything else at the end; doing it again changes nothing.
pub proof fn law_zero_filled(s: Seq<u8>, width: int)
    ensures
        zero_filled(s, width).len() == (if width > s.len() {
            width
        } else {
            s.len() as int
        }),
        zero_filled(zero_filled(s, width), width) == zero_filled(s, width),
        s.len() > 0 && is_sign(s[0]) ==> zero_filled(s, width)[0] == s[0] && zero_filled(
            s,
            width,
        ).skip(zero_filled(s, width).len() - s.len() + 1) == s.skip(1),
        !(s.len() > 0 && is_sign(s[0])) ==> zero_filled(s, width).skip(
            zero_filled(s, width).len() - s.len(),
        ) == s,
{
    let t = zero_filled(s, width);
    if s.len() > 0 && is_sign(s[0]) {
        assert(t.skip(t.len() - s.len() + 1) =~= s.skip(1));
    } else {
        assert(t.skip(t.len() - s.len()) =~= s);
    }
}

/// Of an ASCII byte string it is fixed what is left without the characters at the start, or at the
/// end, that a test picks; and nothing goes where the test does not pick the byte there.
pub proof fn law_strip_ascii(
    s: Seq<u8>,
    r: Seq<u8>,
    t: Seq<u8>,
    drop: spec_fn(char) -> bool,
)
    requires
        is_ascii(s),
    ensures
        is_trimmed_start(s, r, drop) && is_trimmed_start(s, t, drop) ==> r == t,
        is_trimmed_end(s, r, drop) && is_trimmed_end(s, t, drop) ==> r == t,
        is_trimmed_start(s, r, drop) && s.len() > 0 && !drop(s[0] as char) ==> r == s,
        is_trimmed_end(s, r, drop) && s.len() > 0 && !drop(s.last() as char) ==> r == s,
{
    if is_trimmed_start(s, r, drop) {
        if s.len() > 0 && !drop(s[0] as char) {
            assert(s[0] < 128);
            assert(r =~= s);
        }
        if is_trimmed_start(s, t, drop) {
            let i = s.len() - r.len();
            let j = s.len() - t.len();
            if i < j {
                assert(r[0] == s[i] && s[i] < 128);
            } else if j < i {
                assert(t[0] == s[j] && s[j] < 128);
            }
        }
    }
    if is_trimmed_end(s, r, drop) {
        if s.len() > 0 && !drop(s.last() as char) {
            assert(s[s.len() - 1] < 128);
            assert(r =~= s);
        }
        if is_trimmed_end(s, t, drop) {
            if r.len() < t.len() {
                assert(t.last() == s[t.len() - 1] && s[t.len() - 1] < 128);
            } else if t.len() < r.len() {
                assert(r.last() == s[r.len() - 1] && s[r.len() - 1] < 128);
            }
        }
    }
}

} // verus!
