//! Laws of filling up to a width and of taking away at the ends, byte by byte.
use vstd::prelude::*;
use vstd::utf8::{
    char_u32_cast, decode_first_scalar, decode_utf8, decode_utf8_encode_utf8, encode_scalar,
    encode_utf8, encode_utf8_decode_utf8, encode_utf8_first_scalar, encode_utf8_valid_utf8,
    is_continuation_byte, length_of_first_scalar, pop_first_scalar, valid_first_scalar, valid_utf8,
};

use crate::bstring::{
    broken_len, first_char, last_char, last_start, lemma_first_char, lemma_trimmed_end,
    lemma_trimmed_start, low_byte, trimmed_start, without_leading, without_trailing,
};
use crate::laws::text::is_ascii;
use crate::padding::{centered, fill, zero_filled};
use crate::strip::{left_stripped, picked, right_stripped};
use crate::text::is_white_space;

verus! {

/// What fills a byte string up: `n` times the byte behind it, before it, or on both sides. Of an
/// odd number of bytes on both sides one more is before a byte string of even length, and one more
/// behind one of odd length.
pub proof fn law_filled_bytes(s: Seq<u8>, b: u8, n: int, i: int)
    requires
        0 <= n,
    ensures
        ({
            let behind = s + fill(b, n);
            let before = fill(b, n) + s;
            let both = centered(s, b, n);
            let left = if s.len() % 2 == 0 {
                (n + 1) / 2
            } else {
                n / 2
            };
            &&& behind.len() == before.len() == both.len() == s.len() + n
            &&& 0 <= i < s.len() + n ==> {
                &&& behind[i] == (if i < s.len() {
                    s[i]
                } else {
                    b
                })
                &&& before[i] == (if i < n {
                    b
                } else {
                    s[i - n]
                })
                &&& both[i] == (if left <= i < left + s.len() {
                    s[i - left]
                } else {
                    b
                })
            }
        }),
{
}

/// What fills a number up: zeros, which are the byte 48, before all its bytes but a sign, which is
/// the byte 43 or 45 at the start.
pub proof fn law_zeros_before(s: Seq<u8>, width: int, i: int)
    ensures
        ({
            let t = zero_filled(s, width);
            let sign = if s.len() > 0 && (s[0] == 43 || s[0] == 45) {
                1int
            } else {
                0
            };
            let n = if width > s.len() {
                width - s.len()
            } else {
                0
            };
            &&& t.len() == s.len() + n
            &&& 0 <= i < t.len() ==> t[i] == (if i < sign {
                s[i]
            } else if i < sign + n {
                48
            } else {
                s[i - n]
            })
        }),
{
}

/// Whether a character is to be taken away: white space where no bytes are given, and else what has
/// one of them as the lowest eight bits of its number.
pub open spec fn goes(c: char, chars: Option<Seq<u8>>) -> bool {
    match chars {
        Some(bytes) => bytes.contains((c as u32 % 256) as u8),
        None => is_white_space(c),
    }
}

proof fn lemma_goes(chars: Option<Seq<u8>>)
    ensures
        forall|c: char| #[trigger] picked(chars)(c) == goes(c, chars),
{
}

proof fn lemma_without(chars: Seq<char>, drop: spec_fn(char) -> bool, i: int, j: int)
    requires
        0 <= i <= chars.len(),
        forall|k: int| 0 <= k < i ==> drop(#[trigger] chars[k]),
        i < chars.len() ==> !drop(chars[i]),
        0 <= j <= chars.len(),
        forall|k: int| j <= k < chars.len() ==> drop(#[trigger] chars[k]),
        0 < j ==> !drop(chars[j - 1]),
    ensures
        without_leading(chars, drop) == chars.skip(i),
        without_trailing(chars, drop) == chars.take(j),
    decreases chars.len(),
{
    lemma_without_leading(chars, drop, i);
    lemma_without_trailing(chars, drop, j);
}

proof fn lemma_without_leading(chars: Seq<char>, drop: spec_fn(char) -> bool, i: int)
    requires
        0 <= i <= chars.len(),
        forall|k: int| 0 <= k < i ==> drop(#[trigger] chars[k]),
        i < chars.len() ==> !drop(chars[i]),
    ensures
        without_leading(chars, drop) == chars.skip(i),
    decreases chars.len(),
{
    if i > 0 {
        let rest = chars.drop_first();
        assert(drop(chars[0]));
        assert forall|k: int| 0 <= k < i - 1 implies drop(#[trigger] rest[k]) by {
            assert(rest[k] == chars[k + 1]);
        }
        lemma_without_leading(rest, drop, i - 1);
        assert(rest.skip(i - 1) =~= chars.skip(i));
    } else {
        assert(chars.skip(0) =~= chars);
    }
}

proof fn lemma_without_trailing(chars: Seq<char>, drop: spec_fn(char) -> bool, j: int)
    requires
        0 <= j <= chars.len(),
        forall|k: int| j <= k < chars.len() ==> drop(#[trigger] chars[k]),
        0 < j ==> !drop(chars[j - 1]),
    ensures
        without_trailing(chars, drop) == chars.take(j),
    decreases chars.len(),
{
    if j < chars.len() {
        let rest = chars.drop_last();
        assert(drop(chars[chars.len() - 1]));
        assert forall|k: int| j <= k < rest.len() implies drop(#[trigger] rest[k]) by {
            assert(rest[k] == chars[k]);
        }
        lemma_without_trailing(rest, drop, j);
        assert(rest.take(j) =~= chars.take(j));
    } else {
        assert(chars.take(j) =~= chars);
    }
}

/// Of text in UTF-8 exactly the characters at the start, or at the end, go that are to be taken
/// away, up to the first, or the last, that is not.
pub proof fn law_strip_text(text: Seq<char>, chars: Option<Seq<u8>>, i: int, j: int)
    requires
        0 <= i <= text.len(),
        forall|k: int| 0 <= k < i ==> goes(#[trigger] text[k], chars),
        i < text.len() ==> !goes(text[i], chars),
        0 <= j <= text.len(),
        forall|k: int| j <= k < text.len() ==> goes(#[trigger] text[k], chars),
        0 < j ==> !goes(text[j - 1], chars),
    ensures
        left_stripped(encode_utf8(text), chars) == encode_utf8(text.skip(i)),
        right_stripped(encode_utf8(text), chars) == encode_utf8(text.take(j)),
{
    let s = encode_utf8(text);
    let drop = picked(chars);
    encode_utf8_valid_utf8(text);
    encode_utf8_decode_utf8(text);
    lemma_goes(chars);
    assert forall|k: int| 0 <= k < i implies drop(#[trigger] text[k]) by {
        assert(goes(text[k], chars));
    }
    assert forall|k: int| j <= k < text.len() implies drop(#[trigger] text[k]) by {
        assert(goes(text[k], chars));
    }
    lemma_trimmed_start(s, drop);
    lemma_trimmed_end(s, drop);
    lemma_without(text, drop, i, j);
}

/// Of ASCII bytes exactly those at the start, or at the end, go that are among the given ones, or,
/// where none are given, that are from 9 to 13 or 32.
pub proof fn law_strip_ascii_bytes(s: Seq<u8>, chars: Option<Seq<u8>>)
    requires
        is_ascii(s),
    ensures
        ({
            let l = left_stripped(s, chars);
            let r = right_stripped(s, chars);
            let i = s.len() - l.len();
            let gone = |b: u8|
                match chars {
                    Some(bytes) => bytes.contains(b),
                    None => 9 <= b <= 13 || b == 32,
                };
            &&& 0 <= i && l == s.skip(i)
            &&& forall|k: int| 0 <= k < i ==> gone(#[trigger] s[k])
            &&& i < s.len() ==> !gone(s[i])
            &&& r.len() <= s.len() && r == s.take(r.len() as int)
            &&& forall|k: int| r.len() <= k < s.len() ==> gone(#[trigger] s[k])
            &&& 0 < r.len() ==> !gone(r.last())
        }),
{
    let drop = picked(chars);
    lemma_trimmed_start(s, drop);
    lemma_trimmed_end(s, drop);
    let l = left_stripped(s, chars);
    let r = right_stripped(s, chars);
    let i = s.len() - l.len();
    let gone = |b: u8|
        match chars {
            Some(bytes) => bytes.contains(b),
            None => 9 <= b <= 13 || b == 32,
        };
    assert forall|k: int| 0 <= k < s.len() implies gone(#[trigger] s[k]) == drop(s[k] as char) by {
        assert(s[k] < 128);
        assert(low_byte(s[k] as char) == s[k]);
    }
    if i < s.len() {
        assert(l[0] == s[i]);
        assert(s[i] < 128);
    }
    if 0 < r.len() {
        assert(r.last() == s[r.len() - 1]);
        assert(s[r.len() - 1] < 128);
    }
    assert forall|k: int| 0 <= k < i implies gone(#[trigger] s[k]) by {
        assert(s[k] < 128);
    }
    assert forall|k: int| r.len() <= k < s.len() implies gone(#[trigger] s[k]) by {
        assert(s[k] < 128);
    }
}

/// Nothing of any byte string goes but at the end that is stripped, and what is left there is not
/// stripped further.
pub proof fn law_strip_any_bytes(s: Seq<u8>, chars: Option<Seq<u8>>)
    ensures
        ({
            let l = left_stripped(s, chars);
            let r = right_stripped(s, chars);
            &&& l.len() <= s.len() && l == s.skip(s.len() - l.len())
            &&& r.len() <= s.len() && r == s.take(r.len() as int)
            &&& left_stripped(l, chars) == l
            &&& right_stripped(r, chars) == r
        }),
{
    lemma_trimmed_start(s, picked(chars));
    lemma_trimmed_end(s, picked(chars));
}

/// The white space characters, by their numbers.
pub proof fn law_white_space(c: char)
    ensures
        is_white_space(c) <==> {
            let n = c as int;
            ||| 9 <= n <= 13
            ||| n == 32
            ||| n == 133
            ||| n == 160
            ||| n == 5760
            ||| 8192 <= n <= 8202
            ||| n == 8232
            ||| n == 8233
            ||| n == 8239
            ||| n == 8287
            ||| n == 12288
        },
{
}

proof fn lemma_one_char(c: char)
    ensures
        ({
            let e = encode_utf8(seq![c]);
            &&& 1 <= e.len() <= 4
            &&& valid_first_scalar(e)
            &&& length_of_first_scalar(e) == e.len()
            &&& decode_first_scalar(e) as char == c
        }),
{
    encode_utf8_first_scalar(seq![c]);
    char_u32_cast(c, decode_first_scalar(encode_utf8(seq![c])));
    assert(seq![c].drop_first() =~= Seq::empty());
    assert(encode_utf8(seq![c].drop_first()) =~= Seq::empty());
    assert(encode_utf8(seq![c]) =~= encode_scalar(c as u32));
}

proof fn lemma_first_scalar(s: Seq<u8>)
    requires
        s.len() > 0,
        s[0] < 128,
    ensures
        valid_first_scalar(s),
        length_of_first_scalar(s) == 1,
        decode_first_scalar(s) as char == s[0] as char,
{
    let b = s[0];
    assert(b < 128 ==> b & 0x7f == b) by (bit_vector);
}

/// Stripping at the start, character by character. A character at the start goes where it is to be
/// taken away, and then the rest is stripped; else nothing goes. A byte at the start that starts no
/// character is one replacement character.
pub proof fn law_strip_first(s: Seq<u8>, c: char, chars: Option<Seq<u8>>)
    ensures
        left_stripped(Seq::empty(), chars) == Seq::<u8>::empty(),
        ({
            let whole = encode_utf8(seq![c]) + s;
            left_stripped(whole, chars) == (if goes(c, chars) {
                left_stripped(s, chars)
            } else {
                whole
            })
        }),
        s.len() > 0 && !valid_first_scalar(s) ==> left_stripped(s, chars) == (if goes(
            '\u{fffd}',
            chars,
        ) {
            left_stripped(s.skip(1), chars)
        } else {
            s
        }),
{
    let e = encode_utf8(seq![c]);
    let whole = e + s;
    lemma_goes(chars);
    lemma_one_char(c);
    assert(valid_first_scalar(whole) && length_of_first_scalar(whole) == e.len()
        && decode_first_scalar(whole) == decode_first_scalar(e));
    if whole[0] < 128 {
        lemma_first_scalar(whole);
    }
    assert(first_char(whole) == (c, e.len() as int));
    assert(whole.skip(e.len() as int) =~= s);
    if s.len() > 0 && !valid_first_scalar(s) {
        lemma_broken_start(s, chars);
    }
}

proof fn lemma_broken_start(s: Seq<u8>, chars: Option<Seq<u8>>)
    requires
        s.len() > 0,
        !valid_first_scalar(s),
    ensures
        left_stripped(s, chars) == (if goes('\u{fffd}', chars) {
            left_stripped(s.skip(1), chars)
        } else {
            s
        }),
{
    let drop = picked(chars);
    lemma_goes(chars);
    if s[0] < 128 {
        lemma_first_scalar(s);
    }
    let n = broken_len(s);
    assert(first_char(s) == ('\u{fffd}', n));
    if goes('\u{fffd}', chars) {
        assert(trimmed_start(s, drop) == trimmed_start(s.skip(n), drop));
        if n > 1 {
            let t = s.skip(1);
            assert(is_continuation_byte(t[0]));
            assert(first_char(t) == ('\u{fffd}', 1int));
            assert(t.skip(1) =~= s.skip(2));
            assert(trimmed_start(t, drop) == trimmed_start(s.skip(2), drop));
        }
        if n > 2 {
            let u = s.skip(2);
            assert(is_continuation_byte(u[0]));
            assert(first_char(u) == ('\u{fffd}', 1int));
            assert(u.skip(1) =~= s.skip(3));
            assert(trimmed_start(u, drop) == trimmed_start(s.skip(3), drop));
        }
    }
}

/// Whether `s` ends with the encoding of a character.
pub open spec fn ends_with_char(s: Seq<u8>, c: char) -> bool {
    let e = encode_utf8(seq![c]);
    e.len() <= s.len() && s.skip(s.len() - e.len()) == e
}

/// The bytes behind the first of an encoding are continuations.
proof fn lemma_encoding(c: char)
    ensures
        ({
            let e = encode_utf8(seq![c]);
            &&& !is_continuation_byte(e[0])
            &&& forall|k: int| 0 < k < e.len() ==> is_continuation_byte(#[trigger] e[k])
        }),
{
    lemma_one_char(c);
}

/// Stripping at the end, character by character. A character at the end goes where it is to be
/// taken away, and then the rest is stripped; else nothing goes. A byte at the end that ends no
/// character is one replacement character.
pub proof fn law_strip_last(s: Seq<u8>, c: char, chars: Option<Seq<u8>>)
    ensures
        right_stripped(Seq::empty(), chars) == Seq::<u8>::empty(),
        ({
            let whole = s + encode_utf8(seq![c]);
            right_stripped(whole, chars) == (if goes(c, chars) {
                right_stripped(s, chars)
            } else {
                whole
            })
        }),
        s.len() > 0 && (forall|d: char| !ends_with_char(s, d)) ==> right_stripped(s, chars) == (
        if goes('\u{fffd}', chars) {
            right_stripped(s.drop_last(), chars)
        } else {
            s
        }),
{
    let e = encode_utf8(seq![c]);
    let whole = s + e;
    let m = e.len() as int;
    let n = whole.len() as int;
    lemma_goes(chars);
    lemma_one_char(c);
    lemma_encoding(c);
    assert forall|k: int| 0 <= k < m implies whole[n - m + k] == #[trigger] e[k] by {}
    assert(whole[n - m] == e[0]);
    assert(forall|k: int| n - m < k < n ==> #[trigger] whole[k] == e[k - (n - m)]);
    assert(last_start(whole) == n - m);
    assert(whole.skip(n - m) =~= e);
    if e[0] < 128 {
        lemma_first_scalar(e);
    }
    assert(first_char(e) == (c, m));
    assert(last_char(whole) == (c, m));
    assert(whole.take(n - m) =~= s);
    if s.len() > 0 && (forall|d: char| !ends_with_char(s, d)) {
        lemma_broken_end(s, chars);
    }
}

proof fn lemma_broken_end(s: Seq<u8>, chars: Option<Seq<u8>>)
    requires
        s.len() > 0,
        forall|d: char| !ends_with_char(s, d),
    ensures
        right_stripped(s, chars) == (if goes('\u{fffd}', chars) {
            right_stripped(s.drop_last(), chars)
        } else {
            s
        }),
{
    let p = last_start(s);
    let t = s.skip(p);
    let n = s.len() as int;
    lemma_goes(chars);
    lemma_first_char(t);
    let (c, k) = first_char(t);
    assert(s.take(n - 1) =~= s.drop_last());
    if p + k == n && (t[0] < 128 || valid_first_scalar(t)) {
        if t[0] < 128 {
            lemma_first_scalar(t);
        }
        assert(pop_first_scalar(t) =~= Seq::empty());
        assert(valid_utf8(pop_first_scalar(t)));
        assert(valid_utf8(t));
        decode_utf8_encode_utf8(t);
        assert(decode_utf8(pop_first_scalar(t)) =~= Seq::empty());
        assert(decode_utf8(t) =~= seq![c]);
        assert(ends_with_char(s, c));
        assert(false);
    }
    assert(last_char(s).0 == '\u{fffd}');
    let m = last_char(s).1;
    if m > 1 && goes('\u{fffd}', chars) {
        assert(m == n - p);
        let u = s.drop_last();
        assert(!is_continuation_byte(s[p]));
        assert(last_start(u) == p);
        assert(u.skip(p) =~= t.drop_last());
        assert(t.drop_last()[0] == t[0]);
        assert(!valid_first_scalar(t.drop_last()));
        assert(first_char(t.drop_last()) == ('\u{fffd}', m - 1));
        assert(last_char(u) == ('\u{fffd}', m - 1));
        assert(u.take(p) =~= s.take(p));
    }
}

} // verus!
