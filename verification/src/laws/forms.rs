//! Laws of the case, of the questions on bytes, and of text, byte by byte.
use vstd::prelude::*;
use vstd::utf8::encode_utf8;

use crate::casing::{capitalized, lowered, swapped, titled, uppered};
use crate::classify::{
    all_bytes, breaks_title, cased_before, is_alphabetic, is_ascii_space, is_cased, is_digit,
    is_lower, is_numeric, is_title, is_upper, some_byte,
};
use crate::error::ErrorKind;
use crate::hexadecimal::{
    escaped, first_invalid, fromhex_outcome, hex_digits, is_hex_text, lemma_first_invalid,
    represented, without_space,
};
use crate::text::{decimal, is_white_space};

verus! {

/// Whether a byte is one of the letters `A` to `Z`.
pub open spec fn is_capital(b: u8) -> bool {
    65 <= b <= 90
}

/// Whether a byte is one of the letters `a` to `z`.
pub open spec fn is_small(b: u8) -> bool {
    97 <= b <= 122
}

/// A byte in the case that is asked for: capitals are 32 below small letters, and no other byte
/// changes.
pub open spec fn in_case(b: u8, capital: bool) -> int {
    if capital && is_small(b) {
        b - 32
    } else if !capital && is_capital(b) {
        b + 32
    } else {
        b as int
    }
}

/// The case of each byte after a change of case. Lowercase and uppercase are the same everywhere,
/// a swap is the other case of each letter, only the first byte is a capital when capitalized, and
/// in title case a letter is one where no letter is right before it.
pub proof fn law_case_of_each_byte(s: Seq<u8>, i: int)
    requires
        0 <= i < s.len(),
    ensures
        lowered(s).len() == s.len() && lowered(s)[i] == in_case(s[i], false),
        uppered(s).len() == s.len() && uppered(s)[i] == in_case(s[i], true),
        swapped(s).len() == s.len() && swapped(s)[i] == in_case(s[i], is_small(s[i])),
        capitalized(s).len() == s.len() && capitalized(s)[i] == in_case(s[i], i == 0),
        titled(s).len() == s.len() && titled(s)[i] == in_case(
            s[i],
            i == 0 || !(is_capital(s[i - 1]) || is_small(s[i - 1])),
        ),
{
}

/// Whether a byte is the number of an uppercase letter of Latin-1.
pub open spec fn latin_upper(b: u8) -> bool {
    65 <= b <= 90 || (192 <= b <= 222 && b != 215)
}

/// Whether a byte is the number of a lowercase letter of Latin-1, or of one of its three letters
/// without an uppercase form there.
pub open spec fn latin_lower(b: u8) -> bool {
    97 <= b <= 122 || b == 170 || b == 181 || b == 186 || (223 <= b && b != 247)
}

/// Whether a byte is the number of a digit, a superscript digit or a fraction of Latin-1.
pub open spec fn latin_number(b: u8) -> bool {
    48 <= b <= 57 || b == 178 || b == 179 || b == 185 || 188 <= b <= 190
}

/// What the questions ask of each byte. Those on all bytes ask for one at least.
pub proof fn law_question_of_each_byte(s: Seq<u8>)
    ensures
        all_bytes(s, |b: u8| is_alphabetic(b) || is_numeric(b)) <==> s.len() > 0 && forall|i: int|
            0 <= i < s.len() ==> latin_upper(#[trigger] s[i]) || latin_lower(s[i]) || latin_number(
                s[i],
            ),
        all_bytes(s, |b: u8| is_alphabetic(b)) <==> s.len() > 0 && forall|i: int|
            0 <= i < s.len() ==> latin_upper(#[trigger] s[i]) || latin_lower(s[i]),
        all_bytes(s, |b: u8| is_digit(b)) <==> s.len() > 0 && forall|i: int|
            0 <= i < s.len() ==> 48 <= #[trigger] s[i] <= 57,
        all_bytes(s, |b: u8| is_ascii_space(b)) <==> s.len() > 0 && forall|i: int|
            0 <= i < s.len() ==> #[trigger] s[i] == 9 || s[i] == 10 || s[i] == 12 || s[i] == 13
                || s[i] == 32,
        some_byte(s, |b: u8| is_lower(b)) <==> exists|i: int|
            0 <= i < s.len() && latin_lower(#[trigger] s[i]),
        some_byte(s, |b: u8| is_upper(b)) <==> exists|i: int|
            0 <= i < s.len() && latin_upper(#[trigger] s[i]),
{
    let alnum = |b: u8| is_alphabetic(b) || is_numeric(b);
    let alpha = |b: u8| is_alphabetic(b);
    let digit = |b: u8| is_digit(b);
    let space = |b: u8| is_ascii_space(b);
    let low = |b: u8| is_lower(b);
    let up = |b: u8| is_upper(b);
    assert forall|i: int| 0 <= i < s.len() implies {
        &&& alnum(#[trigger] s[i]) == (latin_upper(s[i]) || latin_lower(s[i]) || latin_number(s[i]))
        &&& alpha(s[i]) == (latin_upper(s[i]) || latin_lower(s[i]))
        &&& digit(s[i]) == (48 <= s[i] <= 57)
        &&& space(s[i]) == (s[i] == 9 || s[i] == 10 || s[i] == 12 || s[i] == 13 || s[i] == 32)
        &&& low(s[i]) == latin_lower(s[i])
        &&& up(s[i]) == latin_upper(s[i])
    } by {}
    if some_byte(s, low) {
        let i = choose|i: int| 0 <= i < s.len() && low(#[trigger] s[i]);
        assert(latin_lower(s[i]));
    }
    if some_byte(s, up) {
        let i = choose|i: int| 0 <= i < s.len() && up(#[trigger] s[i]);
        assert(latin_upper(s[i]));
    }
    if exists|i: int| 0 <= i < s.len() && latin_lower(#[trigger] s[i]) {
        let i = choose|i: int| 0 <= i < s.len() && latin_lower(#[trigger] s[i]);
        assert(low(s[i]));
    }
    if exists|i: int| 0 <= i < s.len() && latin_upper(#[trigger] s[i]) {
        let i = choose|i: int| 0 <= i < s.len() && latin_upper(#[trigger] s[i]);
        assert(up(s[i]));
    }
}

/// Whether a byte is the number of a letter of Latin-1 that has another form in the other case.
pub open spec fn latin_cased(b: u8) -> bool {
    latin_upper(b) || (latin_lower(b) && b != 170 && b != 186)
}

/// Whether the byte before position `i` is a cased letter.
pub open spec fn follows_cased(s: Seq<u8>, i: int) -> bool {
    0 < i && latin_cased(s[i - 1])
}

/// Title case. Where a cased letter starts a run of them, no uppercase letter is right behind it,
/// and no lowercase letter is right behind any other byte; and the last byte is an uppercase letter
/// exactly where no cased letter is right before it.
pub proof fn law_title_of_each_byte(s: Seq<u8>)
    ensures
        is_title(s) <==> {
            &&& s.len() > 0
            &&& forall|i: int|
                1 <= i < s.len() && latin_upper(#[trigger] s[i]) && follows_cased(s, i)
                    ==> follows_cased(s, i - 1)
            &&& forall|i: int|
                1 <= i < s.len() && latin_lower(#[trigger] s[i]) ==> follows_cased(s, i)
            &&& latin_upper(s.last()) <==> !follows_cased(s, s.len() - 1)
        },
{
    assert forall|i: int| 0 <= i < s.len() implies is_cased(#[trigger] s[i]) == latin_cased(s[i]) by {}
    if is_title(s) {
        assert forall|i: int|
            1 <= i < s.len() && latin_upper(#[trigger] s[i]) && follows_cased(s, i) implies
            follows_cased(s, i - 1) by {
            assert(!breaks_title(s, i - 1));
        }
        assert forall|i: int| 1 <= i < s.len() && latin_lower(#[trigger] s[i]) implies
            follows_cased(s, i) by {
            assert(!breaks_title(s, i - 1));
        }
    } else if s.len() > 0 {
        if exists|i: int| 0 <= i < s.len() - 1 && breaks_title(s, i) {
            let i = choose|i: int| 0 <= i < s.len() - 1 && breaks_title(s, i);
            let j = i + 1;
            assert(follows_cased(s, j) == is_cased(s[i]));
            assert(follows_cased(s, j - 1) == cased_before(s, i));
            assert(is_upper(s[j]) == latin_upper(s[j]));
            assert(is_lower(s[j]) == latin_lower(s[j]));
        }
    }
}

/// The hexadecimal digits of two byte strings, one behind the other, are those of both together,
/// and a byte has the digit of its sixteens and then that of its rest.
pub proof fn law_hex_byte_by_byte(s: Seq<u8>, t: Seq<u8>, b: u8)
    ensures
        hex_digits(s + t) == hex_digits(s) + hex_digits(t),
        hex_digits(seq![b]) == seq![
            "0123456789abcdef"@[b as int / 16],
            "0123456789abcdef"@[b as int % 16],
        ],
{
    reveal_strlit("0123456789abcdef");
    let all = hex_digits(s + t);
    assert forall|i: int| 0 <= i < all.len() implies all[i] == (hex_digits(s) + hex_digits(t))[i] by {
        if i >= 2 * s.len() {
            let j = i - 2 * s.len();
            assert(i / 2 == j / 2 + s.len() && i % 2 == j % 2);
        }
    }
    assert(all =~= hex_digits(s) + hex_digits(t));
    assert(hex_digits(seq![b]) =~= seq![
        "0123456789abcdef"@[b as int / 16],
        "0123456789abcdef"@[b as int % 16],
    ]);
}

/// The number that a hexadecimal digit stands for, in either case, and nothing for any other
/// character.
pub open spec fn hex_number(c: char) -> Option<int> {
    if 48 <= c as int <= 57 {
        Some(c as int - 48)
    } else if 97 <= c as int <= 102 {
        Some(c as int - 97 + 10)
    } else if 65 <= c as int <= 70 {
        Some(c as int - 65 + 10)
    } else {
        None
    }
}

/// Hexadecimal text is read two digits for a byte, and nothing else than digits and white space may
/// be in it. The first character that may not is told by the number of bytes before it, and a digit
/// without another by its number among the digits.
pub proof fn law_fromhex(text: Seq<char>, i: int)
    ensures
        ({
            let digits = text.filter(|c: char| !is_white_space(c));
            let n = digits.len() as int;
            let fine = forall|k: int|
                0 <= k < text.len() ==> hex_number(#[trigger] text[k]) is Some || is_white_space(
                    text[k],
                );
            &&& fine && n % 2 == 0 ==> (fromhex_outcome(text) matches Ok(v) && v.len() == n / 2
                && forall|k: int|
                0 <= k < v.len() ==> #[trigger] v[k] == 16 * hex_number(digits[2 * k])->0
                    + hex_number(digits[2 * k + 1])->0)
            &&& fine && n % 2 == 1 ==> (fromhex_outcome(text) matches Err(e) && e.kind
                == ErrorKind::ValueError && e.message
                == "non-hexadecimal number found in fromhex() arg at position "@ + decimal(
                (n - 1) as nat,
            ))
            &&& 0 <= i < text.len() && hex_number(text[i]) is None && !is_white_space(text[i]) && (
            forall|k: int|
                0 <= k < i ==> hex_number(#[trigger] text[k]) is Some || is_white_space(text[k]))
                ==> (fromhex_outcome(text) matches Err(e) && e.kind == ErrorKind::ValueError
                && e.message == "non-hexadecimal number found in fromhex() arg at position "@
                + decimal(encode_utf8(text.take(i)).len()))
        }),
{
    let digits = without_space(text);
    let kept = |c: char| !is_white_space(c);
    lemma_first_invalid(text, 0);
    assert forall|k: int| 0 <= k < text.len() implies is_hex_text(#[trigger] text[k]) == (hex_number(
        text[k],
    ) is Some || is_white_space(text[k])) by {}
    if forall|k: int|
        0 <= k < text.len() ==> hex_number(#[trigger] text[k]) is Some || is_white_space(text[k]) {
        assert(first_invalid(text, 0) is None) by {
            if let Some(j) = first_invalid(text, 0) {
                assert(!is_hex_text(text[j]));
            }
        }
        assert forall|k: int| 0 <= k < digits.len() implies hex_number(#[trigger] digits[k]) is Some by {
            text.lemma_filter_pred(kept, k);
            assert(digits.contains(digits[k]));
            text.lemma_filter_contains_rev(kept, digits[k]);
            let j = choose|j: int| 0 <= j < text.len() && text[j] == digits[k];
            assert(hex_number(text[j]) is Some || is_white_space(text[j]));
        }
        if digits.len() % 2 == 0 {
            let v = fromhex_outcome(text)->Ok_0;
            assert forall|k: int| 0 <= k < v.len() implies #[trigger] v[k] == 16 * hex_number(
                digits[2 * k],
            )->0 + hex_number(digits[2 * k + 1])->0 by {
                assert(hex_number(digits[2 * k]) is Some);
                assert(hex_number(digits[2 * k + 1]) is Some);
            }
        }
    }
    if 0 <= i < text.len() && hex_number(text[i]) is None && !is_white_space(text[i]) && (forall|
        k: int,
    |
        0 <= k < i ==> hex_number(#[trigger] text[k]) is Some || is_white_space(text[k])) {
        assert(!is_hex_text(text[i]));
        match first_invalid(text, 0) {
            Some(j) => {
                assert(!is_hex_text(text[j]));
                if j < i {
                    assert(hex_number(text[j]) is Some || is_white_space(text[j]));
                }
                assert(j == i);
            },
            None => {},
        }
    }
}

/// Numbers in messages: a digit alone is itself, and each further digit is put behind.
pub proof fn law_decimal(n: nat, d: nat)
    requires
        d < 10,
    ensures
        decimal(d) == seq!["0123456789"@[d as int]],
        n > 0 ==> decimal(10 * n + d) == decimal(n).push("0123456789"@[d as int]),
{
    reveal_strlit("0123456789");
    assert((10 * n + d) / 10 == n && (10 * n + d) % 10 == d);
}

/// The representation of two byte strings, one behind the other, is that of both together; a
/// printable byte is its character, and the others are escaped, a number below 16 with a zero
/// before it up to 11, and without one from 12 on.
pub proof fn law_representation_byte_by_byte(s: Seq<u8>, t: Seq<u8>, b: u8)
    ensures
        represented(s + t) == represented(s) + represented(t),
        represented(Seq::empty()) == Seq::<char>::empty(),
        b == 9 ==> represented(seq![b]) == "\\t"@,
        b == 10 ==> represented(seq![b]) == "\\n"@,
        b == 13 ==> represented(seq![b]) == "\\r"@,
        32 <= b <= 126 ==> represented(seq![b]) == seq![b as char],
        b <= 8 || b == 11 ==> represented(seq![b]) == "\\x0"@ + seq![
            "0123456789abcdef"@[b as int],
        ],
        b == 12 || b == 14 || b == 15 ==> represented(seq![b]) == "\\x"@ + seq![
            "0123456789abcdef"@[b as int],
        ],
        16 <= b < 32 || b >= 127 ==> represented(seq![b]) == "\\x"@ + seq![
            "0123456789abcdef"@[b as int / 16],
            "0123456789abcdef"@[b as int % 16],
        ],
    decreases t.len(),
{
    reveal_strlit("0123456789abcdef");
    assert(seq![b].drop_last() =~= Seq::empty());
    assert(represented(seq![b].drop_last()) =~= Seq::empty());
    assert(represented(seq![b]) =~= escaped(b));
    if t.len() > 0 {
        law_representation_byte_by_byte(s, t.drop_last(), b);
        assert((s + t).drop_last() =~= s + t.drop_last());
        assert(represented(s + t) =~= represented(s) + represented(t));
    } else {
        assert(s + t =~= s);
        assert(represented(s + t) =~= represented(s) + represented(t));
    }
}

} // verus!
