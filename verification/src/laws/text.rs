//! Laws of the case, of the questions on bytes, and of byte strings as text.
use vstd::prelude::*;

use crate::casing::{
    capitalized, is_letter, lowered, swapped, titled, uppered,
};
use crate::classify::{
    all_bytes, breaks_title, is_alphabetic, is_ascii_space, is_cased, is_digit,
    is_lower, is_numeric, is_title, is_upper, some_byte,
};
use crate::error::ErrorView;
use crate::hexadecimal::{
    escaped, fromhex_outcome, hex_bytes, hex_digits, is_hex_text,
    lemma_first_invalid, represented, without_space,
};
use crate::lines::{expanded, is_line_break, spaces, tabs_expanded};
use crate::text::{TAB, digit_char, hex_digit_value, is_hex_digit, is_white_space};

verus! {

/// Whether all bytes are ASCII.
pub open spec fn is_ascii(s: Seq<u8>) -> bool {
    forall|i: int| 0 <= i < s.len() ==> #[trigger] s[i] < 128
}

/// Changing the case keeps the length; changing it once more in the same way changes nothing, and
/// swapping it twice gives back the byte string. Where the case is made the same everywhere, it
/// does not matter what it was.
pub proof fn law_change_of_case(s: Seq<u8>)
    ensures
        lowered(lowered(s)) == lowered(s),
        uppered(uppered(s)) == uppered(s),
        swapped(swapped(s)) == s,
        capitalized(capitalized(s)) == capitalized(s),
        titled(titled(s)) == titled(s),
        lowered(uppered(s)) == lowered(s),
        uppered(lowered(s)) == uppered(s),
        lowered(swapped(s)) == lowered(s),
        uppered(swapped(s)) == uppered(s),
        titled(lowered(s)) == titled(s),
        titled(uppered(s)) == titled(s),
        capitalized(lowered(s)) == capitalized(s),
        lowered(s).len() == s.len(),
        uppered(s).len() == s.len(),
        swapped(s).len() == s.len(),
        capitalized(s).len() == s.len(),
        titled(s).len() == s.len(),
{
    assert(lowered(lowered(s)) =~= lowered(s));
    assert(uppered(uppered(s)) =~= uppered(s));
    assert(swapped(swapped(s)) =~= s);
    assert(capitalized(capitalized(s)) =~= capitalized(s));
    assert(titled(titled(s)) =~= titled(s));
    assert(lowered(uppered(s)) =~= lowered(s));
    assert(uppered(lowered(s)) =~= uppered(s));
    assert(lowered(swapped(s)) =~= lowered(s));
    assert(uppered(swapped(s)) =~= uppered(s));
    assert(titled(lowered(s)) =~= titled(s));
    assert(titled(uppered(s)) =~= titled(s));
    assert(capitalized(lowered(s)) =~= capitalized(s));
}

/// An ASCII byte string with a letter is lowercase once it is put into lowercase, and uppercase
/// once it is put into uppercase.
pub proof fn law_case_is_told(s: Seq<u8>)
    requires
        is_ascii(s),
        some_byte(s, |b: u8| is_letter(b)),
    ensures
        some_byte(lowered(s), |b: u8| is_lower(b)) && !some_byte(lowered(s), |b: u8| is_upper(b)),
        some_byte(uppered(s), |b: u8| is_upper(b)) && !some_byte(uppered(s), |b: u8| is_lower(b)),
{
    let low = |b: u8| is_lower(b);
    let up = |b: u8| is_upper(b);
    let letter = |b: u8| is_letter(b);
    let i = choose|i: int| 0 <= i < s.len() && letter(#[trigger] s[i]);
    assert(low(lowered(s)[i]));
    assert(up(uppered(s)[i]));
    assert forall|j: int| 0 <= j < s.len() implies !up(#[trigger] lowered(s)[j]) by {
        assert(s[j] < 128);
    }
    assert forall|j: int| 0 <= j < s.len() implies !low(#[trigger] uppered(s)[j]) by {
        assert(s[j] < 128);
    }
}

/// An ASCII byte string whose last byte, or the one before it, is a letter is in title case once
/// it is put into title case.
pub proof fn law_title_is_told(s: Seq<u8>)
    requires
        is_ascii(s),
        s.len() > 0,
        is_letter(s.last()) || s.len() > 1 && is_letter(s[s.len() - 2]),
    ensures
        is_title(titled(s)),
{
    let t = titled(s);
    assert forall|i: int| 0 <= i < t.len() implies is_cased(#[trigger] t[i]) == is_letter(s[i])
        && t[i] < 128 by {
        assert(s[i] < 128);
    }
    assert forall|i: int| 0 <= i < t.len() - 1 implies !breaks_title(t, i) by {
        assert(s[i] < 128 && s[i + 1] < 128);
        assert(is_cased(t[i]) == is_letter(s[i]));
        assert(t[i + 1] < 128);
    }
    let n = t.len() - 1;
    assert(s[n] < 128);
    if n > 0 {
        assert(is_cased(t[n - 1]) == is_letter(s[n - 1]));
    }
}

/// What is made of letters, or of digits, is made of letters and numbers; no byte string is both
/// made of letters and of digits; no byte is both lowercase and uppercase, and letters without an
/// uppercase one are all lowercase, as those without a lowercase one are all uppercase; and what is
/// made of white space is not made of letters and numbers.
pub proof fn law_questions(s: Seq<u8>)
    ensures
        all_bytes(s, |b: u8| is_alphabetic(b)) ==> all_bytes(
            s,
            |b: u8| is_alphabetic(b) || is_numeric(b),
        ),
        all_bytes(s, |b: u8| is_digit(b)) ==> all_bytes(
            s,
            |b: u8| is_alphabetic(b) || is_numeric(b),
        ) && is_ascii(s),
        !(all_bytes(s, |b: u8| is_alphabetic(b)) && all_bytes(s, |b: u8| is_digit(b))),
        forall|b: u8| !(#[trigger] is_lower(b) && is_upper(b)),
        all_bytes(s, |b: u8| is_alphabetic(b)) && !some_byte(s, |b: u8| is_upper(b)) ==> all_bytes(
            s,
            |b: u8| is_lower(b),
        ),
        all_bytes(s, |b: u8| is_alphabetic(b)) && !some_byte(s, |b: u8| is_lower(b)) ==> all_bytes(
            s,
            |b: u8| is_upper(b),
        ),
        all_bytes(s, |b: u8| is_ascii_space(b)) ==> is_ascii(s) && !all_bytes(
            s,
            |b: u8| is_alphabetic(b) || is_numeric(b),
        ),
{
    let alpha = |b: u8| is_alphabetic(b);
    let digit = |b: u8| is_digit(b);
    let alnum = |b: u8| is_alphabetic(b) || is_numeric(b);
    let space = |b: u8| is_ascii_space(b);
    let low = |b: u8| is_lower(b);
    let up = |b: u8| is_upper(b);
    if all_bytes(s, alpha) {
        assert(alpha(s[0]));
        assert forall|i: int| 0 <= i < s.len() implies low(#[trigger] s[i]) || up(s[i]) by {
            assert(alpha(s[i]));
        }
        assert forall|i: int| 0 <= i < s.len() implies alnum(#[trigger] s[i]) by {
            assert(alpha(s[i]));
        }
    }
    if all_bytes(s, digit) {
        assert(digit(s[0]));
        assert forall|i: int| 0 <= i < s.len() implies alnum(#[trigger] s[i]) && s[i] < 128 by {
            assert(digit(s[i]));
        }
    }
    if all_bytes(s, space) {
        assert(space(s[0]));
        assert(!alnum(s[0]));
        assert forall|i: int| 0 <= i < s.len() implies #[trigger] s[i] < 128 by {
            assert(space(s[i]));
        }
    }
}

proof fn lemma_keep_all(text: Seq<char>)
    requires
        forall|i: int| 0 <= i < text.len() ==> !is_white_space(#[trigger] text[i]),
    ensures
        without_space(text) == text,
    decreases text.len(),
{
    reveal(Seq::filter);
    if text.len() > 0 {
        lemma_keep_all(text.drop_last());
    }
}

/// The hexadecimal digits of a byte string, read again, give back the byte string.
pub proof fn law_fromhex_after_hex(s: Seq<u8>)
    ensures
        fromhex_outcome(hex_digits(s)) == Ok::<Seq<u8>, ErrorView>(s),
{
    let text = hex_digits(s);
    assert forall|i: int| 0 <= i < text.len() implies is_hex_digit(#[trigger] text[i])
        && !is_white_space(text[i]) by {
        let b = s[i / 2];
        assert(0 <= b as int / 16 < 16 && 0 <= b as int % 16 < 16);
    }
    lemma_first_invalid(text, 0);
    lemma_keep_all(text);
    assert forall|k: int| 0 <= k < s.len() implies hex_bytes(text)[k] == s[k] by {
        assert((2 * k) / 2 == k && (2 * k) % 2 == 0);
        assert((2 * k + 1) / 2 == k && (2 * k + 1) % 2 == 1);
        assert(hex_digit_value(text[2 * k]) == s[k] as int / 16);
        assert(hex_digit_value(text[2 * k + 1]) == s[k] as int % 16);
    }
    assert(hex_bytes(text) =~= s);
}

/// The bytes of hexadecimal text, written again, are its digits, where these are in lowercase.
pub proof fn law_hex_after_fromhex(text: Seq<char>, s: Seq<u8>)
    requires
        fromhex_outcome(text) == Ok::<Seq<u8>, ErrorView>(s),
        forall|i: int| 0 <= i < text.len() ==> !('A' <= #[trigger] text[i] <= 'F'),
    ensures
        hex_digits(s) == without_space(text),
{
    let digits = without_space(text);
    let kept = |c: char| !is_white_space(c);
    lemma_first_invalid(text, 0);
    assert forall|i: int| 0 <= i < digits.len() implies is_hex_digit(#[trigger] digits[i]) && !('A'
        <= digits[i] <= 'F') by {
        text.lemma_filter_pred(kept, i);
        assert(digits.contains(digits[i]));
        text.lemma_filter_contains_rev(kept, digits[i]);
        let j = choose|j: int| 0 <= j < text.len() && text[j] == digits[i];
        assert(is_hex_text(text[j]));
    }
    assert forall|i: int| 0 <= i < digits.len() implies hex_digits(s)[i] == digits[i] by {
        let k = i / 2;
        let high = digits[2 * k];
        let low = digits[2 * k + 1];
        assert(0 <= hex_digit_value(high) < 16 && 0 <= hex_digit_value(low) < 16);
        assert(s[k] == 16 * hex_digit_value(high) + hex_digit_value(low));
        assert(s[k] as int / 16 == hex_digit_value(high));
        assert(s[k] as int % 16 == hex_digit_value(low));
        assert(digit_char(hex_digit_value(high)) == high);
        assert(digit_char(hex_digit_value(low)) == low);
    }
    assert(hex_digits(s) =~= digits);
}

/// White space in hexadecimal text does not count.
pub proof fn law_fromhex_without_space(text: Seq<char>)
    requires
        fromhex_outcome(text) is Ok,
    ensures
        fromhex_outcome(without_space(text)) == fromhex_outcome(text),
{
    let digits = without_space(text);
    let kept = |c: char| !is_white_space(c);
    lemma_first_invalid(text, 0);
    assert forall|i: int| 0 <= i < digits.len() implies is_hex_text(#[trigger] digits[i])
        && !is_white_space(digits[i]) by {
        text.lemma_filter_pred(kept, i);
        assert(digits.contains(digits[i]));
        text.lemma_filter_contains_rev(kept, digits[i]);
        let j = choose|j: int| 0 <= j < text.len() && text[j] == digits[i];
        assert(is_hex_text(text[j]));
    }
    lemma_first_invalid(digits, 0);
    lemma_keep_all(digits);
}

/// Whether a character is printable ASCII.
pub open spec fn is_printable(c: char) -> bool {
    ' ' <= c <= '~'
}

proof fn lemma_escaped_is_printable(b: u8)
    ensures
        escaped(b).len() > 0,
        forall|i: int| 0 <= i < escaped(b).len() ==> is_printable(#[trigger] escaped(b)[i]),
{
    reveal_strlit("\\x0");
    reveal_strlit("\\x");
    reveal_strlit("\\t");
    reveal_strlit("\\n");
    reveal_strlit("\\r");
}

/// The representation of a byte string is printable ASCII, and not shorter than the byte string.
pub proof fn law_representation_is_printable(s: Seq<u8>)
    ensures
        represented(s).len() >= s.len(),
        forall|i: int| 0 <= i < represented(s).len() ==> is_printable(#[trigger] represented(s)[i]),
    decreases s.len(),
{
    if s.len() > 0 {
        law_representation_is_printable(s.drop_last());
        lemma_escaped_is_printable(s.last());
    }
}

/// Printable ASCII bytes are represented as they are.
pub proof fn law_representation_of_printable(s: Seq<u8>)
    requires
        forall|i: int| 0 <= i < s.len() ==> is_printable(#[trigger] s[i] as char),
    ensures
        represented(s) == s.map_values(|b: u8| b as char),
    decreases s.len(),
{
    let same = |b: u8| b as char;
    if s.len() > 0 {
        law_representation_of_printable(s.drop_last());
        assert(is_printable(s[s.len() - 1] as char));
        assert(represented(s) =~= s.map_values(same));
    } else {
        assert(represented(s) =~= s.map_values(same));
    }
}

proof fn lemma_expanded(s: Seq<u8>, tabsize: int, i: int, column: int)
    requires
        tabsize > 0,
        0 <= i <= s.len(),
    ensures
        !expanded(s, tabsize, i, column).contains(TAB),
        !s.skip(i).contains(TAB) ==> expanded(s, tabsize, i, column) == s.skip(i),
    decreases s.len() - i,
{
    let all = expanded(s, tabsize, i, column);
    if i < s.len() {
        let (front, next) = if s[i] == TAB {
            (spaces(tabsize - column % tabsize), column + (tabsize - column % tabsize))
        } else {
            (
                seq![s[i]],
                if is_line_break(s[i]) {
                    0
                } else {
                    column + 1
                },
            )
        };
        let rest = expanded(s, tabsize, i + 1, next);
        lemma_expanded(s, tabsize, i + 1, next);
        assert(all == front + rest);
        assert(!front.contains(TAB));
        if all.contains(TAB) {
            let k = choose|k: int| 0 <= k < all.len() && all[k] == TAB;
            if k < front.len() {
                assert(front[k] == TAB);
            } else {
                assert(rest[k - front.len()] == TAB);
            }
        }
        if !s.skip(i).contains(TAB) {
            assert(s.skip(i)[0] == s[i]);
            let tail = s.skip(i + 1);
            if tail.contains(TAB) {
                let k = choose|k: int| 0 <= k < tail.len() && tail[k] == TAB;
                assert(s.skip(i)[k + 1] == TAB);
            }
            assert(s.skip(i) =~= seq![s[i]] + tail);
        }
    } else {
        assert(all =~= s.skip(i));
    }
}

/// An expansion leaves no tab, and changes nothing where there is none.
pub proof fn law_tabs_expanded(s: Seq<u8>, tabsize: int)
    requires
        tabsize >= 0,
    ensures
        !tabs_expanded(s, tabsize).contains(TAB),
        !s.contains(TAB) ==> tabs_expanded(s, tabsize) == s,
    decreases s.len(),
{
    if tabsize > 0 {
        lemma_expanded(s, tabsize, 0, 0);
        assert(s.skip(0) =~= s);
    } else {
        reveal(Seq::filter);
        let kept = |b: u8| b != TAB;
        assert forall|k: int| 0 <= k < s.filter(kept).len() implies s.filter(kept)[k] != TAB by {
            s.lemma_filter_pred(kept, k);
        }
        if s.len() > 0 {
            law_tabs_expanded(s.drop_last(), tabsize);
            if !s.contains(TAB) {
                assert(s[s.len() - 1] != TAB);
                if s.drop_last().contains(TAB) {
                    let k = choose|k: int|
                        0 <= k < s.drop_last().len() && s.drop_last()[k] == TAB;
                    assert(s[k] == TAB);
                }
                assert(tabs_expanded(s, tabsize) =~= s);
            }
        }
    }
}

} // verus!
