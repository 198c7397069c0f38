//! Byte strings as text: hexadecimal digits and the representation with escapes.
use vstd::prelude::*;
use vstd::utf8::{encode_scalar, encode_utf8};

use crate::error::{ErrorView, PyError, PyResult, new_value_error, outcome, value_error};
use crate::inner::PyByteInner;
use crate::text::{
    char_hex_value, char_is_hex_digit, char_is_white_space, decimal, digit, digit_char,
    hex_digit_value, is_hex_digit, is_white_space, push_decimal,
};

verus! {

/// Two hexadecimal digits for each byte.
pub open spec fn hex_digits(s: Seq<u8>) -> Seq<char> {
    Seq::new(
        2 * s.len(),
        |i: int|
            if i % 2 == 0 {
                digit_char(s[i / 2] as int / 16)
            } else {
                digit_char(s[i / 2] as int % 16)
            },
    )
}

/// Whether a character may stand in hexadecimal text.
pub open spec fn is_hex_text(c: char) -> bool {
    is_hex_digit(c) || is_white_space(c)
}

/// The first character from `i` on that may not stand in hexadecimal text.
pub open spec fn first_invalid(text: Seq<char>, i: int) -> Option<int>
    decreases text.len() - i,
{
    if i >= text.len() {
        None
    } else if is_hex_text(text[i]) {
        first_invalid(text, i + 1)
    } else {
        Some(i)
    }
}

/// The exception for text that is not hexadecimal.
pub open spec fn not_hexadecimal(position: nat) -> ErrorView {
    value_error("non-hexadecimal number found in fromhex() arg at position "@ + decimal(position))
}

/// The text without white space.
pub open spec fn without_space(text: Seq<char>) -> Seq<char> {
    text.filter(|c: char| !is_white_space(c))
}

/// The bytes of an even number of hexadecimal digits.
pub open spec fn hex_bytes(digits: Seq<char>) -> Seq<u8> {
    Seq::new(
        digits.len() / 2,
        |k: int| (16 * hex_digit_value(digits[2 * k]) + hex_digit_value(digits[2 * k + 1])) as u8,
    )
}

/// The bytes that hexadecimal text stands for. A character that is neither a digit nor white
/// space is told by its position in the bytes of the text; an odd number of digits by the
/// position of the last digit among the digits.
pub open spec fn fromhex_outcome(text: Seq<char>) -> Result<Seq<u8>, ErrorView> {
    match first_invalid(text, 0) {
        Some(i) => Err(not_hexadecimal(encode_utf8(text.take(i)).len())),
        None => if without_space(text).len() % 2 != 0 {
            Err(not_hexadecimal((without_space(text).len() - 1) as nat))
        } else {
            Ok(hex_bytes(without_space(text)))
        },
    }
}

/// The escape of a byte, or its character where it is printable ASCII. A number below sixteen is
/// written with a leading zero up to eleven, and without one from twelve on.
pub open spec fn escaped(b: u8) -> Seq<char> {
    if b <= 8 {
        "\\x0"@ + seq![digit_char(b as int)]
    } else if b == 9 {
        "\\t"@
    } else if b == 10 {
        "\\n"@
    } else if b == 11 {
        "\\x0"@ + seq![digit_char(11)]
    } else if b == 13 {
        "\\r"@
    } else if 32 <= b <= 126 {
        seq![b as char]
    } else if b < 16 {
        "\\x"@ + seq![digit_char(b as int)]
    } else {
        "\\x"@ + seq![digit_char(b as int / 16), digit_char(b as int % 16)]
    }
}

/// The escapes of all bytes.
pub open spec fn represented(s: Seq<u8>) -> Seq<char>
    decreases s.len(),
{
    if s.len() == 0 {
        Seq::empty()
    } else {
        represented(s.drop_last()) + escaped(s.last())
    }
}

/// Where [`first_invalid`] is.
pub proof fn lemma_first_invalid(text: Seq<char>, i: int)
    requires
        0 <= i,
    ensures
        match first_invalid(text, i) {
            Some(j) => i <= j < text.len() && !is_hex_text(text[j]) && (forall|k: int|
                i <= k < j ==> is_hex_text(text[k])),
            None => forall|k: int| i <= k < text.len() ==> is_hex_text(text[k]),
        },
    decreases text.len() - i,
{
    if i < text.len() && is_hex_text(text[i]) {
        lemma_first_invalid(text, i + 1);
    }
}

/// The characters of a string.
fn characters(string: &str) -> (r: Vec<char>)
    ensures
        r@ == string@,
{
    let mut chars: Vec<char> = Vec::new();
    for c in it: string.chars()
        invariant
            chars@.len() == it.index(),
            forall|j: int| 0 <= j < chars@.len() ==> chars@[j] == it.seq()[j],
            it.seq() == string@,
    {
        chars.push(c);
    }
    assert(chars@ =~= string@);
    chars
}

/// The encoding of one text behind another.
pub proof fn lemma_encode_concat(a: Seq<char>, b: Seq<char>)
    ensures
        encode_utf8(a + b) == encode_utf8(a) + encode_utf8(b),
    decreases a.len(),
{
    if a.len() == 0 {
        assert(a + b =~= b);
        assert(encode_utf8(a) + encode_utf8(b) =~= encode_utf8(b));
    } else {
        assert((a + b).drop_first() =~= a.drop_first() + b);
        lemma_encode_concat(a.drop_first(), b);
        assert(encode_utf8(a + b) =~= encode_utf8(a) + encode_utf8(b));
    }
}

/// The encoding of the text up to one more character.
proof fn lemma_encode_step(text: Seq<char>, i: int)
    requires
        0 <= i < text.len(),
    ensures
        encode_utf8(text.take(i + 1)).len() == encode_utf8(text.take(i)).len() + encode_scalar(
            text[i] as u32,
        ).len(),
        encode_utf8(text.take(i + 1)).len() <= encode_utf8(text).len(),
{
    let one = seq![text[i]];
    assert(text.take(i + 1) =~= text.take(i) + one);
    lemma_encode_concat(text.take(i), one);
    assert(one.drop_first() =~= Seq::empty());
    assert(encode_utf8(one) =~= encode_scalar(text[i] as u32)) by {
        assert(encode_utf8(one.drop_first()) =~= Seq::empty());
    }
    assert(text =~= text.take(i + 1) + text.skip(i + 1));
    lemma_encode_concat(text.take(i + 1), text.skip(i + 1));
}

/// The number of bytes that encode a character.
fn encoded_len(c: char) -> (r: usize)
    ensures
        r == encode_scalar(c as u32).len(),
{
    let u: u32 = c as u32;
    if u <= 0x7f {
        1
    } else if u <= 0x7ff {
        2
    } else if u <= 0xffff {
        3
    } else {
        4
    }
}

/// The exception for text that is not hexadecimal.
fn new_not_hexadecimal(position: usize) -> (e: PyError)
    ensures
        e@ == not_hexadecimal(position as nat),
{
    let mut message: String =
        "non-hexadecimal number found in fromhex() arg at position ".to_owned();
    push_decimal(&mut message, position);
    new_value_error(message)
}

impl PyByteInner {
    /// The hexadecimal digits of the bytes.
    pub fn hex(&self) -> (r: String)
        ensures
            r@ == hex_digits(self@),
    {
        let mut res: String = String::new();
        let mut i: usize = 0;
        assert(res@ =~= hex_digits(self@).take(0));
        while i < self.elements.len()
            invariant
                i <= self@.len(),
                res@ =~= hex_digits(self@).take(2 * i),
            decreases self.elements.len() - i,
        {
            let b: u8 = self.elements[i];
            res.push(digit(b / 16));
            res.push(digit(b % 16));
            i = i + 1;
        }
        assert(res@ =~= hex_digits(self@));
        res
    }

    /// The bytes that hexadecimal text stands for; white space may stand anywhere in it.
    pub fn fromhex(string: &str) -> (r: PyResult<Vec<u8>>)
        ensures
            outcome(r) == fromhex_outcome(string@),
    {
        let chars: Vec<char> = characters(string);
        let ghost text = string@;
        let encoded: &[u8] = string.as_bytes();
        let total: usize = encoded.len();
        // first look for a character that may not stand here
        let mut i: usize = 0;
        let mut position: usize = 0;
        assert(text.take(0) =~= Seq::empty());
        while i < chars.len()
            invariant
                text == chars@,
                text == string@,
                i <= text.len(),
                total == encode_utf8(text).len(),
                position == encode_utf8(text.take(i as int)).len(),
                first_invalid(text, 0) == first_invalid(text, i as int),
            decreases chars.len() - i,
        {
            let c: char = chars[i];
            if !char_is_hex_digit(c) && !char_is_white_space(c) {
                return Err(new_not_hexadecimal(position));
            }
            proof {
                lemma_encode_step(text, i as int);
            }
            position = position + encoded_len(c);
            i = i + 1;
        }
        proof {
            lemma_first_invalid(text, 0);
        }
        // take white space away
        let ghost keep = |c: char| !is_white_space(c);
        let mut digits: Vec<char> = Vec::new();
        i = 0;
        proof {
            reveal(Seq::filter);
            assert(text.take(0).filter(keep) =~= Seq::empty());
        }
        while i < chars.len()
            invariant
                text == chars@,
                i <= text.len(),
                keep == (|c: char| !is_white_space(c)),
                forall|k: int| 0 <= k < text.len() ==> is_hex_text(text[k]),
                digits@ == text.take(i as int).filter(keep),
                forall|k: int| 0 <= k < digits@.len() ==> is_hex_digit(digits@[k]),
            decreases chars.len() - i,
        {
            let c: char = chars[i];
            proof {
                reveal(Seq::filter);
                assert(text.take(i + 1).drop_last() =~= text.take(i as int));
                assert(keep(c) == !is_white_space(c));
            }
            if !char_is_white_space(c) {
                digits.push(c);
            }
            i = i + 1;
        }
        assert(text.take(i as int) =~= text);
        if digits.len() % 2 != 0 {
            return Err(new_not_hexadecimal(digits.len() - 1));
        }
        // two digits make a byte
        let mut res: Vec<u8> = Vec::new();
        i = 0;
        while i < digits.len()
            invariant
                i <= digits@.len(),
                i % 2 == 0,
                digits@.len() % 2 == 0,
                forall|k: int| 0 <= k < digits@.len() ==> is_hex_digit(digits@[k]),
                res@ =~= hex_bytes(digits@).take(i as int / 2),
            decreases digits.len() - i,
        {
            let high: u8 = char_hex_value(digits[i]);
            let low: u8 = char_hex_value(digits[i + 1]);
            res.push(16 * high + low);
            proof {
                assert(2 * (i as int / 2) == i);
                assert(res@ =~= hex_bytes(digits@).take(i as int / 2 + 1));
            }
            i = i + 2;
        }
        assert(res@ =~= hex_bytes(digits@));
        Ok(res)
    }

    /// The bytes as text: printable ASCII as it is, all other bytes escaped.
    pub fn repr(&self) -> (r: PyResult<String>)
        ensures
            r matches Ok(text) && text@ == represented(self@),
    {
        let mut res: String = String::new();
        let mut i: usize = 0;
        assert(self@.take(0) =~= Seq::empty());
        while i < self.elements.len()
            invariant
                i <= self@.len(),
                res@ == represented(self@.take(i as int)),
            decreases self.elements.len() - i,
        {
            let b: u8 = self.elements[i];
            let ghost before = res@;
            if b <= 8 {
                res.append("\\x0");
                res.push(digit(b));
            } else if b == 9 {
                res.append("\\t");
            } else if b == 10 {
                res.append("\\n");
            } else if b == 11 {
                res.append("\\x0");
                res.push(digit(b));
            } else if b == 13 {
                res.append("\\r");
            } else if 32 <= b && b <= 126 {
                res.push(b as char);
            } else if b < 16 {
                res.append("\\x");
                res.push(digit(b));
            } else {
                res.append("\\x");
                res.push(digit(b / 16));
                res.push(digit(b % 16));
            }
            assert(res@ =~= before + escaped(b));
            assert(self@.take(i + 1).drop_last() =~= self@.take(i as int));
            i = i + 1;
        }
        assert(self@.take(i as int) =~= self@);
        Ok(res)
    }
}

} // verus!
