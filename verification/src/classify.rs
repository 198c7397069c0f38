//! Questions on the bytes of a byte string, each byte taken as the character of its number.
use vstd::prelude::*;

use crate::inner::PyByteInner;

verus! {

/// Whether the character of a byte is an uppercase letter.
pub open spec fn is_upper(b: u8) -> bool {
    ||| 0x41 <= b <= 0x5a
    ||| 0xc0 <= b <= 0xde && b != 0xd7
}

/// Whether the character of a byte is lowercase.
pub open spec fn is_lower(b: u8) -> bool {
    ||| 0x61 <= b <= 0x7a
    ||| b == 0xaa
    ||| b == 0xb5
    ||| b == 0xba
    ||| 0xdf <= b <= 0xff && b != 0xf7
}

/// Whether the character of a byte is alphabetic.
pub open spec fn is_alphabetic(b: u8) -> bool {
    is_upper(b) || is_lower(b)
}

/// Whether a byte is one of the digits `0` to `9`.
pub open spec fn is_digit(b: u8) -> bool {
    0x30 <= b <= 0x39
}

/// Whether the character of a byte is numeric: a digit, a superscript digit or a fraction.
pub open spec fn is_numeric(b: u8) -> bool {
    is_digit(b) || b == 0xb2 || b == 0xb3 || b == 0xb9 || 0xbc <= b <= 0xbe
}

/// Whether a byte is ASCII white space: a tab, a line feed, a form feed, a carriage return or a
/// space.
pub open spec fn is_ascii_space(b: u8) -> bool {
    b == 9 || b == 10 || b == 12 || b == 13 || b == 32
}

/// Whether the character of a byte has another form in the other case.
pub open spec fn is_cased(b: u8) -> bool {
    is_alphabetic(b) && b != 0xaa && b != 0xba
}

/// Whether all bytes of a byte string that is not empty satisfy `p`.
pub open spec fn all_bytes(s: Seq<u8>, p: spec_fn(u8) -> bool) -> bool {
    s.len() > 0 && forall|i: int| 0 <= i < s.len() ==> p(#[trigger] s[i])
}

/// Whether some byte of a byte string satisfies `p`.
pub open spec fn some_byte(s: Seq<u8>, p: spec_fn(u8) -> bool) -> bool {
    exists|i: int| 0 <= i < s.len() && p(#[trigger] s[i])
}

/// Whether the byte before `i` has case.
pub open spec fn cased_before(s: Seq<u8>, i: int) -> bool {
    i > 0 && is_cased(s[i - 1])
}

/// Whether the bytes at `i` and after it break the title case: an uppercase letter right after
/// the first cased byte of a run, or a lowercase letter after a byte without case.
pub open spec fn breaks_title(s: Seq<u8>, i: int) -> bool {
    ||| is_cased(s[i]) && is_upper(s[i + 1]) && !cased_before(s, i)
    ||| !is_cased(s[i]) && is_lower(s[i + 1])
}

/// Whether a byte string is in title case: no byte breaks it, and the last byte is an uppercase
/// letter after a byte without case, or another byte after one with case.
pub open spec fn is_title(s: Seq<u8>) -> bool {
    &&& s.len() > 0
    &&& forall|i: int| 0 <= i < s.len() - 1 ==> !breaks_title(s, i)
    &&& is_upper(s.last()) != cased_before(s, s.len() - 1)
}

/// Whether the character of a byte is an uppercase letter.
pub fn byte_is_upper(b: u8) -> (r: bool)
    ensures
        r == is_upper(b),
{
    (0x41 <= b && b <= 0x5a) || (0xc0 <= b && b <= 0xde && b != 0xd7)
}

/// Whether the character of a byte is lowercase.
pub fn byte_is_lower(b: u8) -> (r: bool)
    ensures
        r == is_lower(b),
{
    (0x61 <= b && b <= 0x7a) || b == 0xaa || b == 0xb5 || b == 0xba || (0xdf <= b && b != 0xf7)
}

/// Whether the character of a byte is alphabetic.
pub fn byte_is_alphabetic(b: u8) -> (r: bool)
    ensures
        r == is_alphabetic(b),
{
    byte_is_upper(b) || byte_is_lower(b)
}

/// Whether a byte is a digit.
pub fn byte_is_digit(b: u8) -> (r: bool)
    ensures
        r == is_digit(b),
{
    0x30 <= b && b <= 0x39
}

/// Whether the character of a byte is numeric.
pub fn byte_is_numeric(b: u8) -> (r: bool)
    ensures
        r == is_numeric(b),
{
    byte_is_digit(b) || b == 0xb2 || b == 0xb3 || b == 0xb9 || (0xbc <= b && b <= 0xbe)
}

/// Whether a byte is ASCII white space.
pub fn byte_is_ascii_space(b: u8) -> (r: bool)
    ensures
        r == is_ascii_space(b),
{
    b == 9 || b == 10 || b == 12 || b == 13 || b == 32
}

/// Whether the character of a byte has another form in the other case.
pub fn byte_is_cased(b: u8) -> (r: bool)
    ensures
        r == is_cased(b),
{
    byte_is_alphabetic(b) && b != 0xaa && b != 0xba
}

impl PyByteInner {
    /// Whether there are bytes and all are letters or numbers.
    pub fn isalnum(&self) -> (r: bool)
        ensures
            r == all_bytes(self@, |b: u8| is_alphabetic(b) || is_numeric(b)),
    {
        if self.elements.is_empty() {
            return false;
        }
        let mut i: usize = 0;
        while i < self.elements.len()
            invariant
                i <= self@.len(),
                forall|j: int|
                    0 <= j < i ==> is_alphabetic(#[trigger] self@[j]) || is_numeric(self@[j]),
            decreases self.elements.len() - i,
        {
            if !(byte_is_alphabetic(self.elements[i]) || byte_is_numeric(self.elements[i])) {
                return false;
            }
            i = i + 1;
        }
        true
    }

    /// Whether there are bytes and all are letters.
    pub fn isalpha(&self) -> (r: bool)
        ensures
            r == all_bytes(self@, |b: u8| is_alphabetic(b)),
    {
        if self.elements.is_empty() {
            return false;
        }
        let mut i: usize = 0;
        while i < self.elements.len()
            invariant
                i <= self@.len(),
                forall|j: int| 0 <= j < i ==> is_alphabetic(#[trigger] self@[j]),
            decreases self.elements.len() - i,
        {
            if !byte_is_alphabetic(self.elements[i]) {
                return false;
            }
            i = i + 1;
        }
        true
    }

    /// Whether all bytes are ASCII.
    pub fn isascii(&self) -> (r: bool)
        ensures
            r == (forall|i: int| 0 <= i < self@.len() ==> #[trigger] self@[i] < 128),
    {
        let mut i: usize = 0;
        while i < self.elements.len()
            invariant
                i <= self@.len(),
                forall|j: int| 0 <= j < i ==> #[trigger] self@[j] < 128,
            decreases self.elements.len() - i,
        {
            if self.elements[i] >= 128 {
                return false;
            }
            i = i + 1;
        }
        true
    }

    /// Whether there are bytes and all are digits.
    pub fn isdigit(&self) -> (r: bool)
        ensures
            r == all_bytes(self@, |b: u8| is_digit(b)),
    {
        if self.elements.is_empty() {
            return false;
        }
        let mut i: usize = 0;
        while i < self.elements.len()
            invariant
                i <= self@.len(),
                forall|j: int| 0 <= j < i ==> is_digit(#[trigger] self@[j]),
            decreases self.elements.len() - i,
        {
            if !byte_is_digit(self.elements[i]) {
                return false;
            }
            i = i + 1;
        }
        true
    }

    /// Whether some byte is lowercase and none is uppercase.
    pub fn islower(&self) -> (r: bool)
        ensures
            r == (some_byte(self@, |b: u8| is_lower(b)) && !some_byte(self@, |b: u8| is_upper(b))),
    {
        let ghost low = |b: u8| is_lower(b);
        let ghost up = |b: u8| is_upper(b);
        let mut cased: bool = false;
        let mut i: usize = 0;
        while i < self.elements.len()
            invariant
                i <= self@.len(),
                low == (|b: u8| is_lower(b)),
                up == (|b: u8| is_upper(b)),
                cased == (exists|j: int| 0 <= j < i && low(#[trigger] self@[j])),
                forall|j: int| 0 <= j < i ==> !up(#[trigger] self@[j]),
            decreases self.elements.len() - i,
        {
            let b: u8 = self.elements[i];
            assert(low(self@[i as int]) == is_lower(b));
            assert(up(self@[i as int]) == is_upper(b));
            if byte_is_upper(b) {
                return false;
            } else if !cased && byte_is_lower(b) {
                cased = true;
            }
            i = i + 1;
        }
        cased
    }

    /// Whether some byte is uppercase and none is lowercase.
    pub fn isupper(&self) -> (r: bool)
        ensures
            r == (some_byte(self@, |b: u8| is_upper(b)) && !some_byte(self@, |b: u8| is_lower(b))),
    {
        let ghost low = |b: u8| is_lower(b);
        let ghost up = |b: u8| is_upper(b);
        let mut cased: bool = false;
        let mut i: usize = 0;
        while i < self.elements.len()
            invariant
                i <= self@.len(),
                low == (|b: u8| is_lower(b)),
                up == (|b: u8| is_upper(b)),
                cased == (exists|j: int| 0 <= j < i && up(#[trigger] self@[j])),
                forall|j: int| 0 <= j < i ==> !low(#[trigger] self@[j]),
            decreases self.elements.len() - i,
        {
            let b: u8 = self.elements[i];
            assert(low(self@[i as int]) == is_lower(b));
            assert(up(self@[i as int]) == is_upper(b));
            if byte_is_lower(b) {
                return false;
            } else if !cased && byte_is_upper(b) {
                cased = true;
            }
            i = i + 1;
        }
        cased
    }

    /// Whether there are bytes and all are ASCII white space.
    pub fn isspace(&self) -> (r: bool)
        ensures
            r == all_bytes(self@, |b: u8| is_ascii_space(b)),
    {
        if self.elements.is_empty() {
            return false;
        }
        let mut i: usize = 0;
        while i < self.elements.len()
            invariant
                i <= self@.len(),
                forall|j: int| 0 <= j < i ==> is_ascii_space(#[trigger] self@[j]),
            decreases self.elements.len() - i,
        {
            if !byte_is_ascii_space(self.elements[i]) {
                return false;
            }
            i = i + 1;
        }
        true
    }

    /// Whether the byte string is in title case.
    pub fn istitle(&self) -> (r: bool)
        ensures
            r == is_title(self@),
    {
        if self.elements.is_empty() {
            return false;
        }
        let mut prev_cased: bool = false;
        let mut i: usize = 0;
        while i < self.elements.len() - 1
            invariant
                i < self@.len(),
                prev_cased == cased_before(self@, i as int),
                forall|j: int| 0 <= j < i ==> !breaks_title(self@, j),
            decreases self.elements.len() - i,
        {
            let current: u8 = self.elements[i];
            let next: u8 = self.elements[i + 1];
            let cased: bool = byte_is_cased(current);
            if (cased && byte_is_upper(next) && !prev_cased) || (!cased && byte_is_lower(next)) {
                assert(breaks_title(self@, i as int));
                return false;
            }
            prev_cased = cased;
            i = i + 1;
        }
        let last: u8 = self.elements[i];
        if byte_is_upper(last) {
            !prev_cased
        } else {
            prev_cased
        }
    }
}

} // verus!
