//! Changing the case of ASCII letters.
use vstd::prelude::*;

use crate::inner::PyByteInner;

verus! {

/// Whether a byte is an ASCII letter.
pub open spec fn is_letter(b: u8) -> bool {
    65 <= b <= 90 || 97 <= b <= 122
}

/// An ASCII letter in lowercase; any other byte as it is.
pub open spec fn lower_byte(b: u8) -> u8 {
    if 65 <= b <= 90 {
        (b + 32) as u8
    } else {
        b
    }
}

/// An ASCII letter in uppercase; any other byte as it is.
pub open spec fn upper_byte(b: u8) -> u8 {
    if 97 <= b <= 122 {
        (b - 32) as u8
    } else {
        b
    }
}

/// An ASCII letter in the other case; any other byte as it is.
pub open spec fn swapped_byte(b: u8) -> u8 {
    if 65 <= b <= 90 {
        lower_byte(b)
    } else {
        upper_byte(b)
    }
}

/// All ASCII letters in lowercase.
pub open spec fn lowered(s: Seq<u8>) -> Seq<u8> {
    s.map_values(|b: u8| lower_byte(b))
}

/// All ASCII letters in uppercase.
pub open spec fn uppered(s: Seq<u8>) -> Seq<u8> {
    s.map_values(|b: u8| upper_byte(b))
}

/// All ASCII letters in the other case.
pub open spec fn swapped(s: Seq<u8>) -> Seq<u8> {
    s.map_values(|b: u8| swapped_byte(b))
}

/// The first byte in uppercase, all others in lowercase.
pub open spec fn capitalized(s: Seq<u8>) -> Seq<u8> {
    Seq::new(
        s.len(),
        |i: int|
            if i == 0 {
                upper_byte(s[i])
            } else {
                lower_byte(s[i])
            },
    )
}

/// The first letter of each run of letters in uppercase, all others in lowercase.
pub open spec fn titled(s: Seq<u8>) -> Seq<u8> {
    Seq::new(
        s.len(),
        |i: int|
            if i > 0 && is_letter(s[i - 1]) {
                lower_byte(s[i])
            } else {
                upper_byte(s[i])
            },
    )
}

/// A byte in lowercase.
pub fn to_lower(b: u8) -> (r: u8)
    ensures
        r == lower_byte(b),
{
    if 65 <= b && b <= 90 {
        b + 32
    } else {
        b
    }
}

/// A byte in uppercase.
pub fn to_upper(b: u8) -> (r: u8)
    ensures
        r == upper_byte(b),
{
    if 97 <= b && b <= 122 {
        b - 32
    } else {
        b
    }
}

impl PyByteInner {
    /// The byte string in lowercase.
    pub fn lower(&self) -> (r: Vec<u8>)
        ensures
            r@ == lowered(self@),
    {
        let mut new: Vec<u8> = Vec::with_capacity(self.elements.len());
        let mut i: usize = 0;
        while i < self.elements.len()
            invariant
                i <= self@.len(),
                new@ =~= lowered(self@).take(i as int),
            decreases self.elements.len() - i,
        {
            new.push(to_lower(self.elements[i]));
            i = i + 1;
        }
        assert(new@ =~= lowered(self@));
        new
    }

    /// The byte string in uppercase.
    pub fn upper(&self) -> (r: Vec<u8>)
        ensures
            r@ == uppered(self@),
    {
        let mut new: Vec<u8> = Vec::with_capacity(self.elements.len());
        let mut i: usize = 0;
        while i < self.elements.len()
            invariant
                i <= self@.len(),
                new@ =~= uppered(self@).take(i as int),
            decreases self.elements.len() - i,
        {
            new.push(to_upper(self.elements[i]));
            i = i + 1;
        }
        assert(new@ =~= uppered(self@));
        new
    }

    /// The byte string with its first byte in uppercase and the others in lowercase.
    pub fn capitalize(&self) -> (r: Vec<u8>)
        ensures
            r@ == capitalized(self@),
    {
        let mut new: Vec<u8> = Vec::with_capacity(self.elements.len());
        let mut i: usize = 0;
        while i < self.elements.len()
            invariant
                i <= self@.len(),
                new@ =~= capitalized(self@).take(i as int),
            decreases self.elements.len() - i,
        {
            if i == 0 {
                new.push(to_upper(self.elements[i]));
            } else {
                new.push(to_lower(self.elements[i]));
            }
            i = i + 1;
        }
        assert(new@ =~= capitalized(self@));
        new
    }

    /// The byte string with its letters in the other case.
    pub fn swapcase(&self) -> (r: Vec<u8>)
        ensures
            r@ == swapped(self@),
    {
        let mut new: Vec<u8> = Vec::with_capacity(self.elements.len());
        let mut i: usize = 0;
        while i < self.elements.len()
            invariant
                i <= self@.len(),
                new@ =~= swapped(self@).take(i as int),
            decreases self.elements.len() - i,
        {
            let b: u8 = self.elements[i];
            if 65 <= b && b <= 90 {
                new.push(to_lower(b));
            } else if 97 <= b && b <= 122 {
                new.push(to_upper(b));
            } else {
                new.push(b);
            }
            i = i + 1;
        }
        assert(new@ =~= swapped(self@));
        new
    }

    /// The byte string with each run of letters capitalized.
    pub fn title(&self) -> (r: Vec<u8>)
        ensures
            r@ == titled(self@),
    {
        let mut res: Vec<u8> = Vec::new();
        let mut spaced: bool = true;
        let mut i: usize = 0;
        while i < self.elements.len()
            invariant
                i <= self@.len(),
                spaced == !(i > 0 && is_letter(self@[i - 1])),
                res@ =~= titled(self@).take(i as int),
            decreases self.elements.len() - i,
        {
            let b: u8 = self.elements[i];
            if (65 <= b && b <= 90) || (97 <= b && b <= 122) {
                if spaced {
                    res.push(to_upper(b));
                    spaced = false;
                } else {
                    res.push(to_lower(b));
                }
            } else {
                res.push(b);
                spaced = true;
            }
            i = i + 1;
        }
        assert(res@ =~= titled(self@));
        res
    }
}

} // verus!
