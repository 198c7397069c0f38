//! Taking bytes away at the ends of a byte string.
use vstd::prelude::*;

use crate::bstring::{
    is_trimmed, is_trimmed_end, is_trimmed_start, lemma_trimmed_end, lemma_trimmed_start, one_of,
    trim, trim_end, trim_end_with, trim_start, trim_start_with, trim_with, trimmed_end,
    trimmed_start, white_space,
};
use crate::inner::PyByteInner;
use crate::object::OptionalArg;

verus! {

/// The bytes to take away, where they are given.
pub open spec fn strip_chars(chars: OptionalArg<Option<PyByteInner>>) -> Option<Seq<u8>> {
    match chars {
        OptionalArg::Present(Some(v)) => Some(v@),
        _ => None,
    }
}

/// `s` without the bytes at its start that `chars` asks to take away: white space where it asks
/// for none.
pub open spec fn left_stripped(s: Seq<u8>, chars: Option<Seq<u8>>) -> Seq<u8> {
    trimmed_start(s, picked(chars))
}

/// `s` without the bytes at its end that `chars` asks to take away: white space where it asks for
/// none.
pub open spec fn right_stripped(s: Seq<u8>, chars: Option<Seq<u8>>) -> Seq<u8> {
    trimmed_end(s, picked(chars))
}

/// The test for the characters to take away.
pub open spec fn picked(chars: Option<Seq<u8>>) -> spec_fn(char) -> bool {
    match chars {
        Some(bytes) => one_of(bytes),
        None => white_space(),
    }
}

impl PyByteInner {
    /// The byte string without the characters at both ends that are white space, or that are in
    /// `chars`.
    pub fn strip(&self, chars: OptionalArg<Option<PyByteInner>>) -> (r: Vec<u8>)
        ensures
            r@ == right_stripped(left_stripped(self@, strip_chars(chars)), strip_chars(chars)),
            is_trimmed(self@, r@, picked(strip_chars(chars))),
            right_stripped(r@, strip_chars(chars)) == r@,
    {
        proof {
            let drop = picked(strip_chars(chars));
            lemma_trimmed_start(self@, drop);
            lemma_trimmed_end(trimmed_start(self@, drop), drop);
        }
        match chars.flat_option() {
            Some(v) => trim_with(&self.elements, &v.elements),
            None => trim(&self.elements),
        }
    }

    /// The byte string without the characters at its start that are white space, or that are in
    /// `chars`.
    pub fn lstrip(&self, chars: OptionalArg<Option<PyByteInner>>) -> (r: Vec<u8>)
        ensures
            r@ == left_stripped(self@, strip_chars(chars)),
            is_trimmed_start(self@, r@, picked(strip_chars(chars))),
            left_stripped(r@, strip_chars(chars)) == r@,
    {
        proof {
            lemma_trimmed_start(self@, picked(strip_chars(chars)));
        }
        match chars.flat_option() {
            Some(v) => trim_start_with(&self.elements, &v.elements),
            None => trim_start(&self.elements),
        }
    }

    /// The byte string without the characters at its end that are white space, or that are in
    /// `chars`.
    pub fn rstrip(&self, chars: OptionalArg<Option<PyByteInner>>) -> (r: Vec<u8>)
        ensures
            r@ == right_stripped(self@, strip_chars(chars)),
            is_trimmed_end(self@, r@, picked(strip_chars(chars))),
            right_stripped(r@, strip_chars(chars)) == r@,
    {
        proof {
            lemma_trimmed_end(self@, picked(strip_chars(chars)));
        }
        match chars.flat_option() {
            Some(v) => trim_end_with(&self.elements, &v.elements),
            None => trim_end(&self.elements),
        }
    }
}

} // verus!
