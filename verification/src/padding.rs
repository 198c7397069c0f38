//! Filling a byte string up to a width.
use vstd::prelude::*;
use vstd::slice::{slice_subrange, slice_to_vec};

use crate::error::PyResult;
use crate::inner::PyByteInner;
use crate::integer::{isize_to_usize, usize_is_odd};
use crate::options::{ByteInnerPaddingOptions, fill_outcome, missing};

verus! {

/// `n` times the byte `b`.
pub open spec fn fill(b: u8, n: int) -> Seq<u8> {
    Seq::new(n as nat, |k: int| b)
}

/// How many of `diff` bytes to put before a byte string of the length `len` to center it. Of an
/// odd number one more goes before a byte string of even length, and one more behind one of odd
/// length.
pub open spec fn left_share(diff: int, len: int) -> int {
    if diff % 2 == 1 && len % 2 == 0 {
        diff / 2 + 1
    } else {
        diff / 2
    }
}

/// `s` between bytes `b` that fill it up to a width.
pub open spec fn centered(s: Seq<u8>, b: u8, diff: int) -> Seq<u8> {
    let left = left_share(diff, s.len() as int);
    fill(b, left) + s + fill(b, diff - left)
}

/// Whether a byte string of the length `len` can be filled up to a width: where it is shorter, the
/// width must not be more than a vector can hold.
pub open spec fn can_fill(width: int, len: int) -> bool {
    missing(width, len) > 0 ==> width <= isize::MAX
}

/// Whether a byte starts a number as its sign.
pub open spec fn is_sign(b: u8) -> bool {
    b == 43 || b == 45
}

/// `s` with zeros before it, behind its sign where it has one, that fill it up to a width.
pub open spec fn zero_filled(s: Seq<u8>, width: int) -> Seq<u8> {
    if width <= s.len() {
        s
    } else if s.len() > 0 && is_sign(s[0]) {
        s.take(1) + fill(48, width - s.len()) + s.skip(1)
    } else {
        fill(48, width - s.len()) + s
    }
}

/// `n` times the byte `b`.
pub fn filled(b: u8, n: usize) -> (r: Vec<u8>)
    ensures
        r@ == fill(b, n as int),
{
    let v: Vec<u8> = vec![b; n];
    assert(v@ =~= fill(b, n as int));
    v
}

impl PyByteInner {
    /// The byte string in the middle of a width.
    pub fn center(&self, options: ByteInnerPaddingOptions) -> (r: PyResult<Vec<u8>>)
        requires
            can_fill(options.width@, self@.len() as int),
        ensures
            match (r, fill_outcome("center"@, options.fillbyte)) {
                (Ok(v), Ok(b)) => v@ == centered(
                    self@,
                    b,
                    missing(options.width@, self@.len() as int),
                ),
                (Err(e), Err(f)) => e@ == f,
                _ => false,
            },
    {
        let (b, diff): (u8, usize) = match options.get_value("center", self.elements.len()) {
            Ok(v) => v,
            Err(e) => return Err(e),
        };
        let mut ln: usize = diff / 2;
        let mut rn: usize = ln;
        if usize_is_odd(diff) && self.elements.len() % 2 == 0 {
            ln = ln + 1;
        }
        if usize_is_odd(diff) && self.elements.len() % 2 != 0 {
            rn = rn + 1;
        }
        let mut res: Vec<u8> = filled(b, ln);
        res.extend_from_slice(&self.elements);
        let mut back: Vec<u8> = filled(b, rn);
        res.append(&mut back);
        assert(res@ =~= centered(self@, b, diff as int));
        Ok(res)
    }

    /// The byte string at the left end of a width.
    pub fn ljust(&self, options: ByteInnerPaddingOptions) -> (r: PyResult<Vec<u8>>)
        requires
            can_fill(options.width@, self@.len() as int),
        ensures
            match (r, fill_outcome("ljust"@, options.fillbyte)) {
                (Ok(v), Ok(b)) => v@ == self@ + fill(
                    b,
                    missing(options.width@, self@.len() as int),
                ),
                (Err(e), Err(f)) => e@ == f,
                _ => false,
            },
    {
        let (b, diff): (u8, usize) = match options.get_value("ljust", self.elements.len()) {
            Ok(v) => v,
            Err(e) => return Err(e),
        };
        let mut res: Vec<u8> = slice_to_vec(self.elements.as_slice());
        let mut back: Vec<u8> = filled(b, diff);
        res.append(&mut back);
        Ok(res)
    }

    /// The byte string at the right end of a width.
    pub fn rjust(&self, options: ByteInnerPaddingOptions) -> (r: PyResult<Vec<u8>>)
        requires
            can_fill(options.width@, self@.len() as int),
        ensures
            match (r, fill_outcome("rjust"@, options.fillbyte)) {
                (Ok(v), Ok(b)) => v@ == fill(b, missing(options.width@, self@.len() as int))
                    + self@,
                (Err(e), Err(f)) => e@ == f,
                _ => false,
            },
    {
        let (b, diff): (u8, usize) = match options.get_value("rjust", self.elements.len()) {
            Ok(v) => v,
            Err(e) => return Err(e),
        };
        let mut res: Vec<u8> = filled(b, diff);
        res.extend_from_slice(&self.elements);
        assert(res@ =~= fill(b, diff as int) + self@);
        Ok(res)
    }

    /// The byte string with zeros before it, behind its sign, up to a width. A negative width
    /// asks for none.
    pub fn zfill(&self, width: isize) -> (r: Vec<u8>)
        ensures
            r@ == zero_filled(self@, width as int),
    {
        let w: usize = match isize_to_usize(width) {
            Some(w) => w,
            None => 0,
        };
        bytes_zfill(&self.elements, w)
    }
}

/// A byte string with zeros before it, behind its sign, up to a width.
pub fn bytes_zfill(bytes: &[u8], width: usize) -> (r: Vec<u8>)
    requires
        can_fill(width as int, bytes@.len() as int),
    ensures
        r@ == zero_filled(bytes@, width as int),
{
    let len: usize = bytes.len();
    if width <= len {
        return slice_to_vec(bytes);
    }
    let sign: usize = if len > 0 && (bytes[0] == 43 || bytes[0] == 45) {
        1
    } else {
        0
    };
    let mut res: Vec<u8> = slice_to_vec(slice_subrange(bytes, 0, sign));
    let mut zeros: Vec<u8> = filled(48, width - len);
    res.append(&mut zeros);
    res.extend_from_slice(slice_subrange(bytes, sign, len));
    assert(res@ =~= zero_filled(bytes@, width as int));
    res
}

} // verus!
