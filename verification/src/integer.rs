//! Integers of any size, and the arithmetic on them that `num_bigint` does.
use num_bigint::BigInt;
use num_integer::Integer;
use num_traits::{Signed, ToPrimitive, Zero};
use vstd::prelude::*;

use crate::error::{ErrorView, PyResult, new_value_error, outcome, value_error};

verus! {

/// The integer whose two's complement representation, least significant byte first, is `bytes`.
/// The most significant byte carries the sign; no byte at all stands for zero.
pub open spec fn signed_value(bytes: Seq<u8>) -> int
    decreases bytes.len(),
{
    if bytes.len() == 0 {
        0
    } else if bytes.len() == 1 {
        if bytes[0] < 128 {
            bytes[0] as int
        } else {
            bytes[0] - 256
        }
    } else {
        bytes[0] + 256 * signed_value(bytes.drop_first())
    }
}

/// An integer of any size, in two's complement, least significant byte first.
#[derive(Debug, Clone)]
pub struct PyInt {
    pub bytes: Vec<u8>,
}

impl View for PyInt {
    type V = int;

    open spec fn view(&self) -> int {
        signed_value(self.bytes@)
    }
}

/// `ToPrimitive::to_u8` of `num_traits` on a `BigInt`: the integer where a `u8` can hold it.
#[verifier::external_body]
pub(crate) fn big_to_u8(bytes: &[u8]) -> (r: Option<u8>)
    ensures
        r == (if 0 <= signed_value(bytes@) <= u8::MAX {
            Some(signed_value(bytes@) as u8)
        } else {
            None
        }),
{
    BigInt::from_signed_bytes_le(bytes).to_u8()
}

/// `ToPrimitive::to_u32` of `num_traits` on a `BigInt`: the integer where a `u32` can hold it.
#[verifier::external_body]
pub(crate) fn big_to_u32(bytes: &[u8]) -> (r: Option<u32>)
    ensures
        r == (if 0 <= signed_value(bytes@) <= u32::MAX {
            Some(signed_value(bytes@) as u32)
        } else {
            None
        }),
{
    BigInt::from_signed_bytes_le(bytes).to_u32()
}

/// `ToPrimitive::to_i32` of `num_traits` on a `BigInt`: the integer where an `i32` can hold it.
#[verifier::external_body]
pub(crate) fn big_to_i32(bytes: &[u8]) -> (r: Option<i32>)
    ensures
        r == (if i32::MIN <= signed_value(bytes@) <= i32::MAX {
            Some(signed_value(bytes@) as i32)
        } else {
            None
        }),
{
    BigInt::from_signed_bytes_le(bytes).to_i32()
}

/// `ToPrimitive::to_isize` of `num_traits` on a `BigInt`: the integer where an `isize` can hold
/// it.
#[verifier::external_body]
pub(crate) fn big_to_isize(bytes: &[u8]) -> (r: Option<isize>)
    ensures
        r == (if isize::MIN <= signed_value(bytes@) <= isize::MAX {
            Some(signed_value(bytes@) as isize)
        } else {
            None
        }),
{
    BigInt::from_signed_bytes_le(bytes).to_isize()
}

/// `ToPrimitive::to_usize` of `num_traits` on a `BigInt`: the integer where a `usize` can hold
/// it.
#[verifier::external_body]
pub(crate) fn big_to_usize(bytes: &[u8]) -> (r: Option<usize>)
    ensures
        r == (if 0 <= signed_value(bytes@) <= usize::MAX {
            Some(signed_value(bytes@) as usize)
        } else {
            None
        }),
{
    BigInt::from_signed_bytes_le(bytes).to_usize()
}

/// `Zero::is_zero` of `num_traits` on a `BigInt`.
#[verifier::external_body]
pub(crate) fn big_is_zero(bytes: &[u8]) -> (r: bool)
    ensures
        r == (signed_value(bytes@) == 0),
{
    BigInt::from_signed_bytes_le(bytes).is_zero()
}

/// `Signed::is_positive` of `num_traits` on a `BigInt`: whether the integer is above zero.
#[verifier::external_body]
pub(crate) fn big_is_positive(bytes: &[u8]) -> (r: bool)
    ensures
        r == (signed_value(bytes@) > 0),
{
    BigInt::from_signed_bytes_le(bytes).is_positive()
}

/// `Signed::is_negative` of `num_traits` on a `BigInt`: whether the integer is below zero.
#[verifier::external_body]
pub(crate) fn big_is_negative(bytes: &[u8]) -> (r: bool)
    ensures
        r == (signed_value(bytes@) < 0),
{
    BigInt::from_signed_bytes_le(bytes).is_negative()
}

/// The `==` of `BigInt`: whether two integers are equal.
#[verifier::external_body]
pub(crate) fn big_eq(a: &[u8], b: &[u8]) -> (r: bool)
    ensures
        r == (signed_value(a@) == signed_value(b@)),
{
    BigInt::from_signed_bytes_le(a) == BigInt::from_signed_bytes_le(b)
}

/// The `+` of `BigInt`: the sum of two integers.
#[verifier::external_body]
pub(crate) fn big_sum(a: &[u8], b: &[u8]) -> (r: Vec<u8>)
    ensures
        signed_value(r@) == signed_value(a@) + signed_value(b@),
{
    (BigInt::from_signed_bytes_le(a) + BigInt::from_signed_bytes_le(b)).to_signed_bytes_le()
}

/// The unary `-` of `BigInt`: the integer with the other sign.
#[verifier::external_body]
pub(crate) fn big_neg(a: &[u8]) -> (r: Vec<u8>)
    ensures
        signed_value(r@) == -signed_value(a@),
{
    (-BigInt::from_signed_bytes_le(a)).to_signed_bytes_le()
}

/// `BigInt::from` of an `i64`: the same integer.
#[verifier::external_body]
pub(crate) fn big_from_i64(v: i64) -> (r: Vec<u8>)
    ensures
        signed_value(r@) == v,
{
    BigInt::from(v).to_signed_bytes_le()
}

/// `BigInt::from` of a `usize`: the same integer.
#[verifier::external_body]
pub(crate) fn big_from_usize(v: usize) -> (r: Vec<u8>)
    ensures
        signed_value(r@) == v,
{
    BigInt::from(v).to_signed_bytes_le()
}

/// `Integer::is_odd` of `num_integer` on a `usize`.
#[verifier::external_body]
pub(crate) fn usize_is_odd(n: usize) -> (r: bool)
    ensures
        r == (n % 2 == 1),
{
    n.is_odd()
}

/// `ToPrimitive::to_usize` of `num_traits` on an `isize`: the number unless it is negative.
#[verifier::external_body]
pub(crate) fn isize_to_usize(n: isize) -> (r: Option<usize>)
    ensures
        r == (if n >= 0 {
            Some(n as usize)
        } else {
            None
        }),
{
    n.to_usize()
}

impl PyInt {
    /// The integer of a machine word.
    pub fn new(value: i64) -> (r: PyInt)
        ensures
            r@ == value,
    {
        PyInt { bytes: big_from_i64(value) }
    }

    /// The integer of a byte.
    pub fn from_byte(value: u8) -> (r: PyInt)
        ensures
            r@ == value,
    {
        let bytes: Vec<u8> = vec![value, 0u8];
        proof {
            assert(bytes@.drop_first() =~= seq![0u8]);
            assert(signed_value(seq![0u8]) == 0);
        }
        PyInt { bytes }
    }
}

/// What [`ByteOr::byte_or`] gives for an integer.
pub open spec fn byte_outcome(v: int) -> Result<u8, ErrorView> {
    if 0 <= v <= u8::MAX {
        Ok(v as u8)
    } else {
        Err(value_error("byte must be in range(0, 256)"@))
    }
}

/// Integers that may stand for one byte.
pub trait ByteOr {
    /// The integer.
    spec fn int_value(&self) -> int;

    /// The integer as a byte, where it is one.
    fn to_u8(&self) -> (r: Option<u8>)
        ensures
            r == (if 0 <= self.int_value() <= u8::MAX {
                Some(self.int_value() as u8)
            } else {
                None
            }),
    ;

    /// The integer as a byte, or a `ValueError`.
    fn byte_or(&self) -> (r: PyResult<u8>)
        ensures
            outcome(r) == byte_outcome(self.int_value()),
    {
        match self.to_u8() {
            Some(value) => Ok(value),
            None => Err(new_value_error("byte must be in range(0, 256)".to_owned())),
        }
    }
}

impl ByteOr for PyInt {
    open spec fn int_value(&self) -> int {
        self@
    }

    fn to_u8(&self) -> (r: Option<u8>) {
        big_to_u8(&self.bytes)
    }
}

} // verus!
