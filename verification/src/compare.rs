//! Comparing and hashing byte strings, and objects that hold one.
use std::borrow::Cow;
use std::collections::hash_map::DefaultHasher;
use std::hash::Hasher;

use vstd::prelude::*;
use vstd::std_specs::hash::DefaultHasherAdditionalSpecFns;

use crate::error::{ErrorView, PyResult, outcome};
use crate::inner::PyByteInner;
use crate::object::{PyComparisonValue, PyObject, bytes_like, bytes_outcome, not_bytes_like};
use crate::search::bytes_equal;

verus! {

/// A hash value.
pub type PyHash = i64;

/// Whether `a` is before `b` in the order of byte strings, both taken from `i` on: the first
/// different byte decides, or the length where one of them starts with the other.
pub open spec fn less_from(a: Seq<u8>, b: Seq<u8>, i: int) -> bool
    decreases b.len() - i,
{
    if i >= b.len() {
        false
    } else if i >= a.len() {
        true
    } else if a[i] == b[i] {
        less_from(a, b, i + 1)
    } else {
        a[i] < b[i]
    }
}

/// Whether `a` is before `b` in the order of byte strings.
pub open spec fn less(a: Seq<u8>, b: Seq<u8>) -> bool {
    less_from(a, b, 0)
}

/// The result of a comparison with an object: none with one that is no byte string.
pub open spec fn comparison(
    other: PyObject,
    result: spec_fn(Seq<u8>) -> bool,
) -> PyComparisonValue {
    match bytes_like(other) {
        Some(b) => PyComparisonValue::Implemented(result(b)),
        None => PyComparisonValue::NotImplemented,
    }
}

/// Whether `op` can give `v` on slices with these bytes.
pub open spec fn can_give<F: Fn(&[u8], &[u8]) -> bool>(
    op: F,
    a: Seq<u8>,
    b: Seq<u8>,
    v: bool,
) -> bool {
    exists|x: &[u8], y: &[u8]| x@ == a && y@ == b && #[trigger] call_ensures(op, (x, y), v)
}

/// The hash value of a byte string: its length, in eight bytes with the lowest one first, and its
/// bytes go into a default hasher.
pub open spec fn hash_value(s: Seq<u8>) -> PyHash {
    DefaultHasher::spec_finish(
        seq![vstd::bytes::spec_u64_to_le_bytes(s.len() as u64), s],
    ) as PyHash
}

/// Whether `a` is before `b` in the order of byte strings.
pub fn bytes_less(a: &[u8], b: &[u8]) -> (r: bool)
    ensures
        r == less(a@, b@),
{
    let mut i: usize = 0;
    while i < a.len() && i < b.len() && a[i] == b[i]
        invariant
            i <= a@.len(),
            i <= b@.len(),
            less(a@, b@) == less_from(a@, b@, i as int),
        decreases a.len() - i,
    {
        i = i + 1;
    }
    if i >= b.len() {
        false
    } else if i >= a.len() {
        true
    } else {
        a[i] < b[i]
    }
}

/// An object that holds a byte string.
#[derive(Debug)]
pub enum PyBytesLike {
    Bytes(PyByteInner),
    Bytearray(PyByteInner),
}

impl View for PyBytesLike {
    type V = Seq<u8>;

    open spec fn view(&self) -> Seq<u8> {
        match self {
            PyBytesLike::Bytes(b) => b@,
            PyBytesLike::Bytearray(b) => b@,
        }
    }
}

impl PyBytesLike {
    /// The byte string of a `bytes` or a `bytearray`, or a `TypeError`.
    pub fn try_from_object(obj: PyObject) -> (r: PyResult<PyBytesLike>)
        ensures
            outcome(r) == (match bytes_like(obj) {
                Some(b) => Ok::<Seq<u8>, ErrorView>(b),
                None => Err(not_bytes_like(obj)),
            }),
            r matches Ok(v) ==> (v is Bytes <==> obj is Bytes),
    {
        match obj {
            PyObject::Bytes(b) => Ok(PyBytesLike::Bytes(PyByteInner { elements: b })),
            PyObject::ByteArray(b) => Ok(PyBytesLike::Bytearray(PyByteInner { elements: b })),
            _ => Err(obj.new_not_bytes_like()),
        }
    }

    /// The bytes, borrowed from a `bytes` and copied from a `bytearray`.
    pub fn to_cow(&self) -> (r: Cow<'_, [u8]>)
        ensures
            r@ == self@,
            r is Borrowed <==> self is Bytes,
    {
        match self {
            PyBytesLike::Bytes(b) => Cow::Borrowed(b.elements.as_slice()),
            PyBytesLike::Bytearray(b) => Cow::Owned(crate::object::copy_bytes(&b.elements)),
        }
    }

    /// What a function makes of the bytes.
    pub fn with_ref<R, F: FnOnce(&[u8]) -> R>(&self, f: F) -> (r: R)
        requires
            forall|b: &[u8]| b@ == self@ ==> #[trigger] call_requires(f, (b,)),
        ensures
            exists|b: &[u8]| b@ == self@ && #[trigger] call_ensures(f, (b,), r),
    {
        match self {
            PyBytesLike::Bytes(b) => f(b.elements.as_slice()),
            PyBytesLike::Bytearray(b) => f(b.elements.as_slice()),
        }
    }
}

impl PyByteInner {
    /// The object as a byte string: the bytes of a bytes-like object, or the integers of a list or
    /// of another iterable.
    pub fn try_from_object(obj: PyObject) -> (r: PyResult<PyByteInner>)
        ensures
            outcome(r) == bytes_outcome(obj),
    {
        match obj.to_bytes() {
            Ok(elements) => Ok(PyByteInner { elements }),
            Err(e) => Err(e),
        }
    }

    /// The result of `op` on this byte string and the one of an object.
    fn cmp<F: Fn(&[u8], &[u8]) -> bool>(&self, other: PyObject, op: F) -> (r: PyComparisonValue)
        requires
            forall|a: &[u8], b: &[u8]| #[trigger] call_requires(op, (a, b)),
        ensures
            match bytes_like(other) {
                Some(b) => r matches PyComparisonValue::Implemented(v) && can_give(op, self@, b, v),
                None => r is NotImplemented,
            },
    {
        let a: &[u8] = self.elements.as_slice();
        let result: Option<bool> = match PyBytesLike::try_from_object(other) {
            Ok(content) => {
                let f = |b: &[u8]| -> (v: bool)
                    ensures
                        call_ensures(op, (a, b), v),
                { op(a, b) };
                Some(content.with_ref(f))
            },
            Err(_) => None,
        };
        PyComparisonValue::from_option(result)
    }

    /// Whether an object holds the same bytes.
    pub fn eq(&self, other: PyObject) -> (r: PyComparisonValue)
        ensures
            r == comparison(other, |b: Seq<u8>| self@ == b),
    {
        let op = |a: &[u8], b: &[u8]| -> (v: bool)
            ensures
                v == (a@ == b@),
        { bytes_equal(a, b) };
        self.cmp(other, op)
    }

    /// Whether this byte string is not before the one of an object.
    pub fn ge(&self, other: PyObject) -> (r: PyComparisonValue)
        ensures
            r == comparison(other, |b: Seq<u8>| !less(self@, b)),
    {
        let op = |a: &[u8], b: &[u8]| -> (v: bool)
            ensures
                v == !less(a@, b@),
        { !bytes_less(a, b) };
        self.cmp(other, op)
    }

    /// Whether this byte string is not behind the one of an object.
    pub fn le(&self, other: PyObject) -> (r: PyComparisonValue)
        ensures
            r == comparison(other, |b: Seq<u8>| !less(b, self@)),
    {
        let op = |a: &[u8], b: &[u8]| -> (v: bool)
            ensures
                v == !less(b@, a@),
        { !bytes_less(b, a) };
        self.cmp(other, op)
    }

    /// Whether this byte string is behind the one of an object.
    pub fn gt(&self, other: PyObject) -> (r: PyComparisonValue)
        ensures
            r == comparison(other, |b: Seq<u8>| less(b, self@)),
    {
        let op = |a: &[u8], b: &[u8]| -> (v: bool)
            ensures
                v == less(b@, a@),
        { bytes_less(b, a) };
        self.cmp(other, op)
    }

    /// Whether this byte string is before the one of an object.
    pub fn lt(&self, other: PyObject) -> (r: PyComparisonValue)
        ensures
            r == comparison(other, |b: Seq<u8>| less(self@, b)),
    {
        let op = |a: &[u8], b: &[u8]| -> (v: bool)
            ensures
                v == less(a@, b@),
        { bytes_less(a, b) };
        self.cmp(other, op)
    }

    /// The hash value of the bytes.
    pub fn hash(&self) -> (r: PyHash)
        ensures
            r == hash_value(self@),
    {
        let mut hasher: DefaultHasher = DefaultHasher::new();
        let len: Vec<u8> = vstd::bytes::u64_to_le_bytes(self.elements.len() as u64);
        hasher.write(&len);
        hasher.write(&self.elements);
        assert(hasher@ =~= seq![vstd::bytes::spec_u64_to_le_bytes(self@.len() as u64), self@]);
        hasher.finish() as PyHash
    }
}

} // verus!
