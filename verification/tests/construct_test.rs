use std::borrow::Cow;
use std::collections::hash_map::DefaultHasher;
use std::hash::{Hash, Hasher};

use pybytes::compare::PyBytesLike;
use pybytes::construct::ByteInnerNewOptions;
use pybytes::error::{ErrorKind, PyError, PyResult};
use pybytes::inner::PyByteInner;
use pybytes::integer::{ByteOr, PyInt};
use pybytes::object::{OptionalArg, PyComparisonValue, PyInstance, PyObject};
use pybytes::options::try_as_byte;

fn bytes(b: &[u8]) -> PyByteInner {
    PyByteInner { elements: b.to_vec() }
}

fn integer(v: i64) -> PyObject {
    PyObject::Int(PyInt::new(v))
}

fn plain_instance(name: &str) -> PyInstance {
    PyInstance {
        class_name: name.to_owned(),
        bytes_method: None,
        iter_method: None,
        index_method: None,
    }
}

fn failure(message: &str) -> PyError {
    PyError { kind: ErrorKind::Exception, message: message.to_owned() }
}

fn encode(text: &String, encoding: &String) -> PyResult<Vec<u8>> {
    if encoding == "utf-8" {
        Ok(text.as_bytes().to_vec())
    } else {
        Err(failure("unknown encoding"))
    }
}

fn to_int(o: &PyObject) -> PyResult<PyInt> {
    match o {
        PyObject::Int(i) => Ok(i.copy()),
        PyObject::Str(s) => Ok(PyInt::new(s.parse::<i64>().unwrap())),
        _ => Err(failure("no integer")),
    }
}

fn make(value: OptionalArg<PyObject>, encoding: OptionalArg<String>) -> PyResult<PyByteInner> {
    ByteInnerNewOptions { val_option: value, encoding }.get_value(encode, to_int)
}

fn made(value: PyObject) -> PyResult<PyByteInner> {
    make(OptionalArg::Present(value), OptionalArg::Missing)
}

fn check_error(r: PyResult<PyByteInner>, kind: ErrorKind, message: &str) {
    let e = r.unwrap_err();
    assert_eq!(e.kind, kind);
    assert_eq!(e.message, message);
}

#[test]
fn new_without_arguments_is_empty() {
    let r = make(OptionalArg::Missing, OptionalArg::Missing).unwrap();
    assert_eq!(r.elements, Vec::<u8>::new());
    assert_eq!(r.len(), 0);
}

#[test]
fn new_encodes_a_string() {
    let r = make(
        OptionalArg::Present(PyObject::Str("h\u{e9}".to_owned())),
        OptionalArg::Present("utf-8".to_owned()),
    );
    assert_eq!(r.unwrap().elements, b"h\xc3\xa9".to_vec());
    let r = make(
        OptionalArg::Present(PyObject::Str("a".to_owned())),
        OptionalArg::Present("nope".to_owned()),
    );
    check_error(r, ErrorKind::Exception, "unknown encoding");
}

#[test]
fn new_refuses_an_encoding_without_a_string() {
    let r = make(OptionalArg::Present(integer(3)), OptionalArg::Present("utf-8".to_owned()));
    check_error(r, ErrorKind::TypeError, "encoding without a string argument");
    let r = make(OptionalArg::Missing, OptionalArg::Present("utf-8".to_owned()));
    check_error(r, ErrorKind::TypeError, "encoding without a string argument");
}

#[test]
fn new_refuses_a_string_without_an_encoding() {
    check_error(
        made(PyObject::Str("a".to_owned())),
        ErrorKind::TypeError,
        "string argument without an encoding",
    );
}

#[test]
fn new_makes_zeros_of_a_number() {
    assert_eq!(made(integer(4)).unwrap().elements, vec![0u8; 4]);
    assert_eq!(made(integer(0)).unwrap().elements, Vec::<u8>::new());
    check_error(made(integer(-1)), ErrorKind::ValueError, "negative count");
    let big = PyObject::Int(PyInt { bytes: vec![0, 0, 0, 0, 0, 0, 0, 0, 1] });
    check_error(
        made(big),
        ErrorKind::OverflowError,
        "cannot fit 'int' into an index-sized integer",
    );
}

#[test]
fn new_copies_byte_strings() {
    assert_eq!(made(PyObject::Bytes(vec![1, 2])).unwrap().elements, vec![1, 2]);
    assert_eq!(made(PyObject::ByteArray(vec![3])).unwrap().elements, vec![3]);
    assert_eq!(made(PyObject::MemoryView(vec![4, 5])).unwrap().elements, vec![4, 5]);
}

#[test]
fn new_converts_the_elements_of_an_iterable() {
    let list = PyObject::List(vec![integer(0), integer(255), PyObject::Str("65".to_owned())]);
    assert_eq!(made(list).unwrap().elements, vec![0, 255, 65]);
    let tuple = PyObject::Tuple(vec![integer(7)]);
    assert_eq!(made(tuple).unwrap().elements, vec![7]);
    let mut i = plain_instance("Numbers");
    i.iter_method = Some(Ok(vec![Ok(integer(9)), Ok(integer(8))]));
    assert_eq!(made(PyObject::Instance(Box::new(i))).unwrap().elements, vec![9, 8]);
}

#[test]
fn new_refuses_elements_that_are_no_bytes() {
    check_error(
        made(PyObject::List(vec![integer(1), integer(256)])),
        ErrorKind::ValueError,
        "bytes must be in range(0, 256)",
    );
    check_error(
        made(PyObject::List(vec![integer(-1)])),
        ErrorKind::ValueError,
        "bytes must be in range(0, 256)",
    );
    check_error(
        made(PyObject::List(vec![integer(1), PyObject::NoneObject, integer(300)])),
        ErrorKind::Exception,
        "no integer",
    );
}

#[test]
fn new_refuses_an_object_without_elements() {
    check_error(
        made(PyObject::NoneObject),
        ErrorKind::TypeError,
        "cannot convert 'NoneType' object to bytes",
    );
    check_error(
        made(PyObject::Instance(Box::new(plain_instance("Stone")))),
        ErrorKind::TypeError,
        "cannot convert 'Stone' object to bytes",
    );
    let mut i = plain_instance("Broken");
    i.iter_method = Some(Ok(vec![Ok(integer(1)), Err(failure("stop"))]));
    check_error(
        made(PyObject::Instance(Box::new(i))),
        ErrorKind::TypeError,
        "cannot convert 'Broken' object to bytes",
    );
}

#[test]
fn new_asks_the_bytes_method_first() {
    let mut i = plain_instance("Both");
    i.bytes_method = Some(Ok(PyObject::Bytes(b"xy".to_vec())));
    i.iter_method = Some(Ok(vec![Ok(integer(1))]));
    assert_eq!(made(PyObject::Instance(Box::new(i))).unwrap().elements, b"xy".to_vec());
    let mut i = plain_instance("Fails");
    i.bytes_method = Some(Err(failure("no bytes")));
    check_error(made(PyObject::Instance(Box::new(i))), ErrorKind::Exception, "no bytes");
}

#[test]
fn try_from_object_takes_byte_strings_and_iterables() {
    let r = PyByteInner::try_from_object(PyObject::Bytes(vec![1]));
    assert_eq!(r.unwrap().elements, vec![1]);
    let r = PyByteInner::try_from_object(PyObject::ByteArray(vec![2]));
    assert_eq!(r.unwrap().elements, vec![2]);
    let r = PyByteInner::try_from_object(PyObject::MemoryView(vec![3]));
    assert_eq!(r.unwrap().elements, vec![3]);
    let r = PyByteInner::try_from_object(PyObject::List(vec![integer(4), integer(5)]));
    assert_eq!(r.unwrap().elements, vec![4, 5]);
    let r = PyByteInner::try_from_object(PyObject::Tuple(vec![integer(6)]));
    assert_eq!(r.unwrap().elements, vec![6]);
    let mut i = plain_instance("Numbers");
    i.iter_method = Some(Ok(vec![Ok(integer(7))]));
    let r = PyByteInner::try_from_object(PyObject::Instance(Box::new(i)));
    assert_eq!(r.unwrap().elements, vec![7]);
}

#[test]
fn try_from_object_tells_what_is_wrong() {
    check_error(
        PyByteInner::try_from_object(integer(3)),
        ErrorKind::TypeError,
        "a bytes-like object is required, not int",
    );
    check_error(
        PyByteInner::try_from_object(PyObject::List(vec![integer(256)])),
        ErrorKind::ValueError,
        "bytes must be in range (0, 256)",
    );
    check_error(
        PyByteInner::try_from_object(PyObject::Tuple(vec![integer(256)])),
        ErrorKind::OverflowError,
        "Int value cannot fit into Rust u8",
    );
    check_error(
        PyByteInner::try_from_object(PyObject::Tuple(vec![PyObject::NoneObject])),
        ErrorKind::TypeError,
        "Expected type int, not NoneType",
    );
    check_error(
        PyByteInner::try_from_object(PyObject::Str("a".to_owned())),
        ErrorKind::TypeError,
        "Expected type int, not str",
    );
    let mut i = plain_instance("Broken");
    i.iter_method = Some(Ok(vec![Ok(integer(1)), Err(failure("stop"))]));
    check_error(
        PyByteInner::try_from_object(PyObject::Instance(Box::new(i))),
        ErrorKind::Exception,
        "stop",
    );
}

#[test]
fn bytes_like_holds_bytes_and_bytearrays_only() {
    let b = PyBytesLike::try_from_object(PyObject::Bytes(b"ab".to_vec())).unwrap();
    assert!(matches!(b, PyBytesLike::Bytes(_)));
    assert!(matches!(b.to_cow(), Cow::Borrowed(x) if x == b"ab"));
    let a = PyBytesLike::try_from_object(PyObject::ByteArray(b"cd".to_vec())).unwrap();
    assert!(matches!(a, PyBytesLike::Bytearray(_)));
    assert!(matches!(a.to_cow(), Cow::Owned(ref x) if x == b"cd"));
    assert_eq!(a.with_ref(|x| x.len() + 1), 3);
    assert_eq!(b.with_ref(|x| x.to_vec()), b"ab".to_vec());
    let e = PyBytesLike::try_from_object(PyObject::MemoryView(vec![1])).unwrap_err();
    assert_eq!(e.kind, ErrorKind::TypeError);
    assert_eq!(e.message, "a bytes-like object is required, not memoryview");
}

#[test]
fn try_as_byte_takes_bytes_and_bytearrays() {
    assert_eq!(try_as_byte(&PyObject::Bytes(vec![1])), Some(vec![1]));
    assert_eq!(try_as_byte(&PyObject::ByteArray(vec![2])), Some(vec![2]));
    assert_eq!(try_as_byte(&PyObject::MemoryView(vec![2])), None);
    assert_eq!(try_as_byte(&integer(2)), None);
}

#[test]
fn comparisons_order_byte_strings() {
    let a = bytes(b"abc");
    let other = |b: &[u8]| PyObject::Bytes(b.to_vec());
    assert_eq!(a.eq(other(b"abc")), PyComparisonValue::Implemented(true));
    assert_eq!(a.eq(other(b"abd")), PyComparisonValue::Implemented(false));
    assert_eq!(a.eq(other(b"ab")), PyComparisonValue::Implemented(false));
    assert_eq!(a.lt(other(b"abd")), PyComparisonValue::Implemented(true));
    assert_eq!(a.lt(other(b"abcd")), PyComparisonValue::Implemented(true));
    assert_eq!(a.lt(other(b"abc")), PyComparisonValue::Implemented(false));
    assert_eq!(a.le(other(b"abc")), PyComparisonValue::Implemented(true));
    assert_eq!(a.le(other(b"ab")), PyComparisonValue::Implemented(false));
    assert_eq!(a.gt(other(b"ab")), PyComparisonValue::Implemented(true));
    assert_eq!(a.gt(other(b"b")), PyComparisonValue::Implemented(false));
    assert_eq!(a.ge(other(b"abc")), PyComparisonValue::Implemented(true));
    assert_eq!(a.ge(other(b"abcd")), PyComparisonValue::Implemented(false));
    assert_eq!(a.eq(PyObject::ByteArray(b"abc".to_vec())), PyComparisonValue::Implemented(true));
}

#[test]
fn comparisons_with_other_objects_are_not_implemented() {
    let a = bytes(b"a");
    assert_eq!(a.eq(integer(97)), PyComparisonValue::NotImplemented);
    assert_eq!(a.lt(PyObject::Str("a".to_owned())), PyComparisonValue::NotImplemented);
    assert_eq!(a.le(PyObject::MemoryView(vec![97])), PyComparisonValue::NotImplemented);
    assert_eq!(a.gt(PyObject::NoneObject), PyComparisonValue::NotImplemented);
    assert_eq!(a.ge(PyObject::List(vec![])), PyComparisonValue::NotImplemented);
}

#[test]
fn comparisons_agree_with_slices() {
    let samples: Vec<&[u8]> = vec![b"", b"a", b"ab", b"abc", b"b", b"\x00", b"\xff", b"a\xff"];
    for x in &samples {
        for y in &samples {
            let a = bytes(x);
            let o = || PyObject::Bytes(y.to_vec());
            assert_eq!(a.eq(o()), PyComparisonValue::Implemented(x == y));
            assert_eq!(a.lt(o()), PyComparisonValue::Implemented(x < y));
            assert_eq!(a.le(o()), PyComparisonValue::Implemented(x <= y));
            assert_eq!(a.gt(o()), PyComparisonValue::Implemented(x > y));
            assert_eq!(a.ge(o()), PyComparisonValue::Implemented(x >= y));
        }
    }
}

#[test]
fn hash_is_the_hash_of_the_vector() {
    let samples: Vec<&[u8]> = vec![b"", b"a", b"hello world", b"0123456789abcdef0123456789"];
    for x in &samples {
        let mut hasher = DefaultHasher::new();
        x.to_vec().hash(&mut hasher);
        assert_eq!(bytes(x).hash(), hasher.finish() as i64);
    }
    assert_eq!(bytes(b"same").hash(), bytes(b"same").hash());
    assert_ne!(bytes(b"same").hash(), bytes(b"sane").hash());
}

#[test]
fn byte_or_takes_a_byte() {
    assert_eq!(PyInt::new(0).byte_or().unwrap(), 0);
    assert_eq!(PyInt::new(255).byte_or().unwrap(), 255);
    assert_eq!(PyInt::from_byte(200).byte_or().unwrap(), 200);
    for v in [256i64, -1, i64::MAX, i64::MIN] {
        let e = PyInt::new(v).byte_or().unwrap_err();
        assert_eq!(e.kind, ErrorKind::ValueError);
        assert_eq!(e.message, "byte must be in range(0, 256)");
    }
    assert_eq!(PyInt { bytes: vec![] }.to_u8(), Some(0));
    assert_eq!(PyInt { bytes: vec![255] }.to_u8(), None);
    assert_eq!(PyInt { bytes: vec![255, 0, 0, 0] }.to_u8(), Some(255));
}

#[test]
fn integers_of_words() {
    assert_eq!(PyInt::new(-1).bytes, vec![255]);
    assert_eq!(PyInt::new(128).bytes, vec![128, 0]);
    assert_eq!(PyInt::new(-129).bytes, vec![127, 255]);
}

#[test]
fn default_and_clone() {
    assert_eq!(PyByteInner::default().elements, Vec::<u8>::new());
    assert_eq!(bytes(b"x").clone().elements, b"x".to_vec());
    assert_eq!(bytes(b"xyz").len(), 3);
}
