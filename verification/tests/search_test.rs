use pybytes::error::{ErrorKind, PyError};
use pybytes::inner::PyByteInner;
use pybytes::integer::PyInt;
use pybytes::object::{Either, OptionalArg, PyObject};
use pybytes::options::ByteInnerFindOptions;

fn bytes(b: &[u8]) -> PyByteInner {
    PyByteInner { elements: b.to_vec() }
}

fn integer(v: i64) -> PyObject {
    PyObject::Int(PyInt::new(v))
}

fn options(sub: &[u8], start: Option<isize>, end: Option<isize>) -> ByteInnerFindOptions {
    ByteInnerFindOptions {
        sub: Either::A(bytes(sub)),
        start: OptionalArg::Present(start),
        end: OptionalArg::Present(end),
    }
}

fn whole(sub: Either<PyByteInner, PyInt>) -> ByteInnerFindOptions {
    ByteInnerFindOptions { sub, start: OptionalArg::Missing, end: OptionalArg::Missing }
}

fn check(e: PyError, kind: ErrorKind, message: &str) {
    assert_eq!(e.kind, kind);
    assert_eq!(e.message, message);
}

fn starts(s: &[u8], affix: &[u8], lo: Option<i64>, hi: Option<i64>) -> bool {
    let arg = |x: Option<i64>| match x {
        Some(v) => OptionalArg::Present(integer(v)),
        None => OptionalArg::Missing,
    };
    bytes(s).startsendswith(Either::A(bytes(affix)), arg(lo), arg(hi), false).unwrap()
}

fn ends(s: &[u8], affix: &[u8], hi: Option<i64>) -> bool {
    let hi = match hi {
        Some(v) => OptionalArg::Present(integer(v)),
        None => OptionalArg::Present(PyObject::NoneObject),
    };
    bytes(s).startsendswith(Either::A(bytes(affix)), OptionalArg::Missing, hi, true).unwrap()
}

#[test]
fn contains_byte_strings_and_bytes() {
    let s = bytes(b"hello");
    assert!(s.contains(Either::A(bytes(b""))).unwrap());
    assert!(s.contains(Either::A(bytes(b"ell"))).unwrap());
    assert!(s.contains(Either::A(bytes(b"hello"))).unwrap());
    assert!(!s.contains(Either::A(bytes(b"hellox"))).unwrap());
    assert!(!s.contains(Either::A(bytes(b"lle"))).unwrap());
    assert!(s.contains(Either::B(PyInt::new(111))).unwrap());
    assert!(!s.contains(Either::B(PyInt::new(0))).unwrap());
    assert!(bytes(b"").contains(Either::A(bytes(b""))).unwrap());
    check(
        s.contains(Either::B(PyInt::new(256))).unwrap_err(),
        ErrorKind::ValueError,
        "byte must be in range(0, 256)",
    );
}

#[test]
fn count_occurrences() {
    let s = bytes(b"mississippi");
    assert_eq!(s.count(options(b"ss", None, None)).unwrap(), 2);
    assert_eq!(s.count(options(b"issi", None, None)).unwrap(), 2);
    assert_eq!(s.count(options(b"i", Some(2), Some(-1))).unwrap(), 2);
    assert_eq!(s.count(options(b"", None, None)).unwrap(), 12);
    assert_eq!(s.count(options(b"", Some(3), Some(5))).unwrap(), 3);
    assert_eq!(s.count(options(b"x", None, None)).unwrap(), 0);
    assert_eq!(s.count(options(b"i", Some(20), None)).unwrap(), 0);
    assert_eq!(s.count(options(b"", Some(20), None)).unwrap(), 0);
    assert_eq!(s.count(whole(Either::B(PyInt::new(112)))).unwrap(), 2);
    assert_eq!(bytes(b"aaaa").count(options(b"aa", None, None)).unwrap(), 3);
    check(
        s.count(whole(Either::B(PyInt::new(-1)))).unwrap_err(),
        ErrorKind::ValueError,
        "byte must be in range(0, 256)",
    );
}

#[test]
fn find_occurrences() {
    let s = bytes(b"mississippi");
    assert_eq!(s.find(options(b"ss", None, None), false).unwrap(), Some(2));
    assert_eq!(s.find(options(b"ss", None, None), true).unwrap(), Some(5));
    assert_eq!(s.find(options(b"ss", Some(3), None), false).unwrap(), Some(5));
    assert_eq!(s.find(options(b"ss", None, Some(6)), true).unwrap(), Some(2));
    assert_eq!(s.find(options(b"ss", Some(3), Some(6)), false).unwrap(), None);
    assert_eq!(s.find(options(b"", None, None), false).unwrap(), Some(0));
    assert_eq!(s.find(options(b"", None, None), true).unwrap(), Some(11));
    assert_eq!(s.find(options(b"", Some(-3), Some(-1)), true).unwrap(), Some(10));
    assert_eq!(s.find(options(b"x", None, None), false).unwrap(), None);
    assert_eq!(s.find(options(b"i", Some(5), Some(2)), false).unwrap(), None);
    assert_eq!(s.find(options(b"", Some(12), None), false).unwrap(), None);
    assert_eq!(s.find(whole(Either::B(PyInt::new(112))), true).unwrap(), Some(9));
    check(
        s.find(whole(Either::B(PyInt::new(300))), true).unwrap_err(),
        ErrorKind::ValueError,
        "byte must be in range(0, 256)",
    );
}

#[test]
fn contained_is_found_is_counted() {
    let s = bytes(b"abracadabra");
    for sub in [&b"abra"[..], b"c", b"", b"rab", b"cadabrax", b"abracadabra"] {
        let found = s.find(options(sub, None, None), false).unwrap();
        let last = s.find(options(sub, None, None), true).unwrap();
        assert_eq!(found.is_some(), s.contains(Either::A(bytes(sub))).unwrap());
        assert_eq!(found.is_some(), s.count(options(sub, None, None)).unwrap() > 0);
        assert_eq!(found.is_some(), last.is_some());
        assert!(found <= last);
    }
}

#[test]
fn starts_with() {
    assert!(starts(b"hello", b"he", None, None));
    assert!(!starts(b"hello", b"el", None, None));
    assert!(starts(b"hello", b"el", Some(1), None));
    assert!(!starts(b"hello", b"ell", Some(1), Some(3)));
    assert!(starts(b"hello", b"", Some(9), Some(1)));
    assert!(!starts(b"hello", b"hello!", None, None));
    assert!(starts(b"hello", b"lo", Some(-2), None));
}

#[test]
fn ends_with() {
    assert!(ends(b"hello", b"lo", None));
    assert!(!ends(b"hello", b"el", None));
    assert!(ends(b"hello", b"el", Some(3)));
    assert!(ends(b"hello", b"hello", None));
    assert!(ends(b"hello", b"", None));
}

#[test]
fn affixes_of_a_tuple_are_put_together() {
    let s = bytes(b"hello");
    let tuple = || {
        Either::B(vec![PyObject::Bytes(b"h".to_vec()), PyObject::ByteArray(b"e".to_vec())])
    };
    let r = s.startsendswith(tuple(), OptionalArg::Missing, OptionalArg::Missing, false);
    assert!(r.unwrap());
    let r = s.startsendswith(
        Either::B(vec![PyObject::Bytes(b"h".to_vec()), PyObject::Bytes(b"x".to_vec())]),
        OptionalArg::Missing,
        OptionalArg::Missing,
        false,
    );
    assert!(!r.unwrap());
    let r = s.startsendswith(
        Either::B(vec![PyObject::Bytes(b"h".to_vec()), integer(3)]),
        OptionalArg::Missing,
        OptionalArg::Missing,
        false,
    );
    check(r.unwrap_err(), ErrorKind::TypeError, "a bytes-like object is required, not int");
    let r = s.startsendswith(
        tuple(),
        OptionalArg::Present(PyObject::Str("a".to_owned())),
        OptionalArg::Missing,
        false,
    );
    check(
        r.unwrap_err(),
        ErrorKind::TypeError,
        "slice indices must be integers or None or have an __index__ method",
    );
}

#[test]
fn partition_around_the_first_separator() {
    let s = bytes(b"a--b--c");
    assert_eq!(
        s.partition(&bytes(b"--")).unwrap(),
        (b"a".to_vec(), true, b"b--c".to_vec())
    );
    assert_eq!(s.partition(&bytes(b"+")).unwrap(), (b"a--b--c".to_vec(), false, b"".to_vec()));
    assert_eq!(bytes(b"--").partition(&bytes(b"--")).unwrap(), (b"".to_vec(), true, b"".to_vec()));
    assert_eq!(bytes(b"").partition(&bytes(b"x")).unwrap(), (b"".to_vec(), false, b"".to_vec()));
    assert_eq!(bytes(b"aaa").partition(&bytes(b"aa")).unwrap(), (b"".to_vec(), true, b"a".to_vec()));
    check(s.partition(&bytes(b"")).unwrap_err(), ErrorKind::ValueError, "empty separator");
}

#[test]
fn partition_around_the_last_separator() {
    let s = bytes(b"a--b--c");
    assert_eq!(
        s.rpartition(&bytes(b"--")).unwrap(),
        (b"a--b".to_vec(), true, b"c".to_vec())
    );
    assert_eq!(s.rpartition(&bytes(b"+")).unwrap(), (b"".to_vec(), false, b"a--b--c".to_vec()));
    assert_eq!(
        bytes(b"aaa").rpartition(&bytes(b"aa")).unwrap(),
        (b"a".to_vec(), true, b"".to_vec())
    );
    assert_eq!(bytes(b"").rpartition(&bytes(b"x")).unwrap(), (b"".to_vec(), false, b"".to_vec()));
    check(s.rpartition(&bytes(b"")).unwrap_err(), ErrorKind::ValueError, "empty separator");
}

#[test]
fn partitions_make_up_the_byte_string() {
    let s = b"one, two, three";
    for sep in [&b", "[..], b"e", b"one", b"three", b"x", b"e, t"] {
        for (front, has_mid, back) in [
            bytes(s).partition(&bytes(sep)).unwrap(),
            bytes(s).rpartition(&bytes(sep)).unwrap(),
        ] {
            let mut all = front;
            if has_mid {
                all.extend_from_slice(sep);
            }
            all.extend(back);
            assert_eq!(all, s.to_vec());
        }
    }
}
