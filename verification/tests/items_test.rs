use pybytes::error::{ErrorKind, PyError};
use pybytes::inner::PyByteInner;
use pybytes::integer::PyInt;
use pybytes::object::{Either, PyInstance, PyObject, PySlice};

fn bytes(b: &[u8]) -> PyByteInner {
    PyByteInner { elements: b.to_vec() }
}

fn integer(v: i64) -> PyObject {
    PyObject::Int(PyInt::new(v))
}

fn bound(v: Option<i64>) -> PyObject {
    match v {
        Some(x) => integer(x),
        None => PyObject::NoneObject,
    }
}

fn slice(start: Option<i64>, stop: Option<i64>, step: Option<i64>) -> PySlice {
    PySlice { start: Some(bound(start)), stop: bound(stop), step: step.map(integer) }
}

fn with_step(step: PyInt) -> PySlice {
    PySlice { start: None, stop: PyObject::NoneObject, step: Some(PyObject::Int(step)) }
}

fn content(o: PyObject) -> Vec<u8> {
    match o {
        PyObject::Bytes(b) => b,
        _ => panic!("no bytes"),
    }
}

fn number(o: PyObject) -> Vec<u8> {
    match o {
        PyObject::Int(i) => i.bytes,
        _ => panic!("no int"),
    }
}

fn taken(s: &[u8], start: Option<i64>, stop: Option<i64>, step: Option<i64>) -> Vec<u8> {
    content(bytes(s).getitem(Either::B(slice(start, stop, step))).unwrap())
}

fn left(s: &[u8], start: Option<i64>, stop: Option<i64>, step: Option<i64>) -> Vec<u8> {
    let mut b = bytes(s);
    b.delitem(Either::B(slice(start, stop, step))).unwrap();
    b.elements
}

fn check(e: PyError, kind: ErrorKind, message: &str) {
    assert_eq!(e.kind, kind);
    assert_eq!(e.message, message);
}

#[test]
fn getitem_by_index() {
    let b = bytes(b"abc");
    assert_eq!(number(b.getitem(Either::A(0)).unwrap()), vec![97, 0]);
    assert_eq!(number(b.getitem(Either::A(2)).unwrap()), vec![99, 0]);
    assert_eq!(number(b.getitem(Either::A(-1)).unwrap()), vec![99, 0]);
    assert_eq!(number(b.getitem(Either::A(-3)).unwrap()), vec![97, 0]);
    for p in [3, -4, i32::MAX, i32::MIN] {
        check(b.getitem(Either::A(p)).unwrap_err(), ErrorKind::IndexError, "index out of range");
    }
}

#[test]
fn getitem_by_slice() {
    let s = b"0123456789";
    assert_eq!(taken(s, None, None, None), s.to_vec());
    assert_eq!(taken(s, Some(2), Some(5), None), b"234".to_vec());
    assert_eq!(taken(s, Some(-3), None, None), b"789".to_vec());
    assert_eq!(taken(s, None, Some(-8), Some(1)), b"01".to_vec());
    assert_eq!(taken(s, Some(1), Some(9), Some(3)), b"147".to_vec());
    assert_eq!(taken(s, None, None, Some(-1)), b"9876543210".to_vec());
    assert_eq!(taken(s, Some(8), Some(2), Some(-2)), b"864".to_vec());
    assert_eq!(taken(s, Some(-1), Some(-4), Some(-1)), b"987".to_vec());
    assert_eq!(taken(s, Some(5), Some(2), None), b"".to_vec());
    assert_eq!(taken(s, Some(2), Some(5), Some(-1)), b"".to_vec());
    assert_eq!(taken(s, Some(-100), Some(100), None), s.to_vec());
    assert_eq!(taken(b"", None, None, Some(-1)), b"".to_vec());
}

#[test]
fn getitem_by_slice_with_a_far_step() {
    let big = || PyInt { bytes: vec![0, 0, 0, 0, 0, 1] };
    let small = || PyInt { bytes: vec![0, 0, 0, 0, 0, 255] };
    let b = bytes(b"0123");
    assert_eq!(content(b.getitem(Either::B(with_step(big()))).unwrap()), b"0".to_vec());
    assert_eq!(content(b.getitem(Either::B(with_step(small()))).unwrap()), b"3".to_vec());
    let mut d = bytes(b"0123");
    d.delitem(Either::B(with_step(big()))).unwrap();
    assert_eq!(d.elements, b"123".to_vec());
    d.delitem(Either::B(with_step(small()))).unwrap();
    assert_eq!(d.elements, b"12".to_vec());
}

#[test]
fn slices_refuse_bad_arguments() {
    let b = bytes(b"abc");
    let zero = || Either::B(slice(None, None, Some(0)));
    check(b.getitem(zero()).unwrap_err(), ErrorKind::ValueError, "slice step cannot be zero");
    let mut d = bytes(b"abc");
    check(d.delitem(zero()).unwrap_err(), ErrorKind::ValueError, "slice step cannot be zero");
    assert_eq!(d.elements, b"abc".to_vec());
    let bad = || PySlice { start: Some(PyObject::Str("x".to_owned())), stop: integer(1), step: None };
    let message = "slice indices must be integers or None or have an __index__ method";
    check(b.getitem(Either::B(bad())).unwrap_err(), ErrorKind::TypeError, message);
    check(d.delitem(Either::B(bad())).unwrap_err(), ErrorKind::TypeError, message);
}

#[test]
fn slices_ask_the_index_method() {
    let instance = |r| {
        PyObject::Instance(Box::new(PyInstance {
            class_name: "Index".to_owned(),
            bytes_method: None,
            iter_method: None,
            index_method: r,
        }))
    };
    let b = bytes(b"abcdef");
    let s = PySlice { start: Some(instance(Some(Ok(PyInt::new(2))))), stop: integer(4), step: None };
    assert_eq!(content(b.getitem(Either::B(s)).unwrap()), b"cd".to_vec());
    let e = PyError { kind: ErrorKind::Exception, message: "boom".to_owned() };
    let s = PySlice { start: None, stop: instance(Some(Err(e))), step: None };
    check(b.getitem(Either::B(s)).unwrap_err(), ErrorKind::Exception, "boom");
    let s = PySlice { start: None, stop: instance(None), step: None };
    assert_eq!(b.getitem(Either::B(s)).unwrap_err().kind, ErrorKind::TypeError);
}

#[test]
fn setitem_by_index() {
    let mut b = bytes(b"abc");
    assert_eq!(number(b.setitem(Either::A(1), integer(120)).unwrap()), vec![120, 0]);
    assert_eq!(b.elements, b"axc".to_vec());
    assert_eq!(number(b.setitem(Either::A(-1), integer(255)).unwrap()), vec![255, 0]);
    assert_eq!(b.elements, b"ax\xff".to_vec());
    check(
        b.setitem(Either::A(0), integer(256)).unwrap_err(),
        ErrorKind::ValueError,
        "byte must be in range(0, 256)",
    );
    check(
        b.setitem(Either::A(0), PyObject::Bytes(vec![1])).unwrap_err(),
        ErrorKind::TypeError,
        "an integer is required",
    );
    check(
        b.setitem(Either::A(3), PyObject::NoneObject).unwrap_err(),
        ErrorKind::IndexError,
        "index out of range",
    );
    assert_eq!(b.elements, b"ax\xff".to_vec());
}

#[test]
fn setitem_by_slice() {
    let mut b = bytes(b"012345");
    let r = b.setitem(Either::B(slice(Some(1), Some(3), None)), PyObject::Bytes(b"abc".to_vec()));
    assert_eq!(b.elements, b"0abc345".to_vec());
    assert_eq!(content(r.unwrap()), b"ab".to_vec());
    let r = b.setitem(Either::B(slice(Some(0), Some(4), Some(2))), PyObject::List(vec![integer(33)]));
    assert_eq!(b.elements, b"!345".to_vec());
    assert_eq!(content(r.unwrap()), b"!4".to_vec());
    b.setitem(Either::B(slice(Some(2), Some(2), None)), PyObject::MemoryView(b"--".to_vec()))
        .unwrap();
    assert_eq!(b.elements, b"!3--45".to_vec());
    b.setitem(Either::B(slice(Some(-2), None, None)), PyObject::Str("".to_owned())).unwrap();
    assert_eq!(b.elements, b"!3--".to_vec());
}

#[test]
fn setitem_by_slice_tells_what_is_wrong() {
    let mut b = bytes(b"abc");
    let all = || Either::B(slice(None, None, None));
    check(
        b.setitem(all(), integer(1)).unwrap_err(),
        ErrorKind::IndexError,
        "can assign only bytes, buffers, or iterables of ints in range(0, 256)",
    );
    check(
        b.setitem(all(), PyObject::List(vec![integer(256)])).unwrap_err(),
        ErrorKind::OverflowError,
        "Int value cannot fit into Rust u8",
    );
    check(
        b.setitem(all(), PyObject::Tuple(vec![PyObject::NoneObject])).unwrap_err(),
        ErrorKind::TypeError,
        "Expected type int, not NoneType",
    );
    assert_eq!(b.elements, b"abc".to_vec());
}

#[test]
fn setitem_by_slice_runs_an_iteration_to_its_end_first() {
    let instance = |steps| {
        PyObject::Instance(Box::new(PyInstance {
            class_name: "Steps".to_owned(),
            bytes_method: None,
            iter_method: Some(Ok(steps)),
            index_method: None,
        }))
    };
    let mut b = bytes(b"abc");
    let e = PyError { kind: ErrorKind::Exception, message: "late".to_owned() };
    let steps = vec![Ok(PyObject::NoneObject), Err(e)];
    let r = b.setitem(Either::B(slice(None, None, None)), instance(steps));
    check(r.unwrap_err(), ErrorKind::Exception, "late");
    let steps = vec![Ok(integer(1)), Ok(integer(2))];
    b.setitem(Either::B(slice(None, Some(1), None)), instance(steps)).unwrap();
    assert_eq!(b.elements, b"\x01\x02bc".to_vec());
}

#[test]
fn setitem_by_slice_with_a_zero_step_fails_after_it_was_done() {
    let mut b = bytes(b"abc");
    let r = b.setitem(Either::B(slice(Some(0), Some(1), Some(0))), PyObject::Bytes(vec![]));
    check(r.unwrap_err(), ErrorKind::ValueError, "slice step cannot be zero");
    assert_eq!(b.elements, b"bc".to_vec());
}

#[test]
fn delitem_by_index() {
    let mut b = bytes(b"abcd");
    b.delitem(Either::A(1)).unwrap();
    assert_eq!(b.elements, b"acd".to_vec());
    b.delitem(Either::A(-1)).unwrap();
    assert_eq!(b.elements, b"ac".to_vec());
    check(b.delitem(Either::A(2)).unwrap_err(), ErrorKind::IndexError, "index out of range");
    assert_eq!(b.elements, b"ac".to_vec());
}

#[test]
fn delitem_by_slice() {
    let s = b"0123456789";
    assert_eq!(left(s, Some(2), Some(5), None), b"0156789".to_vec());
    assert_eq!(left(s, None, None, None), b"".to_vec());
    assert_eq!(left(s, None, None, Some(2)), b"13579".to_vec());
    assert_eq!(left(s, Some(1), Some(8), Some(3)), b"0235689".to_vec());
    assert_eq!(left(s, None, None, Some(-1)), b"".to_vec());
    assert_eq!(left(s, None, None, Some(-2)), b"02468".to_vec());
    assert_eq!(left(s, Some(8), Some(1), Some(-3)), b"0134679".to_vec());
    assert_eq!(left(s, Some(-1), Some(-4), Some(-1)), b"0123456".to_vec());
    assert_eq!(left(s, Some(5), Some(2), None), s.to_vec());
    assert_eq!(left(s, Some(2), Some(5), Some(-1)), s.to_vec());
}

#[test]
fn what_is_deleted_is_what_is_read() {
    let s = b"0123456789";
    let bounds = [None, Some(-20), Some(-10), Some(-3), Some(0), Some(4), Some(9), Some(20)];
    for start in bounds {
        for stop in bounds {
            for step in [-11, -4, -2, -1, 1, 2, 3, 10] {
                let mut both = taken(s, start, stop, Some(step));
                both.extend(left(s, start, stop, Some(step)));
                both.sort();
                assert_eq!(both, s.to_vec());
            }
        }
    }
}

#[test]
fn slices_around_a_bound_make_up_the_whole() {
    for x in [-9, -2, 0, 3, 9] {
        let mut both = taken(b"abcde", None, Some(x), None);
        both.extend(taken(b"abcde", Some(x), None, None));
        assert_eq!(both, b"abcde".to_vec());
    }
}
