use pybytes::error::ErrorKind;
use pybytes::inner::PyByteInner;
use pybytes::integer::PyInt;
use pybytes::object::{Either, OptionalArg, PyNone, PyObject};
use pybytes::options::{
    ByteInnerExpandtabsOptions, ByteInnerFindOptions, ByteInnerPaddingOptions,
    ByteInnerSplitOptions, ByteInnerSplitlinesOptions, ByteInnerTranslateOptions,
};
use pybytes::sequence::{adjust_indices, get_pos};

fn bytes(b: &[u8]) -> PyByteInner {
    PyByteInner { elements: b.to_vec() }
}

#[test]
fn find_options() {
    let options = ByteInnerFindOptions {
        sub: Either::A(bytes(b"ab")),
        start: OptionalArg::Present(Some(-3)),
        end: OptionalArg::Present(None),
    };
    assert_eq!(options.get_value(10).unwrap(), (b"ab".to_vec(), 7..10));
    let options = ByteInnerFindOptions {
        sub: Either::B(PyInt::new(65)),
        start: OptionalArg::Missing,
        end: OptionalArg::Present(Some(4)),
    };
    assert_eq!(options.get_value(10).unwrap(), (b"A".to_vec(), 0..4));
}

#[test]
fn bounds_are_adjusted() {
    let bound = |x: isize| OptionalArg::Present(Some(x));
    assert_eq!(adjust_indices(OptionalArg::Missing, OptionalArg::Missing, 5), 0..5);
    assert_eq!(adjust_indices(bound(-2), bound(-1), 5), 3..4);
    assert_eq!(adjust_indices(bound(-9), bound(9), 5), 0..5);
    assert_eq!(adjust_indices(bound(7), bound(-9), 5), 7..0);
    assert_eq!(adjust_indices(bound(isize::MIN), bound(isize::MAX), 5), 0..5);
}

#[test]
fn positions_of_indices() {
    assert_eq!(get_pos(3, 0), Some(0));
    assert_eq!(get_pos(3, -3), Some(0));
    assert_eq!(get_pos(3, 3), None);
    assert_eq!(get_pos(3, i32::MIN), None);
    assert_eq!(get_pos(0, 0), None);
}

#[test]
fn padding_options() {
    let options = ByteInnerPaddingOptions {
        width: PyInt::new(9),
        fillbyte: OptionalArg::Present(PyObject::Bytes(b"x".to_vec())),
    };
    assert_eq!(options.get_value("ljust", 4).unwrap(), (120, 5));
    let options =
        ByteInnerPaddingOptions { width: PyInt::new(3), fillbyte: OptionalArg::Missing };
    assert_eq!(options.get_value("ljust", 4).unwrap(), (32, 0));
    let options = ByteInnerPaddingOptions {
        width: PyInt::new(3),
        fillbyte: OptionalArg::Present(PyObject::NoneObject),
    };
    let e = options.get_value("name", 4).unwrap_err();
    assert_eq!(e.kind, ErrorKind::TypeError);
    assert_eq!(
        e.message,
        "name() argument 2 must be a byte string of length 1, not 'NoneType' object"
    );
}

#[test]
fn translate_options() {
    let options = ByteInnerTranslateOptions {
        table: Either::B(PyNone),
        delete: OptionalArg::Present(bytes(b"d")),
    };
    let (table, delete) = options.get_value().unwrap();
    assert_eq!(table, (0..=255).collect::<Vec<u8>>());
    assert_eq!(delete, b"d".to_vec());
}

#[test]
fn split_options() {
    let options =
        ByteInnerSplitOptions { sep: OptionalArg::Missing, maxsplit: OptionalArg::Missing };
    assert_eq!(options.get_value().unwrap(), (b"".to_vec(), -1));
    let options = ByteInnerSplitOptions {
        sep: OptionalArg::Present(Some(bytes(b"::"))),
        maxsplit: OptionalArg::Present(4),
    };
    assert_eq!(options.get_value().unwrap(), (b"::".to_vec(), 4));
}

#[test]
fn line_options() {
    assert_eq!(ByteInnerExpandtabsOptions { tabsize: OptionalArg::Missing }.get_value(), 8);
    let tabsize = OptionalArg::Present(PyInt::new(3));
    assert_eq!(ByteInnerExpandtabsOptions { tabsize }.get_value(), 3);
    let tabsize = OptionalArg::Present(PyInt::new(-3));
    assert_eq!(ByteInnerExpandtabsOptions { tabsize }.get_value(), 0);
    assert!(!ByteInnerSplitlinesOptions { keepends: OptionalArg::Missing }.get_value());
    assert!(ByteInnerSplitlinesOptions { keepends: OptionalArg::Present(true) }.get_value());
}

#[test]
fn optional_arguments() {
    assert_eq!(OptionalArg::Present(1).into_option(), Some(1));
    assert_eq!(OptionalArg::<i32>::Missing.into_option(), None);
    assert_eq!(OptionalArg::Present(Some(1)).flat_option(), Some(1));
    assert_eq!(OptionalArg::Present(None::<i32>).flat_option(), None);
}
