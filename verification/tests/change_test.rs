use pybytes::error::{ErrorKind, PyError};
use pybytes::inner::PyByteInner;
use pybytes::integer::PyInt;
use pybytes::object::{Either, OptionalArg, PyNone, PyObject};
use pybytes::options::{ByteInnerPaddingOptions, ByteInnerTranslateOptions};
use pybytes::padding::bytes_zfill;

fn bytes(b: &[u8]) -> PyByteInner {
    PyByteInner { elements: b.to_vec() }
}

fn width(n: i64) -> ByteInnerPaddingOptions {
    ByteInnerPaddingOptions { width: PyInt::new(n), fillbyte: OptionalArg::Missing }
}

fn filled(n: i64, fill: PyObject) -> ByteInnerPaddingOptions {
    ByteInnerPaddingOptions { width: PyInt::new(n), fillbyte: OptionalArg::Present(fill) }
}

fn replace(s: &[u8], find: &[u8], new: &[u8], count: Option<i64>) -> Vec<u8> {
    let count = match count {
        Some(n) => OptionalArg::Present(PyInt::new(n)),
        None => OptionalArg::Missing,
    };
    bytes(s).replace(bytes(find), bytes(new), count).unwrap()
}

fn table(from: &[u8], to: &[u8]) -> PyByteInner {
    match PyByteInner::maketrans(bytes(from), bytes(to)).unwrap() {
        PyObject::Bytes(elements) => PyByteInner { elements },
        _ => panic!("no bytes"),
    }
}

fn translate(s: &[u8], t: PyByteInner) -> Vec<u8> {
    let options = ByteInnerTranslateOptions { table: Either::A(t), delete: OptionalArg::Missing };
    bytes(s).translate(options).unwrap()
}

fn check(e: PyError, message: &str) {
    assert_eq!(e.kind, ErrorKind::TypeError);
    assert_eq!(e.message, message);
}

#[test]
fn addition() {
    assert_eq!(bytes(b"ab").add(bytes(b"cd")), b"abcd".to_vec());
    assert_eq!(bytes(b"").add(bytes(b"")), b"".to_vec());
}

#[test]
fn center_in_a_width() {
    assert_eq!(bytes(b"ab").center(width(6)).unwrap(), b"  ab  ".to_vec());
    assert_eq!(bytes(b"ab").center(width(5)).unwrap(), b"  ab ".to_vec());
    assert_eq!(bytes(b"abc").center(width(6)).unwrap(), b" abc  ".to_vec());
    assert_eq!(bytes(b"abc").center(width(7)).unwrap(), b"  abc  ".to_vec());
    assert_eq!(bytes(b"abc").center(width(2)).unwrap(), b"abc".to_vec());
    assert_eq!(bytes(b"abc").center(width(-9)).unwrap(), b"abc".to_vec());
    let r = bytes(b"a").center(filled(4, PyObject::Bytes(b"*".to_vec())));
    assert_eq!(r.unwrap(), b"*a**".to_vec());
    let r = bytes(b"").center(filled(3, PyObject::ByteArray(b"-".to_vec())));
    assert_eq!(r.unwrap(), b"---".to_vec());
}

#[test]
fn justify_in_a_width() {
    assert_eq!(bytes(b"ab").ljust(width(5)).unwrap(), b"ab   ".to_vec());
    assert_eq!(bytes(b"ab").rjust(width(5)).unwrap(), b"   ab".to_vec());
    assert_eq!(bytes(b"ab").ljust(width(2)).unwrap(), b"ab".to_vec());
    assert_eq!(bytes(b"ab").rjust(width(0)).unwrap(), b"ab".to_vec());
    let fill = || PyObject::Bytes(b"0".to_vec());
    assert_eq!(bytes(b"7").ljust(filled(3, fill())).unwrap(), b"700".to_vec());
    assert_eq!(bytes(b"7").rjust(filled(3, fill())).unwrap(), b"007".to_vec());
}

#[test]
fn a_width_that_no_index_can_hold_asks_for_nothing() {
    let huge = || PyInt { bytes: vec![0, 0, 0, 0, 0, 0, 0, 0, 1] };
    let options = || ByteInnerPaddingOptions { width: huge(), fillbyte: OptionalArg::Missing };
    assert_eq!(bytes(b"a").center(options()).unwrap(), b"a".to_vec());
    assert_eq!(bytes(b"a").ljust(options()).unwrap(), b"a".to_vec());
    assert_eq!(bytes(b"a").rjust(options()).unwrap(), b"a".to_vec());
}

#[test]
fn a_fill_byte_must_be_one_byte() {
    check(
        bytes(b"a").center(filled(3, PyObject::Bytes(b"ab".to_vec()))).unwrap_err(),
        "center() argument 2 must be a byte string of length 1, not 'bytes' object",
    );
    check(
        bytes(b"a").ljust(filled(3, PyObject::ByteArray(vec![]))).unwrap_err(),
        "ljust() argument 2 must be a byte string of length 1, not 'bytearray' object",
    );
    check(
        bytes(b"a").rjust(filled(0, PyObject::Str("x".to_owned()))).unwrap_err(),
        "rjust() argument 2 must be a byte string of length 1, not 'str' object",
    );
}

#[test]
fn fill_with_zeros() {
    assert_eq!(bytes(b"42").zfill(5), b"00042".to_vec());
    assert_eq!(bytes(b"-42").zfill(5), b"-0042".to_vec());
    assert_eq!(bytes(b"+42").zfill(5), b"+0042".to_vec());
    assert_eq!(bytes(b"42").zfill(2), b"42".to_vec());
    assert_eq!(bytes(b"42").zfill(-7), b"42".to_vec());
    assert_eq!(bytes(b"").zfill(3), b"000".to_vec());
    assert_eq!(bytes(b"-").zfill(3), b"-00".to_vec());
    assert_eq!(bytes_zfill(b"a", 3), b"00a".to_vec());
    assert_eq!(bytes(&bytes(b"-1").zfill(6)).zfill(6), bytes(b"-1").zfill(6));
}

#[test]
fn strip_white_space() {
    let s = bytes(b" \t\x0b a b \r\n\x0c");
    assert_eq!(s.strip(OptionalArg::Missing), b"a b".to_vec());
    assert_eq!(s.lstrip(OptionalArg::Missing), b"a b \r\n\x0c".to_vec());
    assert_eq!(s.rstrip(OptionalArg::Present(None)), b" \t\x0b a b".to_vec());
    assert_eq!(bytes(b"  ").strip(OptionalArg::Missing), b"".to_vec());
    let wide = bytes("\u{2003}x\u{a0}".as_bytes());
    assert_eq!(wide.strip(OptionalArg::Missing), b"x".to_vec());
    assert_eq!(wide.lstrip(OptionalArg::Missing), "x\u{a0}".as_bytes().to_vec());
    assert_eq!(wide.rstrip(OptionalArg::Missing), "\u{2003}x".as_bytes().to_vec());
}

#[test]
fn strip_given_bytes() {
    let chars = |b: &[u8]| OptionalArg::Present(Some(bytes(b)));
    let s = bytes(b"xyxhellouyx");
    assert_eq!(s.strip(chars(b"xy")), b"hellou".to_vec());
    assert_eq!(s.lstrip(chars(b"xy")), b"hellouyx".to_vec());
    assert_eq!(s.rstrip(chars(b"xyu")), b"xyxhello".to_vec());
    assert_eq!(s.strip(chars(b"")), b"xyxhellouyx".to_vec());
    assert_eq!(bytes(b"xxx").strip(chars(b"x")), b"".to_vec());
    assert_eq!(bytes(b" a ").strip(chars(b"a")), b" a ".to_vec());
    let letter = bytes("\u{e9}b\u{e9}".as_bytes());
    assert_eq!(letter.strip(chars(b"\xe9")), b"b".to_vec());
    assert_eq!(letter.strip(chars(b"\xc3\xa9")), "\u{e9}b\u{e9}".as_bytes().to_vec());
}

#[test]
fn strip_bytes_that_are_not_text() {
    let chars = |b: &[u8]| OptionalArg::Present(Some(bytes(b)));
    assert_eq!(bytes(b"\xff\xfe a").lstrip(chars(b"\xfd")), b" a".to_vec());
    assert_eq!(bytes(b"\xe2\x80a").lstrip(chars(b"\xfd")), b"a".to_vec());
    assert_eq!(bytes(b"a\xe2\x80").rstrip(chars(b"\xfd")), b"a".to_vec());
    assert_eq!(bytes(b"\xe2\x80\x83a").lstrip(chars(b"\xfd")), b"\xe2\x80\x83a".to_vec());
    assert_eq!(bytes(b"\x80\xc2\xa0\x80").strip(chars(b"\xfd")), b"\xc2\xa0".to_vec());
    assert_eq!(bytes(b"\x80a\x80").strip(chars(b"\x80")), b"\x80a\x80".to_vec());
    assert_eq!(bytes(b"\x85\xa0 x \xa0").strip(OptionalArg::Missing), b"\x85\xa0 x \xa0".to_vec());
    assert_eq!(bytes(b"\xc2\x85x\xc2\xa0").strip(OptionalArg::Missing), b"x".to_vec());
    let broken = bytes(b" \xe2\x80x\xe2\x80 ");
    assert_eq!(broken.strip(OptionalArg::Missing), b"\xe2\x80x\xe2\x80".to_vec());
}

fn first_char(s: &[u8]) -> (char, usize) {
    let valid = match std::str::from_utf8(s) {
        Ok(text) => text,
        Err(e) if e.valid_up_to() > 0 => std::str::from_utf8(&s[..e.valid_up_to()]).unwrap(),
        Err(e) => return ('\u{fffd}', e.error_len().unwrap_or(s.len())),
    };
    let c = valid.chars().next().unwrap();
    (c, c.len_utf8())
}

fn last_char(s: &[u8]) -> (char, usize) {
    let mut start = s.len() - 1;
    while start > s.len().saturating_sub(4) && s[start] & 0xc0 == 0x80 {
        start -= 1;
    }
    let (c, n) = first_char(&s[start..]);
    if start + n == s.len() {
        (c, n)
    } else {
        ('\u{fffd}', 1)
    }
}

fn trimmed(s: &[u8], drop: &dyn Fn(char) -> bool) -> (Vec<u8>, Vec<u8>) {
    let mut front = s;
    while !front.is_empty() && drop(first_char(front).0) {
        front = &front[first_char(front).1..];
    }
    let mut back = s;
    while !back.is_empty() && drop(last_char(back).0) {
        back = &back[..back.len() - last_char(back).1];
    }
    (front.to_vec(), back.to_vec())
}

#[test]
fn strip_goes_by_the_characters_of_any_bytes() {
    let alphabet = [
        0x20u8, 0x41, 0x80, 0x85, 0x8f, 0x90, 0x9a, 0xa0, 0xbf, 0xc1, 0xc2, 0xe0, 0xe1, 0xe2, 0xe3,
        0xed, 0xf0, 0xf3, 0xf4, 0xf5,
    ];
    let n = alphabet.len();
    for code in 0..n * n * n * n {
        let s = [
            alphabet[code % n],
            alphabet[code / n % n],
            alphabet[code / n / n % n],
            alphabet[code / n / n / n],
        ];
        for c in [&b"\xfd"[..], b"\x00\x05\xa0\xfd"] {
            let (front, back) = trimmed(&s, &|x| c.contains(&(x as u32 as u8)));
            let chars = || OptionalArg::Present(Some(bytes(c)));
            assert_eq!(bytes(&s).lstrip(chars()), front);
            assert_eq!(bytes(&s).rstrip(chars()), back);
        }
        let (front, back) = trimmed(&s, &|x| x.is_whitespace());
        assert_eq!(bytes(&s).lstrip(OptionalArg::Missing), front);
        assert_eq!(bytes(&s).rstrip(OptionalArg::Missing), back);
    }
}

#[test]
fn strip_knows_all_white_space() {
    for n in 0..0x11_0000u32 {
        if let Some(c) = char::from_u32(n) {
            let mut buffer = [0u8; 4];
            let s = bytes(c.encode_utf8(&mut buffer).as_bytes());
            assert_eq!(s.lstrip(OptionalArg::Missing).is_empty(), c.is_whitespace());
            assert_eq!(s.rstrip(OptionalArg::Missing).is_empty(), c.is_whitespace());
        }
    }
}

#[test]
fn stripping_twice_changes_nothing_more() {
    let chars = |b: &[u8]| OptionalArg::Present(Some(bytes(b)));
    for s in [&b"  a  "[..], b"\xff\xfe a \xfd", b"xx\xc3xx", b"\xe2\x80 x \xe2\x80"] {
        for c in [&b" "[..], b"x", b"\xfd", b"\xfd x", b""] {
            let once = bytes(s).lstrip(chars(c));
            assert_eq!(bytes(&once).lstrip(chars(c)), once);
            let once = bytes(s).rstrip(chars(c));
            assert_eq!(bytes(&once).rstrip(chars(c)), once);
            let both = bytes(&bytes(s).lstrip(chars(c))).rstrip(chars(c));
            assert_eq!(bytes(s).strip(chars(c)), both);
        }
        let once = bytes(s).lstrip(OptionalArg::Missing);
        assert_eq!(bytes(&once).lstrip(OptionalArg::Missing), once);
        let once = bytes(s).rstrip(OptionalArg::Missing);
        assert_eq!(bytes(&once).rstrip(OptionalArg::Missing), once);
    }
}

#[test]
fn replace_some_or_all() {
    assert_eq!(replace(b"one one one", b"one", b"two", None), b"two two two".to_vec());
    assert_eq!(replace(b"one one one", b"one", b"two", Some(2)), b"two two one".to_vec());
    assert_eq!(replace(b"one one one", b"one", b"", Some(-1)), b"  ".to_vec());
    assert_eq!(replace(b"aaa", b"aa", b"b", None), b"ba".to_vec());
    assert_eq!(replace(b"abc", b"x", b"y", None), b"abc".to_vec());
    assert_eq!(replace(b"abc", b"abc", b"", None), b"".to_vec());
    assert_eq!(replace(b"abc", b"b", b"b", None), b"abc".to_vec());
    assert_eq!(replace(b"abc", b"b", b"x", Some(0)), b"abc".to_vec());
    assert_eq!(replace(b"", b"abc", b"x", None), b"".to_vec());
    assert_eq!(replace(b"ab", b"abc", b"x", Some(0)), b"ab".to_vec());
    assert_eq!(replace(b"aXbX", b"X", b"--", Some(i64::MAX)), b"a--b--".to_vec());
}

#[test]
fn replacing_nothing_puts_the_new_bytes_at_the_start() {
    assert_eq!(replace(b"ab", b"", b"-", None), b"--ab".to_vec());
    assert_eq!(replace(b"ab", b"", b"-", Some(3)), b"---ab".to_vec());
    assert_eq!(replace(b"", b"", b"-", None), b"".to_vec());
    assert_eq!(replace(b"", b"", b"-", Some(1)), b"-".to_vec());
}

#[test]
fn repeat_some_times() {
    assert_eq!(bytes(b"ab").repeat(3), b"ababab".to_vec());
    assert_eq!(bytes(b"ab").repeat(1), b"ab".to_vec());
    assert_eq!(bytes(b"ab").repeat(0), b"".to_vec());
    assert_eq!(bytes(b"ab").repeat(-2), b"".to_vec());
    assert_eq!(bytes(b"").repeat(isize::MAX), b"".to_vec());
    for n in [-1isize, 0, 1, 2, 5] {
        let mut b = bytes(b"xyz");
        b.irepeat(n);
        assert_eq!(b.elements, bytes(b"xyz").repeat(n));
    }
    let mut b = bytes(b"");
    b.irepeat(isize::MAX);
    assert_eq!(b.elements, b"".to_vec());
    assert_eq!(bytes(b"ab").repeat(5), bytes(&bytes(b"ab").repeat(2)).add(bytes(b"ababab")));
    assert_eq!(bytes(&bytes(b"ab").repeat(2)).repeat(3), bytes(b"ab").repeat(6));
}

#[test]
fn translate_by_a_table() {
    let t = table(b"abc", b"xyz");
    assert_eq!(t.elements.len(), 256);
    assert_eq!(translate(b"aabbcc-d", t), b"xxyyzz-d".to_vec());
    assert_eq!(translate(b"aa", table(b"aa", b"xy")), b"xx".to_vec());
    let identity: Vec<u8> = (0..=255).collect();
    assert_eq!(table(b"abc", b"abc").elements, identity);
    assert_eq!(translate(&translate(b"cab", table(b"abc", b"bca")), table(b"bca", b"abc")), b"cab".to_vec());
}

#[test]
fn translate_without_some_bytes() {
    let options = ByteInnerTranslateOptions {
        table: Either::B(PyNone),
        delete: OptionalArg::Present(bytes(b"lo")),
    };
    assert_eq!(bytes(b"hello world").translate(options).unwrap(), b"he wrd".to_vec());
    let options = ByteInnerTranslateOptions {
        table: Either::A(table(b"h", b"j")),
        delete: OptionalArg::Present(bytes(b"j")),
    };
    assert_eq!(bytes(b"hj").translate(options).unwrap(), b"j".to_vec());
    let options =
        ByteInnerTranslateOptions { table: Either::B(PyNone), delete: OptionalArg::Missing };
    assert_eq!(bytes(b"same").translate(options).unwrap(), b"same".to_vec());
}

#[test]
fn translate_refuses_a_short_table() {
    let options = ByteInnerTranslateOptions {
        table: Either::A(bytes(b"abc")),
        delete: OptionalArg::Missing,
    };
    let e = bytes(b"x").translate(options).unwrap_err();
    assert_eq!(e.kind, ErrorKind::ValueError);
    assert_eq!(e.message, "translation table must be 256 characters long");
}
