use pybytes::error::{ErrorKind, PyError};
use pybytes::inner::PyByteInner;
use pybytes::integer::PyInt;
use pybytes::object::{OptionalArg, PyIterable};
use pybytes::options::{
    ByteInnerExpandtabsOptions, ByteInnerSplitOptions, ByteInnerSplitlinesOptions,
};

fn bytes(b: &[u8]) -> PyByteInner {
    PyByteInner { elements: b.to_vec() }
}

fn options(sep: Option<&[u8]>, max: Option<isize>) -> ByteInnerSplitOptions {
    ByteInnerSplitOptions {
        sep: OptionalArg::Present(sep.map(bytes)),
        maxsplit: match max {
            Some(n) => OptionalArg::Present(n),
            None => OptionalArg::Missing,
        },
    }
}

fn pieces(s: &[u8], sep: Option<&[u8]>, max: Option<isize>, reverse: bool) -> Vec<Vec<u8>> {
    let b = bytes(s);
    let v = b.split(options(sep, max), reverse).unwrap();
    v.iter().map(|p| p.to_vec()).collect()
}

fn lines(s: &[u8], keepends: OptionalArg<bool>) -> Vec<Vec<u8>> {
    let b = bytes(s);
    let v = b.splitlines(ByteInnerSplitlinesOptions { keepends });
    v.iter().map(|p| p.to_vec()).collect()
}

fn vecs(v: &[&[u8]]) -> Vec<Vec<u8>> {
    v.iter().map(|p| p.to_vec()).collect()
}

fn join(sep: &[u8], parts: Vec<Vec<u8>>) -> Vec<u8> {
    let steps = parts.into_iter().map(|p| Ok(PyByteInner { elements: p })).collect();
    bytes(sep).join(PyIterable { steps: Ok(steps) }).unwrap()
}

fn expand(s: &[u8], tabsize: Option<i64>) -> Vec<u8> {
    let tabsize = match tabsize {
        Some(n) => OptionalArg::Present(PyInt::new(n)),
        None => OptionalArg::Missing,
    };
    bytes(s).expandtabs(ByteInnerExpandtabsOptions { tabsize })
}

#[test]
fn split_by_a_separator() {
    assert_eq!(pieces(b"a,b,c", Some(b","), None, false), vecs(&[b"a", b"b", b"c"]));
    assert_eq!(pieces(b"a,b,c", Some(b","), Some(1), false), vecs(&[b"a", b"b,c"]));
    assert_eq!(pieces(b"a,b,c", Some(b","), Some(2), false), vecs(&[b"a", b"b", b"c"]));
    assert_eq!(pieces(b"a,b,c", Some(b","), Some(0), false), vecs(&[b"a", b"b", b"c"]));
    assert_eq!(pieces(b",a,,b,", Some(b","), None, false), vecs(&[b"", b"a", b"", b"b", b""]));
    assert_eq!(pieces(b"abc", Some(b"x"), None, false), vecs(&[b"abc"]));
    assert_eq!(pieces(b"abc", Some(b"abc"), None, false), vecs(&[b"", b""]));
    assert_eq!(pieces(b"abc", Some(b"abcd"), None, false), vecs(&[b"abc"]));
    assert_eq!(pieces(b"aaa", Some(b"aa"), None, false), vecs(&[b"", b"a"]));
    assert_eq!(pieces(b"", Some(b","), None, false), vecs(&[b""]));
}

#[test]
fn split_by_a_separator_from_the_right() {
    assert_eq!(pieces(b"a,b,c", Some(b","), None, true), vecs(&[b"a", b"b", b"c"]));
    assert_eq!(pieces(b"a,b,c", Some(b","), Some(1), true), vecs(&[b"a,b", b"c"]));
    assert_eq!(pieces(b"a,b,c", Some(b","), Some(0), true), vecs(&[b"a", b"b", b"c"]));
    assert_eq!(pieces(b",a,,b,", Some(b","), None, true), vecs(&[b"", b"a", b"", b"b", b""]));
    assert_eq!(pieces(b"aaa", Some(b"aa"), None, true), vecs(&[b"a", b""]));
    assert_eq!(pieces(b"", Some(b","), None, true), vecs(&[b""]));
}

#[test]
fn split_into_words() {
    assert_eq!(pieces(b"  one\t two\r\nthree ", None, None, false), vecs(&[b"one", b"two", b"three"]));
    assert_eq!(pieces(b"  one two  three", None, Some(1), false), vecs(&[b"one", b"two  three"]));
    assert_eq!(pieces(b"one  two", None, Some(1), false), vecs(&[b"one", b" two"]));
    assert_eq!(pieces(b"  one two", None, Some(0), false), vecs(&[b"one two"]));
    assert_eq!(pieces(b"one ", None, Some(1), false), vecs(&[b"one", b""]));
    assert_eq!(pieces(b"one", None, Some(1), false), vecs(&[b"one"]));
    assert_eq!(pieces(b"", None, None, false), vecs(&[]));
    assert_eq!(pieces(b"a\x0bb\x0cc", None, None, false), vecs(&[b"a\x0bb\x0cc"]));
    let missing = ByteInnerSplitOptions { sep: OptionalArg::Missing, maxsplit: OptionalArg::Missing };
    assert_eq!(bytes(b"x y").split(missing, false).unwrap(), vec![&b"x"[..], &b"y"[..]]);
    assert_eq!(pieces(b"x y", Some(b""), None, false), vecs(&[b"x", b"y"]));
}

#[test]
fn split_into_words_from_the_right() {
    assert_eq!(pieces(b"  one two three ", None, None, true), vecs(&[b"one", b"two", b"three"]));
    assert_eq!(pieces(b"one two three", None, Some(1), true), vecs(&[b"one two", b"three"]));
    assert_eq!(pieces(b"one two  ", None, Some(0), true), vecs(&[b"one two"]));
    assert_eq!(pieces(b"a two three", None, None, true), vecs(&[b"a", b"two", b"three"]));
    assert_eq!(pieces(b"one two three", None, None, true), vecs(&[b"one", b"two", b"three"]));
    assert_eq!(pieces(b"one two three", None, Some(2), true), vecs(&[b"one", b"two", b"three"]));
    assert_eq!(pieces(b"ab c", None, None, true), vecs(&[b"ab", b"c"]));
    assert_eq!(pieces(b"ab", None, Some(1), true), vecs(&[b"ab"]));
    assert_eq!(pieces(b" ab", None, None, true), vecs(&[b"ab"]));
    assert_eq!(pieces(b" ab", None, Some(1), true), vecs(&[b"", b"ab"]));
    assert_eq!(pieces(b"a", None, None, true), vecs(&[b"a"]));
    assert_eq!(pieces(b"", None, None, true), vecs(&[]));
}

#[test]
fn words_are_the_same_from_both_sides() {
    for s in [&b"  one two three"[..], b"one two", b"ab c", b" x y", b"\t\n x  y\r\r", b"a", b""] {
        assert_eq!(pieces(s, None, None, true), pieces(s, None, None, false));
    }
}

#[test]
fn words_hold_no_separator() {
    let words = pieces(b" a\tb\nc\rd  e ", None, None, false);
    assert_eq!(words.concat(), b"abcde".to_vec());
    assert_eq!(words.len(), 5);
}

#[test]
fn join_with_a_separator() {
    assert_eq!(join(b", ", vecs(&[b"a", b"b", b"c"])), b"a, b, c".to_vec());
    assert_eq!(join(b",", vecs(&[b"a", b"", b"c"])), b"a,,c".to_vec());
    assert_eq!(join(b",", vecs(&[b"", b"b"])), b"b".to_vec());
    assert_eq!(join(b",", vecs(&[b"", b"", b"b", b""])), b"b,".to_vec());
    assert_eq!(join(b",", vecs(&[])), b"".to_vec());
    assert_eq!(join(b"", vecs(&[b"a", b"b"])), b"ab".to_vec());
}

#[test]
fn join_raises_what_the_iteration_raises() {
    let failure = || PyError { kind: ErrorKind::Exception, message: "stop".to_owned() };
    let steps = Ok(vec![Ok(bytes(b"a")), Err(failure()), Ok(bytes(b"b"))]);
    assert_eq!(bytes(b",").join(PyIterable { steps }).unwrap_err().message, "stop");
    let steps = Err(failure());
    assert_eq!(bytes(b",").join(PyIterable { steps }).unwrap_err().kind, ErrorKind::Exception);
}

#[test]
fn joining_undoes_splitting() {
    for s in [&b"a,b,c"[..], b"abc", b"a,,b,", b"", b"x,"] {
        for max in [None, Some(-3), Some(0), Some(1), Some(2)] {
            for reverse in [false, true] {
                assert_eq!(join(b",", pieces(s, Some(b","), max, reverse)), s.to_vec());
            }
        }
    }
}

#[test]
fn a_limit_allows_one_piece_more() {
    for max in [1isize, 2, 3] {
        for reverse in [false, true] {
            let n = max as usize + 1;
            assert_eq!(pieces(b"a,b,c,d,e", Some(b","), Some(max), reverse).len(), n);
            assert_eq!(pieces(b"a b c d e", None, Some(max), reverse).len(), n);
        }
    }
}

#[test]
fn split_lines() {
    let s = b"one\ntwo\r\nthree\rfour";
    let bare = vecs(&[b"one", b"two", b"three", b"four"]);
    assert_eq!(lines(s, OptionalArg::Missing), bare);
    assert_eq!(lines(s, OptionalArg::Present(false)), bare);
    let full = vecs(&[b"one\n", b"two\r\n", b"three\r", b"four"]);
    assert_eq!(lines(s, OptionalArg::Present(true)), full);
    assert_eq!(lines(b"", OptionalArg::Present(true)), vecs(&[]));
    assert_eq!(lines(b"\n\r", OptionalArg::Missing), vecs(&[b"", b""]));
    assert_eq!(lines(b"a\n", OptionalArg::Missing), vecs(&[b"a"]));
    assert_eq!(lines(b"\r", OptionalArg::Present(true)), vecs(&[b"\r"]));
    assert_eq!(lines(b"a\x0bb", OptionalArg::Missing), vecs(&[b"a\x0bb"]));
}

#[test]
fn lines_with_their_ends_make_up_the_byte_string() {
    for s in [&b"a\r\n\nb\r"[..], b"\n\n\n", b"no end", b"\r\n\r\n", b"x\n\ry"] {
        let full = lines(s, OptionalArg::Present(true));
        assert_eq!(full.concat(), s.to_vec());
        assert_eq!(full.len(), lines(s, OptionalArg::Missing).len());
    }
}

#[test]
fn expand_tabs() {
    assert_eq!(expand(b"a\tb", None), b"a       b".to_vec());
    assert_eq!(expand(b"\t", Some(4)), b"    ".to_vec());
    assert_eq!(expand(b"abcd\te", Some(4)), b"abcd    e".to_vec());
    assert_eq!(expand(b"ab\nc\td", Some(4)), b"ab\nc   d".to_vec());
    assert_eq!(expand(b"ab\rc\td", Some(4)), b"ab\rc   d".to_vec());
    assert_eq!(expand(b"a\tb\tc", Some(0)), b"abc".to_vec());
    assert_eq!(expand(b"a\tb", Some(-5)), b"ab".to_vec());
    assert_eq!(expand(b"a\tb", Some(1)), b"a b".to_vec());
    assert_eq!(expand(b"no tabs", Some(3)), b"no tabs".to_vec());
    let huge = PyInt { bytes: vec![0, 0, 0, 0, 0, 0, 0, 0, 1] };
    let options = ByteInnerExpandtabsOptions { tabsize: OptionalArg::Present(huge) };
    assert_eq!(bytes(b"a\tb").expandtabs(options), b"ab".to_vec());
}
