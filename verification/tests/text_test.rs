use pybytes::error::ErrorKind;
use pybytes::inner::PyByteInner;

fn bytes(b: &[u8]) -> PyByteInner {
    PyByteInner { elements: b.to_vec() }
}

fn every_byte() -> Vec<u8> {
    (0..=255).collect()
}

#[test]
fn questions_agree_with_the_characters_of_the_bytes() {
    for b in every_byte() {
        let c = char::from(b);
        let s = bytes(&[b]);
        assert_eq!(s.isalnum(), c.is_alphanumeric());
        assert_eq!(s.isalpha(), c.is_alphabetic());
        assert_eq!(s.isascii(), c.is_ascii());
        assert_eq!(s.isdigit(), c.is_digit(10));
        assert_eq!(s.islower(), c.is_lowercase());
        assert_eq!(s.isupper(), c.is_uppercase());
        assert_eq!(s.isspace(), c.is_ascii_whitespace());
    }
}

#[test]
fn questions_on_the_empty_byte_string() {
    let s = bytes(b"");
    assert!(!s.isalnum());
    assert!(!s.isalpha());
    assert!(s.isascii());
    assert!(!s.isdigit());
    assert!(!s.islower());
    assert!(!s.isupper());
    assert!(!s.isspace());
    assert!(!s.istitle());
}

#[test]
fn questions_on_several_bytes() {
    assert!(bytes(b"abc123").isalnum());
    assert!(!bytes(b"abc 123").isalnum());
    assert!(bytes(b"abc").isalpha());
    assert!(!bytes(b"abc1").isalpha());
    assert!(bytes(b"0123456789").isdigit());
    assert!(!bytes(b"1.2").isdigit());
    assert!(bytes(b"abc 1").islower());
    assert!(!bytes(b"abC").islower());
    assert!(!bytes(b"123").islower());
    assert!(bytes(b"ABC 1").isupper());
    assert!(!bytes(b"ABc").isupper());
    assert!(bytes(b" \t\n\r\x0c").isspace());
    assert!(!bytes(b" \x0b").isspace());
    assert!(!bytes(b"ab\x80").isascii());
}

fn title_by_characters(s: &[u8]) -> bool {
    let cased = |c: char| {
        c.to_uppercase().next().unwrap() != c || c.to_lowercase().next().unwrap() != c
    };
    let mut prev_cased = false;
    for i in 0..s.len() {
        let current = char::from(s[i]);
        if i + 1 == s.len() {
            return if current.is_uppercase() { !prev_cased } else { prev_cased };
        }
        let next = char::from(s[i + 1]);
        if (cased(current) && next.is_uppercase() && !prev_cased)
            || (!cased(current) && next.is_lowercase())
        {
            return false;
        }
        prev_cased = cased(current);
    }
    false
}

#[test]
fn istitle_on_samples() {
    assert!(bytes(b"Hello World").istitle());
    assert!(bytes(b"A").istitle());
    assert!(!bytes(b"a").istitle());
    assert!(bytes(b"hello World").istitle());
    assert!(!bytes(b"Hello world").istitle());
    assert!(!bytes(b"HEllo").istitle());
    assert!(!bytes(b"1").istitle());
    assert!(bytes(b"A1").istitle());
}

#[test]
fn istitle_agrees_with_the_characters_of_the_bytes() {
    for a in every_byte() {
        assert_eq!(bytes(&[a]).istitle(), title_by_characters(&[a]));
        for b in every_byte() {
            assert_eq!(bytes(&[a, b]).istitle(), title_by_characters(&[a, b]));
            let three = [b'A', a, b];
            assert_eq!(bytes(&three).istitle(), title_by_characters(&three));
        }
    }
}

#[test]
fn change_of_case() {
    let s = bytes(b"hELLO wORLD 1\xe9\xc9");
    assert_eq!(s.lower(), b"hello world 1\xe9\xc9".to_vec());
    assert_eq!(s.upper(), b"HELLO WORLD 1\xe9\xc9".to_vec());
    assert_eq!(s.swapcase(), b"Hello World 1\xe9\xc9".to_vec());
    assert_eq!(s.capitalize(), b"Hello world 1\xe9\xc9".to_vec());
    assert_eq!(s.title(), b"Hello World 1\xe9\xc9".to_vec());
    assert_eq!(bytes(b"they're bill's").title(), b"They'Re Bill'S".to_vec());
    assert_eq!(bytes(b"").capitalize(), b"".to_vec());
    assert_eq!(bytes(b"1abC").capitalize(), b"1abc".to_vec());
}

#[test]
fn change_of_case_agrees_with_ascii() {
    let all = every_byte();
    assert_eq!(bytes(&all).lower(), all.to_ascii_lowercase());
    assert_eq!(bytes(&all).upper(), all.to_ascii_uppercase());
    let once = PyByteInner { elements: bytes(&all).swapcase() };
    assert_eq!(once.swapcase(), all);
    assert_eq!(once.lower(), bytes(&all).lower());
    let titled = PyByteInner { elements: bytes(&all).title() };
    assert_eq!(titled.title(), titled.elements);
}

#[test]
fn case_is_told_after_a_change() {
    let s = bytes(b"Mixed Case 7");
    assert!(PyByteInner { elements: s.lower() }.islower());
    assert!(PyByteInner { elements: s.upper() }.isupper());
    assert!(PyByteInner { elements: bytes(b"some words").title() }.istitle());
}

#[test]
fn hexadecimal_digits() {
    assert_eq!(bytes(b"\x00\x0f\xa5\xff").hex(), "000fa5ff");
    assert_eq!(bytes(b"").hex(), "");
}

#[test]
fn hexadecimal_digits_are_read_again() {
    let all = every_byte();
    assert_eq!(PyByteInner::fromhex(&bytes(&all).hex()).unwrap(), all);
    let text = "00ff7a";
    let read = PyByteInner { elements: PyByteInner::fromhex(text).unwrap() };
    assert_eq!(read.hex(), text);
}

#[test]
fn fromhex_ignores_white_space() {
    assert_eq!(PyByteInner::fromhex(" 0A fF\t7\n0 ").unwrap(), vec![10, 255, 112]);
    assert_eq!(PyByteInner::fromhex("").unwrap(), Vec::<u8>::new());
    assert_eq!(PyByteInner::fromhex("a\u{2003}b\u{a0}").unwrap(), vec![0xab]);
}

#[test]
fn fromhex_tells_the_position() {
    let prefix = "non-hexadecimal number found in fromhex() arg at position ";
    for (text, position) in [
        ("zz", 0),
        ("12g4", 2),
        ("a\u{2003}x", 4),
        ("\u{3000}\u{3000}\u{3000}\u{3000}?", 12),
        ("abc", 2),
        (" a b c ", 2),
    ] {
        let e = PyByteInner::fromhex(text).unwrap_err();
        assert_eq!(e.kind, ErrorKind::ValueError);
        assert_eq!(e.message, format!("{}{}", prefix, position));
    }
}

#[test]
fn fromhex_knows_all_white_space() {
    for n in 0..0x1_0000u32 {
        if let Some(c) = char::from_u32(n) {
            let text = format!("0{}0", c);
            let read = PyByteInner::fromhex(&text);
            if c.is_whitespace() {
                assert_eq!(read.unwrap(), vec![0]);
            } else {
                assert!(read.is_err());
            }
        }
    }
}

#[test]
fn representation_with_escapes() {
    assert_eq!(bytes(b"abc ~").repr().unwrap(), "abc ~");
    assert_eq!(bytes(b"\t\n\r").repr().unwrap(), "\\t\\n\\r");
    assert_eq!(bytes(b"\x00\x08\x0b").repr().unwrap(), "\\x00\\x08\\x0b");
    assert_eq!(bytes(b"\x0c\x0e\x0f").repr().unwrap(), "\\xc\\xe\\xf");
    assert_eq!(bytes(b"\x1f\x7f\xff").repr().unwrap(), "\\x1f\\x7f\\xff");
    assert_eq!(bytes(b"'\"\\").repr().unwrap(), "'\"\\");
}

#[test]
fn representation_is_printable() {
    let text = bytes(&every_byte()).repr().unwrap();
    assert!(text.chars().all(|c| c >= ' ' && c <= '~'));
    assert!(text.len() >= 256);
}
