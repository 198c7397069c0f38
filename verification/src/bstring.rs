//! The byte string algorithms of `bstr`, and what the library relies on of them.
use bstr::ByteSlice;
use vstd::prelude::*;
use vstd::utf8::{
    decode_first_scalar, decode_utf8, decode_utf8_encode_utf8, decode_utf8_split, encode_utf8,
    is_char_boundary_iff_not_is_continuation_byte, is_continuation_byte, length_of_first_scalar,
    pop_first_scalar, valid_first_scalar, valid_utf8, valid_utf8_split,
};

use crate::search::{first_occurrence, has_byte, last_occurrence};
use crate::text::{REPLACEMENT, is_white_space};

verus! {

/// At most `limit` pieces of `s`, split from the left at the occurrences of `sep` that do not
/// overlap. The last piece is the rest of `s`.
pub open spec fn split_at_most(s: Seq<u8>, sep: Seq<u8>, limit: nat) -> Seq<Seq<u8>>
    decreases limit,
{
    if limit == 0 {
        Seq::empty()
    } else {
        match first_occurrence(s, sep) {
            Some(i) => if limit == 1 {
                seq![s]
            } else {
                seq![s.take(i)] + split_at_most(
                    s.skip(i + sep.len()),
                    sep,
                    (limit - 1) as nat,
                )
            },
            None => seq![s],
        }
    }
}

/// At most `limit` pieces of `s`, split from the right at the occurrences of `sep` that do not
/// overlap, the rightmost piece first. The last piece is the rest of `s`.
pub open spec fn split_back_at_most(s: Seq<u8>, sep: Seq<u8>, limit: nat) -> Seq<Seq<u8>>
    decreases limit,
{
    if limit == 0 {
        Seq::empty()
    } else {
        match last_occurrence(s, sep) {
            Some(i) => if limit == 1 {
                seq![s]
            } else {
                seq![s.skip(i + sep.len())] + split_back_at_most(
                    s.take(i),
                    sep,
                    (limit - 1) as nat,
                )
            },
            None => seq![s],
        }
    }
}

/// The contents of a vector of byte strings.
pub open spec fn contents(v: Seq<Vec<u8>>) -> Seq<Seq<u8>> {
    v.map_values(|p: Vec<u8>| p@)
}

/// `ByteSlice::splitn_str` of `bstr`, its pieces copied: at most `limit` pieces, split from the
/// left by a separator that is not empty.
#[verifier::external_body]
pub(crate) fn splitn_str(s: &[u8], limit: usize, sep: &[u8]) -> (r: Vec<Vec<u8>>)
    requires
        sep@.len() > 0,
    ensures
        contents(r@) == split_at_most(s@, sep@, limit as nat),
{
    s.splitn_str(limit, sep).map(|piece| piece.to_vec()).collect()
}

/// `ByteSlice::rsplitn_str` of `bstr`, its pieces copied: at most `limit` pieces, split from the
/// right by a separator that is not empty, the rightmost piece first.
#[verifier::external_body]
pub(crate) fn rsplitn_str(s: &[u8], limit: usize, sep: &[u8]) -> (r: Vec<Vec<u8>>)
    requires
        sep@.len() > 0,
    ensures
        contents(r@) == split_back_at_most(s@, sep@, limit as nat),
{
    s.rsplitn_str(limit, sep).map(|piece| piece.to_vec()).collect()
}

/// The byte that the lowest eight bits of a character's number make.
pub open spec fn low_byte(c: char) -> u8 {
    (c as u32 % 256) as u8
}

/// The characters without those at the start that `drop` picks.
pub open spec fn without_leading(chars: Seq<char>, drop: spec_fn(char) -> bool) -> Seq<char>
    decreases chars.len(),
{
    if chars.len() > 0 && drop(chars[0]) {
        without_leading(chars.drop_first(), drop)
    } else {
        chars
    }
}

/// The characters without those at the end that `drop` picks.
pub open spec fn without_trailing(chars: Seq<char>, drop: spec_fn(char) -> bool) -> Seq<char>
    decreases chars.len(),
{
    if chars.len() > 0 && drop(chars.last()) {
        without_trailing(chars.drop_last(), drop)
    } else {
        chars
    }
}

/// Whether `r` is `s` without characters at the start that `drop` picks. `r` is the end of `s`; of
/// the ASCII bytes, which are characters wherever they stand, `drop` picks all that are gone and
/// not the one, if any, that `r` starts with; and of valid UTF-8 `r` is exactly what is left
/// behind the characters that `drop` picks.
pub open spec fn is_trimmed_start(s: Seq<u8>, r: Seq<u8>, drop: spec_fn(char) -> bool) -> bool {
    &&& r.len() <= s.len()
    &&& r == s.skip(s.len() - r.len())
    &&& forall|i: int| 0 <= i < s.len() - r.len() && s[i] < 128 ==> drop(#[trigger] s[i] as char)
    &&& r.len() > 0 && r[0] < 128 ==> !drop(r[0] as char)
    &&& valid_utf8(s) ==> r == encode_utf8(without_leading(decode_utf8(s), drop))
}

/// Whether `r` is `s` without characters at the end that `drop` picks. `r` is the start of `s`; of
/// the ASCII bytes, which are characters wherever they stand, `drop` picks all that are gone and
/// not the one, if any, that `r` ends with; and of valid UTF-8 `r` is exactly what is left
/// before the characters that `drop` picks.
pub open spec fn is_trimmed_end(s: Seq<u8>, r: Seq<u8>, drop: spec_fn(char) -> bool) -> bool {
    &&& r.len() <= s.len()
    &&& r == s.take(r.len() as int)
    &&& forall|i: int| r.len() <= i < s.len() && s[i] < 128 ==> drop(#[trigger] s[i] as char)
    &&& r.len() > 0 && r.last() < 128 ==> !drop(r.last() as char)
    &&& valid_utf8(s) ==> r == encode_utf8(without_trailing(decode_utf8(s), drop))
}

/// Whether `r` is `s` without characters at the start, and then at the end, that `drop` picks.
pub open spec fn is_trimmed(s: Seq<u8>, r: Seq<u8>, drop: spec_fn(char) -> bool) -> bool {
    exists|mid: Seq<u8>| #[trigger]
        is_trimmed_start(s, mid, drop) && is_trimmed_end(mid, r, drop)
}

/// The test for white space.
pub open spec fn white_space() -> spec_fn(char) -> bool {
    |c: char| is_white_space(c)
}

/// The test for the characters whose low byte is one of `bytes`.
pub open spec fn one_of(bytes: Seq<u8>) -> spec_fn(char) -> bool {
    |c: char| bytes.contains(low_byte(c))
}

/// Whether two bytes can start the encoding of a character that takes three or four bytes.
pub open spec fn starts_encoding(a: u8, b: u8) -> bool {
    is_continuation_byte(b) && {
        ||| a == 0xe0 && 0xa0 <= b
        ||| 0xe1 <= a <= 0xef && (a == 0xed ==> b <= 0x9f)
        ||| a == 0xf0 && 0x90 <= b
        ||| 0xf1 <= a <= 0xf3
        ||| a == 0xf4 && b <= 0x8f
    }
}

/// The length of the start of `s`, which no encoding of a character starts with, that stands for
/// one replacement character: as much of it as could start an encoding, and at least one byte.
pub open spec fn broken_len(s: Seq<u8>) -> int {
    if s.len() >= 2 && starts_encoding(s[0], s[1]) {
        if s.len() >= 3 && s[0] >= 0xf0 && is_continuation_byte(s[2]) {
            3
        } else {
            2
        }
    } else {
        1
    }
}

/// The first character of `s`, and the number of its bytes. Bytes that are not valid UTF-8 stand
/// for the replacement character.
pub open spec fn first_char(s: Seq<u8>) -> (char, int) {
    if s[0] < 128 {
        (s[0] as char, 1)
    } else if valid_first_scalar(s) {
        (decode_first_scalar(s) as char, length_of_first_scalar(s))
    } else {
        (REPLACEMENT, broken_len(s))
    }
}

/// Where the last character of `s` can start: the last position that is no continuation of a
/// character, but not more than four bytes before the end.
pub open spec fn last_start(s: Seq<u8>) -> int {
    let n = s.len() as int;
    if n == 1 || !is_continuation_byte(s[n - 1]) {
        n - 1
    } else if n == 2 || !is_continuation_byte(s[n - 2]) {
        n - 2
    } else if n == 3 || !is_continuation_byte(s[n - 3]) {
        n - 3
    } else {
        n - 4
    }
}

/// The last character of `s`, and the number of its bytes. A last byte that no character and no
/// start of one ends with stands for the replacement character.
pub open spec fn last_char(s: Seq<u8>) -> (char, int) {
    let (c, n) = first_char(s.skip(last_start(s)));
    if last_start(s) + n == s.len() {
        (c, n)
    } else {
        (REPLACEMENT, 1)
    }
}

/// The first character has at least one byte, no more than four, and no more than there are.
pub proof fn lemma_first_char(s: Seq<u8>)
    requires
        s.len() > 0,
    ensures
        1 <= first_char(s).1 <= 4,
        first_char(s).1 <= s.len(),
        s[0] >= 128 ==> forall|i: int| 0 <= i < first_char(s).1 ==> #[trigger] s[i] >= 128,
{
}

/// The last character has at least one byte, no more than four, and no more than there are; an
/// ASCII byte at the end is the last character.
pub proof fn lemma_last_char(s: Seq<u8>)
    requires
        s.len() > 0,
    ensures
        1 <= last_char(s).1 <= 4,
        last_char(s).1 <= s.len(),
        s.last() < 128 ==> last_char(s) == (s.last() as char, 1int),
        s.last() >= 128 ==> forall|i: int|
            s.len() - last_char(s).1 <= i < s.len() ==> #[trigger] s[i] >= 128,
{
    let p = last_start(s);
    let t = s.skip(p);
    lemma_first_char(t);
    assert forall|i: int| p <= i < s.len() implies #[trigger] s[i] == t[i - p] by {}
    if s.last() >= 128 && p + first_char(t).1 == s.len() {
        assert(t[0] >= 128);
    }
}

/// `s` without the characters at its start that `drop` picks.
pub open spec fn trimmed_start(s: Seq<u8>, drop: spec_fn(char) -> bool) -> Seq<u8>
    decreases s.len(),
{
    if s.len() == 0 {
        s
    } else {
        proof {
            lemma_first_char(s);
        }
        let (c, n) = first_char(s);
        if drop(c) {
            trimmed_start(s.skip(n), drop)
        } else {
            s
        }
    }
}

/// `s` without the characters at its end that `drop` picks.
pub open spec fn trimmed_end(s: Seq<u8>, drop: spec_fn(char) -> bool) -> Seq<u8>
    decreases s.len(),
{
    if s.len() == 0 {
        s
    } else {
        proof {
            lemma_last_char(s);
        }
        let (c, n) = last_char(s);
        if drop(c) {
            trimmed_end(s.take(s.len() - n), drop)
        } else {
            s
        }
    }
}

/// What [`trimmed_start`] leaves.
pub proof fn lemma_trimmed_start(s: Seq<u8>, drop: spec_fn(char) -> bool)
    ensures
        is_trimmed_start(s, trimmed_start(s, drop), drop),
        trimmed_start(trimmed_start(s, drop), drop) == trimmed_start(s, drop),
    decreases s.len(),
{
    let r = trimmed_start(s, drop);
    if s.len() > 0 {
        let (c, n) = first_char(s);
        lemma_first_char(s);
        if valid_utf8(s) {
            lemma_first_of_valid(s);
        }
        if drop(c) {
            let t = s.skip(n);
            lemma_trimmed_start(t, drop);
            assert(r == t.skip(t.len() - r.len()));
            assert(r =~= s.skip(s.len() - r.len()));
            assert forall|i: int| 0 <= i < s.len() - r.len() && s[i] < 128 implies drop(
                #[trigger] s[i] as char,
            ) by {
                if i >= n {
                    assert(t[i - n] == s[i]);
                } else {
                    assert(i == 0);
                }
            }
            if valid_utf8(s) {
                assert(t =~= pop_first_scalar(s));
                assert(decode_utf8(s).drop_first() =~= decode_utf8(t));
            }
        } else {
            assert(r =~= s.skip(0));
            if valid_utf8(s) {
                decode_utf8_encode_utf8(s);
            }
        }
    } else {
        assert(r =~= s.skip(0));
        assert(encode_utf8(without_leading(decode_utf8(s), drop)) =~= r);
    }
}

/// The first character of valid UTF-8.
proof fn lemma_first_of_valid(s: Seq<u8>)
    requires
        s.len() > 0,
        valid_first_scalar(s),
    ensures
        first_char(s) == (decode_first_scalar(s) as char, length_of_first_scalar(s)),
{
    let b = s[0];
    assert(b < 128 ==> b & 0x7f == b) by (bit_vector);
}

/// The last character of valid UTF-8 starts where [`last_start`] says.
proof fn lemma_last_start(s: Seq<u8>)
    requires
        s.len() > 0,
        valid_utf8(s),
    ensures
        0 <= last_start(s) < s.len(),
        !is_continuation_byte(s[last_start(s)]),
        valid_first_scalar(s.skip(last_start(s))),
        last_start(s) + length_of_first_scalar(s.skip(last_start(s))) == s.len(),
    decreases s.len(),
{
    let k = length_of_first_scalar(s);
    let rest = pop_first_scalar(s);
    if rest.len() == 0 {
        assert(s.skip(0) =~= s);
        assert(last_start(s) == 0);
    } else {
        lemma_last_start(rest);
        let p = last_start(rest);
        let n = s.len() as int;
        assert(forall|i: int| k <= i < n ==> #[trigger] s[i] == rest[i - k]);
        assert(rest.skip(p) =~= s.skip(k + p));
        assert(n - (k + p) <= 4);
        assert(last_start(s) == k + p);
    }
}

/// The last character of valid UTF-8.
proof fn lemma_last_of_valid(s: Seq<u8>)
    requires
        s.len() > 0,
        valid_utf8(s),
    ensures
        ({
            let (c, n) = last_char(s);
            let t = s.take(s.len() - n);
            &&& valid_utf8(t)
            &&& decode_utf8(s) == decode_utf8(t).push(c)
        }),
{
    let p = last_start(s);
    lemma_last_start(s);
    let t = s.skip(p);
    lemma_first_of_valid(t);
    is_char_boundary_iff_not_is_continuation_byte(s, p);
    valid_utf8_split(s, p);
    decode_utf8_split(s, p);
    assert(s.subrange(0, p) =~= s.take(p));
    assert(s.subrange(p, s.len() as int) =~= t);
    assert(pop_first_scalar(t) =~= Seq::empty());
    assert(decode_utf8(pop_first_scalar(t)) =~= Seq::empty());
    assert(decode_utf8(t) =~= seq![decode_first_scalar(t) as char]);
    assert(decode_utf8(s) =~= decode_utf8(s.take(p)).push(last_char(s).0));
}

/// What [`trimmed_end`] leaves.
pub proof fn lemma_trimmed_end(s: Seq<u8>, drop: spec_fn(char) -> bool)
    ensures
        is_trimmed_end(s, trimmed_end(s, drop), drop),
        trimmed_end(trimmed_end(s, drop), drop) == trimmed_end(s, drop),
    decreases s.len(),
{
    let r = trimmed_end(s, drop);
    if s.len() > 0 {
        let (c, n) = last_char(s);
        lemma_last_char(s);
        if valid_utf8(s) {
            lemma_last_of_valid(s);
        }
        if drop(c) {
            let t = s.take(s.len() - n);
            lemma_trimmed_end(t, drop);
            assert(r =~= s.take(r.len() as int));
            assert forall|i: int| r.len() <= i < s.len() && s[i] < 128 implies drop(
                #[trigger] s[i] as char,
            ) by {
                if i < t.len() {
                    assert(t[i] == s[i]);
                }
            }
            if valid_utf8(s) {
                assert(decode_utf8(t).push(c).drop_last() =~= decode_utf8(t));
            }
        } else {
            assert(r =~= s.take(s.len() as int));
            if valid_utf8(s) {
                decode_utf8_encode_utf8(s);
            }
        }
    } else {
        assert(r =~= s.take(0));
        assert(encode_utf8(without_trailing(decode_utf8(s), drop)) =~= r);
    }
}

/// Whether the low byte of a character is one of `bytes`.
pub(crate) fn low_byte_in(c: char, bytes: &[u8]) -> (r: bool)
    ensures
        r == one_of(bytes@)(c),
{
    let b: u8 = (c as u32 % 256) as u8;
    has_byte(bytes, b)
}

/// `ByteSlice::trim_start` of `bstr`, copied: takes away the white space at the start. Bytes that
/// are not valid UTF-8 are no white space.
#[verifier::external_body]
pub(crate) fn trim_start(s: &[u8]) -> (r: Vec<u8>)
    ensures
        r@ == trimmed_start(s@, white_space()),
{
    s.trim_start().to_vec()
}

/// `ByteSlice::trim_end` of `bstr`, copied: takes away the white space at the end. Bytes that are
/// not valid UTF-8 are no white space.
#[verifier::external_body]
pub(crate) fn trim_end(s: &[u8]) -> (r: Vec<u8>)
    ensures
        r@ == trimmed_end(s@, white_space()),
{
    s.trim_end().to_vec()
}

/// `ByteSlice::trim` of `bstr`, copied: what `trim_end` leaves of what `trim_start` leaves.
#[verifier::external_body]
pub(crate) fn trim(s: &[u8]) -> (r: Vec<u8>)
    ensures
        r@ == trimmed_end(trimmed_start(s@, white_space()), white_space()),
{
    s.trim().to_vec()
}

/// `ByteSlice::trim_start_with` of `bstr`, copied: takes away the characters at the start whose
/// low byte is one of `bytes`. Bytes that are not valid UTF-8 are replacement characters, one for
/// as many of them as could start a character.
#[verifier::external_body]
pub(crate) fn trim_start_with(s: &[u8], bytes: &[u8]) -> (r: Vec<u8>)
    ensures
        r@ == trimmed_start(s@, one_of(bytes@)),
{
    s.trim_start_with(|c| low_byte_in(c, bytes)).to_vec()
}

/// `ByteSlice::trim_end_with` of `bstr`, copied: takes away the characters at the end whose low
/// byte is one of `bytes`. Bytes that are not valid UTF-8 are replacement characters: one for as
/// many of them at the end as could start a character, else one for the last byte.
#[verifier::external_body]
pub(crate) fn trim_end_with(s: &[u8], bytes: &[u8]) -> (r: Vec<u8>)
    ensures
        r@ == trimmed_end(s@, one_of(bytes@)),
{
    s.trim_end_with(|c| low_byte_in(c, bytes)).to_vec()
}

/// `ByteSlice::trim_with` of `bstr`, copied: what `trim_end_with` leaves of what
/// `trim_start_with` leaves.
#[verifier::external_body]
pub(crate) fn trim_with(s: &[u8], bytes: &[u8]) -> (r: Vec<u8>)
    ensures
        r@ == trimmed_end(trimmed_start(s@, one_of(bytes@)), one_of(bytes@)),
{
    s.trim_with(|c| low_byte_in(c, bytes)).to_vec()
}

} // verus!
