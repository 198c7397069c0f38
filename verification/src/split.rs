//! Splitting a byte string into pieces.
use vstd::prelude::*;
use vstd::slice::slice_subrange;

use crate::error::PyResult;
use crate::inner::PyByteInner;
use crate::options::ByteInnerSplitOptions;
use crate::search::{
    find_back_from, find_from, first_occurrence_from, last_occurrence_from,
    lemma_first_occurrence_from, lemma_last_occurrence_from,
};

verus! {

/// Whether a byte separates words: a tab, a line feed, a carriage return or a space.
pub open spec fn is_separator(b: u8) -> bool {
    b == 9 || b == 10 || b == 13 || b == 32
}

/// The first position from `i` on that is in a word; the length of `s` where there is none.
pub open spec fn word_start(s: Seq<u8>, i: int) -> int
    decreases s.len() - i,
{
    if i >= s.len() {
        s.len() as int
    } else if is_separator(s[i]) {
        word_start(s, i + 1)
    } else {
        i
    }
}

/// The first position from `i` on that is not in a word; the length of `s` where there is none.
pub open spec fn word_end(s: Seq<u8>, i: int) -> int
    decreases s.len() - i,
{
    if i >= s.len() {
        s.len() as int
    } else if is_separator(s[i]) {
        i
    } else {
        word_end(s, i + 1)
    }
}

/// The end of the last word that starts before `i`; zero where there is none.
pub open spec fn last_word_end(s: Seq<u8>, i: int) -> int
    decreases i,
{
    if i <= 0 {
        0
    } else if is_separator(s[i - 1]) {
        last_word_end(s, i - 1)
    } else {
        i
    }
}

/// The start of the word that ends at `i`.
pub open spec fn last_word_start(s: Seq<u8>, i: int) -> int
    decreases i,
{
    if i <= 0 {
        0
    } else if is_separator(s[i - 1]) {
        i
    } else {
        last_word_start(s, i - 1)
    }
}

/// Where [`word_start`] is.
pub proof fn lemma_word_start(s: Seq<u8>, i: int)
    requires
        0 <= i <= s.len(),
    ensures
        i <= word_start(s, i) <= s.len(),
        word_start(s, i) < s.len() ==> !is_separator(s[word_start(s, i)]),
        forall|j: int| i <= j < word_start(s, i) ==> is_separator(s[j]),
    decreases s.len() - i,
{
    if i < s.len() && is_separator(s[i]) {
        lemma_word_start(s, i + 1);
    }
}

/// Where [`word_end`] is.
pub proof fn lemma_word_end(s: Seq<u8>, i: int)
    requires
        0 <= i <= s.len(),
    ensures
        i <= word_end(s, i) <= s.len(),
        i < s.len() && !is_separator(s[i]) ==> i < word_end(s, i),
        word_end(s, i) < s.len() ==> is_separator(s[word_end(s, i)]),
        forall|j: int| i <= j < word_end(s, i) ==> !is_separator(s[j]),
    decreases s.len() - i,
{
    if i < s.len() && !is_separator(s[i]) {
        lemma_word_end(s, i + 1);
    }
}

/// Where [`last_word_end`] is.
pub proof fn lemma_last_word_end(s: Seq<u8>, i: int)
    requires
        0 <= i <= s.len(),
    ensures
        0 <= last_word_end(s, i) <= i,
        last_word_end(s, i) > 0 ==> !is_separator(s[last_word_end(s, i) - 1]),
        forall|j: int| last_word_end(s, i) <= j < i ==> is_separator(s[j]),
    decreases i,
{
    if i > 0 && is_separator(s[i - 1]) {
        lemma_last_word_end(s, i - 1);
    }
}

/// Where [`last_word_start`] is.
pub proof fn lemma_last_word_start(s: Seq<u8>, i: int)
    requires
        0 <= i <= s.len(),
    ensures
        0 <= last_word_start(s, i) <= i,
        i > 0 && !is_separator(s[i - 1]) ==> last_word_start(s, i) < i,
        last_word_start(s, i) > 0 ==> is_separator(s[last_word_start(s, i) - 1]),
        forall|j: int| last_word_start(s, i) <= j < i ==> !is_separator(s[j]),
    decreases i,
{
    if i > 0 && !is_separator(s[i - 1]) {
        lemma_last_word_start(s, i - 1);
    }
}

/// The words of `s` from `i` on. After the word with the number `max`, counted from one, the
/// rest of `s` behind the byte that ends this word is one last piece. There is no limit where
/// `max` is not positive.
pub open spec fn words(s: Seq<u8>, i: int, max: int) -> Seq<Seq<u8>>
    decreases s.len() - i,
{
    let a = word_start(s, i);
    let b = word_end(s, a);
    if i < 0 || a >= s.len() {
        Seq::empty()
    } else {
        proof {
            lemma_word_start(s, i);
            lemma_word_end(s, a);
        }
        seq![s.subrange(a, b)] + (if b >= s.len() {
            Seq::empty()
        } else if max == 1 {
            seq![s.skip(b + 1)]
        } else {
            words(s, b + 1, max - 1)
        })
    }
}

/// The words of `s` before `i`, found from the right. Behind the word with the number `max`,
/// counted from one, the rest of `s` before the byte that precedes this word is one last piece.
/// There is no limit where `max` is not positive.
pub open spec fn words_back(s: Seq<u8>, i: int, max: int) -> Seq<Seq<u8>>
    decreases i,
{
    let b = last_word_end(s, i);
    let a = last_word_start(s, b);
    if i > s.len() || b <= 0 {
        Seq::empty()
    } else {
        proof {
            lemma_last_word_end(s, i);
            lemma_last_word_start(s, b);
        }
        if a <= 0 {
            seq![s.take(b)]
        } else {
            (if max == 1 {
                seq![s.take(a - 1)]
            } else {
                words_back(s, a - 1, max - 1)
            }).push(s.subrange(a, b))
        }
    }
}

/// The pieces of `s` from `p` on between the occurrences of `sep`. After the piece with the
/// number `max`, counted from one, the rest of `s` is one last piece. There is no limit where
/// `max` is not positive.
pub open spec fn pieces(s: Seq<u8>, sep: Seq<u8>, p: int, max: int) -> Seq<Seq<u8>>
    decreases s.len() - p,
{
    if p < 0 || p > s.len() || sep.len() == 0 {
        Seq::empty()
    } else {
        proof {
            lemma_first_occurrence_from(s, sep, p);
        }
        match first_occurrence_from(s, sep, p) {
            Some(i) => seq![s.subrange(p, i)] + (if max == 1 {
                seq![s.skip(i + sep.len())]
            } else {
                pieces(s, sep, i + sep.len(), max - 1)
            }),
            None => seq![s.skip(p)],
        }
    }
}

/// The pieces of `s` before `p` between the occurrences of `sep`, found from the right. Behind
/// the piece with the number `max`, counted from one, the rest of `s` is one last piece. There is
/// no limit where `max` is not positive.
pub open spec fn pieces_back(s: Seq<u8>, sep: Seq<u8>, p: int, max: int) -> Seq<Seq<u8>>
    decreases p,
{
    if p < 0 || p > s.len() || sep.len() == 0 {
        Seq::empty()
    } else {
        proof {
            lemma_last_occurrence_from(s, sep, p - sep.len());
        }
        match last_occurrence_from(s, sep, p - sep.len()) {
            Some(i) => (if max == 1 {
                seq![s.take(i)]
            } else {
                pieces_back(s, sep, i, max - 1)
            }).push(s.subrange(i + sep.len(), p)),
            None => seq![s.take(p)],
        }
    }
}

/// The pieces of a byte string. An empty separator stands for any run of bytes that separate
/// words; then `max` zero takes away the separators at one end and splits nothing.
pub open spec fn split_pieces(s: Seq<u8>, sep: Seq<u8>, max: int, reverse: bool) -> Seq<Seq<u8>> {
    if sep.len() > 0 {
        if reverse {
            pieces_back(s, sep, s.len() as int, max)
        } else {
            pieces(s, sep, 0, max)
        }
    } else if s.len() == 0 {
        Seq::empty()
    } else if reverse {
        if max == 0 {
            seq![s.take(last_word_end(s, s.len() as int))]
        } else {
            words_back(s, s.len() as int, max)
        }
    } else {
        if max == 0 {
            seq![s.skip(word_start(s, 0))]
        } else {
            words(s, 0, max)
        }
    }
}

/// Whether a byte string can be split: where it is split into words, and is not empty, it must
/// hold a word.
pub open spec fn can_split(s: Seq<u8>, sep: Seq<u8>) -> bool {
    sep.len() == 0 && s.len() > 0 ==> word_start(s, 0) < s.len()
}

/// The contents of a vector of slices.
pub open spec fn slices(v: Seq<&[u8]>) -> Seq<Seq<u8>> {
    v.map_values(|p: &[u8]| p@)
}

/// Whether a byte separates words.
fn separates(b: u8) -> (r: bool)
    ensures
        r == is_separator(b),
{
    b == 9 || b == 10 || b == 13 || b == 32
}

/// The first position from `i` on that is in a word.
fn find_word_start(s: &[u8], i: usize) -> (r: usize)
    requires
        i <= s@.len(),
    ensures
        r == word_start(s@, i as int),
        i <= r <= s@.len(),
{
    let mut j: usize = i;
    while j < s.len() && separates(s[j])
        invariant
            i <= j <= s@.len(),
            word_start(s@, i as int) == word_start(s@, j as int),
        decreases s.len() - j,
    {
        j = j + 1;
    }
    j
}

/// The first position from `i` on that is not in a word.
fn find_word_end(s: &[u8], i: usize) -> (r: usize)
    requires
        i <= s@.len(),
    ensures
        r == word_end(s@, i as int),
        i <= r <= s@.len(),
{
    let mut j: usize = i;
    while j < s.len() && !separates(s[j])
        invariant
            i <= j <= s@.len(),
            word_end(s@, i as int) == word_end(s@, j as int),
        decreases s.len() - j,
    {
        j = j + 1;
    }
    j
}

/// The end of the last word that starts before `i`.
fn find_last_word_end(s: &[u8], i: usize) -> (r: usize)
    requires
        i <= s@.len(),
    ensures
        r == last_word_end(s@, i as int),
        r <= i,
{
    let mut j: usize = i;
    while j > 0 && separates(s[j - 1])
        invariant
            j <= i <= s@.len(),
            last_word_end(s@, i as int) == last_word_end(s@, j as int),
        decreases j,
    {
        j = j - 1;
    }
    j
}

/// The start of the word that ends at `i`.
fn find_last_word_start(s: &[u8], i: usize) -> (r: usize)
    requires
        i <= s@.len(),
    ensures
        r == last_word_start(s@, i as int),
        r <= i,
{
    let mut j: usize = i;
    while j > 0 && !separates(s[j - 1])
        invariant
            j <= i <= s@.len(),
            last_word_start(s@, i as int) == last_word_start(s@, j as int),
        decreases j,
    {
        j = j - 1;
    }
    j
}

/// The slices in the other order.
fn reversed<'a>(v: &Vec<&'a [u8]>) -> (r: Vec<&'a [u8]>)
    ensures
        slices(r@) == slices(v@).reverse(),
{
    let mut back: Vec<&'a [u8]> = Vec::new();
    let mut i: usize = v.len();
    while i > 0
        invariant
            i <= v@.len(),
            back@.len() == v@.len() - i,
            forall|j: int| 0 <= j < back@.len() ==> back@[j] == v@[v@.len() - 1 - j],
        decreases i,
    {
        i = i - 1;
        back.push(v[i]);
    }
    assert(slices(back@) =~= slices(v@).reverse());
    back
}

/// One more slice.
proof fn lemma_slices_push(v: Seq<&[u8]>, p: &[u8])
    ensures
        slices(v.push(p)) == slices(v).push(p@),
{
    assert(slices(v.push(p)) =~= slices(v).push(p@));
}

/// Splits a byte string, from the left.
fn split_slice<'a>(slice: &'a [u8], sep: &[u8], maxsplit: isize) -> (r: Vec<&'a [u8]>)
    requires
        slice@.len() > 0,
        can_split(slice@, sep@),
    ensures
        slices(r@) == split_pieces(slice@, sep@, maxsplit as int, false),
{
    let ghost s = slice@;
    let len: usize = slice.len();
    let mut splitted: Vec<&'a [u8]> = Vec::new();
    assert(slices(splitted@) =~= Seq::empty());
    let mut count: usize = 0;
    if sep.is_empty() {
        if maxsplit == 0 {
            // separators at the start go for any maxsplit
            let index: usize = find_word_start(slice, 0);
            let rest: &'a [u8] = slice_subrange(slice, index, len);
            splitted.push(rest);
            assert(rest@ =~= s.skip(index as int));
            assert(slices(splitted@) =~= seq![rest@]);
            return splitted;
        }
        let ghost all = words(s, 0, maxsplit as int);
        let mut index: usize = 0;
        loop
            invariant
                s == slice@,
                len == slice.len(),
                index <= len,
                count <= index,
                maxsplit != 0,
                maxsplit > 0 ==> count < maxsplit,
                all =~= slices(splitted@) + words(s, index as int, maxsplit - count),
                all == split_pieces(slice@, sep@, maxsplit as int, false),
            decreases len - index,
        {
            let start: usize = find_word_start(slice, index);
            proof {
                lemma_word_start(s, index as int);
                lemma_word_end(s, start as int);
            }
            if start == len {
                assert(slices(splitted@) =~= all);
                return splitted;
            }
            let end: usize = find_word_end(slice, start);
            let word: &'a [u8] = slice_subrange(slice, start, end);
            proof {
                lemma_slices_push(splitted@, word);
            }
            splitted.push(word);
            if end == len {
                assert(slices(splitted@) =~= all);
                return splitted;
            }
            count = count + 1;
            if maxsplit > 0 && count == maxsplit as usize {
                let rest: &'a [u8] = slice_subrange(slice, end + 1, len);
                assert(rest@ =~= s.skip(end + 1));
                proof {
                    lemma_slices_push(splitted@, rest);
                }
                splitted.push(rest);
                assert(slices(splitted@) =~= all);
                return splitted;
            }
            index = end + 1;
        }
    } else {
        let ghost all = pieces(s, sep@, 0, maxsplit as int);
        let mut index: usize = 0;
        loop
            invariant
                s == slice@,
                len == slice.len(),
                index <= len,
                count <= index,
                sep@.len() > 0,
                maxsplit > 0 ==> count < maxsplit,
                all =~= slices(splitted@) + pieces(s, sep@, index as int, maxsplit - count),
                all == split_pieces(slice@, sep@, maxsplit as int, false),
            decreases len - index,
        {
            proof {
                lemma_first_occurrence_from(s, sep@, index as int);
            }
            match find_from(slice, sep, index) {
                Some(i) => {
                    let piece: &'a [u8] = slice_subrange(slice, index, i);
                    proof {
                        lemma_slices_push(splitted@, piece);
                    }
                    splitted.push(piece);
                    index = i + sep.len();
                    count = count + 1;
                    if maxsplit > 0 && count == maxsplit as usize {
                        let rest: &'a [u8] = slice_subrange(slice, index, len);
                        assert(rest@ =~= s.skip(index as int));
                        proof {
                            lemma_slices_push(splitted@, rest);
                        }
                        splitted.push(rest);
                        assert(slices(splitted@) =~= all);
                        return splitted;
                    }
                },
                None => {
                    let rest: &'a [u8] = slice_subrange(slice, index, len);
                    assert(rest@ =~= s.skip(index as int));
                    proof {
                        lemma_slices_push(splitted@, rest);
                    }
                    splitted.push(rest);
                    assert(slices(splitted@) =~= all);
                    return splitted;
                },
            }
        }
    }
}

/// Splits a byte string, from the right.
fn split_slice_reverse<'a>(slice: &'a [u8], sep: &[u8], maxsplit: isize) -> (r: Vec<&'a [u8]>)
    requires
        slice@.len() > 0,
        can_split(slice@, sep@),
    ensures
        slices(r@) == split_pieces(slice@, sep@, maxsplit as int, true),
{
    let ghost s = slice@;
    let len: usize = slice.len();
    let mut splitted: Vec<&'a [u8]> = Vec::new();
    assert(slices(splitted@).reverse() =~= Seq::empty());
    let mut count: usize = 0;
    if sep.is_empty() {
        if maxsplit == 0 {
            // separators at the end go for any maxsplit
            let index: usize = find_last_word_end(slice, len);
            let rest: &'a [u8] = slice_subrange(slice, 0, index);
            splitted.push(rest);
            assert(rest@ =~= s.take(index as int));
            assert(slices(splitted@) =~= seq![rest@]);
            return splitted;
        }
        let ghost all = words_back(s, len as int, maxsplit as int);
        let mut index: usize = len;
        loop
            invariant
                s == slice@,
                len == slice.len(),
                index <= len,
                count <= len - index,
                maxsplit != 0,
                maxsplit > 0 ==> count < maxsplit,
                all =~= words_back(s, index as int, maxsplit - count) + slices(
                    splitted@,
                ).reverse(),
                all == split_pieces(slice@, sep@, maxsplit as int, true),
            decreases index,
        {
            let end: usize = find_last_word_end(slice, index);
            proof {
                lemma_last_word_end(s, index as int);
                lemma_last_word_start(s, end as int);
            }
            if end == 0 {
                assert(slices(splitted@).reverse() =~= all);
                return reversed(&splitted);
            }
            let start: usize = find_last_word_start(slice, end);
            if start == 0 {
                let word: &'a [u8] = slice_subrange(slice, 0, end);
                assert(word@ =~= s.take(end as int));
                proof {
                    lemma_slices_push(splitted@, word);
                }
                splitted.push(word);
                assert(slices(splitted@).reverse() =~= all);
                return reversed(&splitted);
            }
            let word: &'a [u8] = slice_subrange(slice, start, end);
            proof {
                lemma_slices_push(splitted@, word);
            }
            splitted.push(word);
            count = count + 1;
            if maxsplit > 0 && count == maxsplit as usize {
                let rest: &'a [u8] = slice_subrange(slice, 0, start - 1);
                assert(rest@ =~= s.take(start - 1));
                proof {
                    lemma_slices_push(splitted@, rest);
                }
                splitted.push(rest);
                assert(slices(splitted@).reverse() =~= all);
                return reversed(&splitted);
            }
            index = start - 1;
        }
    } else {
        let ghost all = pieces_back(s, sep@, len as int, maxsplit as int);
        let mut index: usize = len;
        loop
            invariant
                s == slice@,
                len == slice.len(),
                index <= len,
                count <= len - index,
                sep@.len() > 0,
                maxsplit > 0 ==> count < maxsplit,
                all =~= pieces_back(s, sep@, index as int, maxsplit - count) + slices(
                    splitted@,
                ).reverse(),
                all == split_pieces(slice@, sep@, maxsplit as int, true),
            decreases index,
        {
            proof {
                lemma_last_occurrence_from(s, sep@, index - sep@.len());
            }
            match find_back_from(slice, sep, index) {
                Some(i) => {
                    let piece: &'a [u8] = slice_subrange(slice, i + sep.len(), index);
                    proof {
                        lemma_slices_push(splitted@, piece);
                    }
                    splitted.push(piece);
                    index = i;
                    count = count + 1;
                    if maxsplit > 0 && count == maxsplit as usize {
                        let rest: &'a [u8] = slice_subrange(slice, 0, index);
                        assert(rest@ =~= s.take(index as int));
                        proof {
                            lemma_slices_push(splitted@, rest);
                        }
                        splitted.push(rest);
                        assert(slices(splitted@).reverse() =~= all);
                        return reversed(&splitted);
                    }
                },
                None => {
                    let rest: &'a [u8] = slice_subrange(slice, 0, index);
                    assert(rest@ =~= s.take(index as int));
                    proof {
                        lemma_slices_push(splitted@, rest);
                    }
                    splitted.push(rest);
                    assert(slices(splitted@).reverse() =~= all);
                    return reversed(&splitted);
                },
            }
        }
    }
}

impl PyByteInner {
    /// The pieces of the byte string, split from the left or from the right.
    ///
    /// Without a separator the byte string is split into words; it must then hold one, unless it
    /// is empty.
    pub fn split(&self, options: ByteInnerSplitOptions, reverse: bool) -> (r: PyResult<Vec<&[u8]>>)
        requires
            can_split(self@, options.spec_sep()),
        ensures
            r matches Ok(v) && slices(v@) == split_pieces(
                self@,
                options.spec_sep(),
                options.spec_maxsplit(),
                reverse,
            ),
    {
        let (sep, maxsplit): (Vec<u8>, isize) = match options.get_value() {
            Ok(v) => v,
            Err(e) => return Err(e),
        };
        if self.elements.is_empty() {
            let mut v: Vec<&[u8]> = Vec::new();
            if !sep.is_empty() {
                let whole: &[u8] = self.elements.as_slice();
                v.push(whole);
                proof {
                    lemma_first_occurrence_from(self@, sep@, 0);
                    lemma_last_occurrence_from(self@, sep@, -sep@.len());
                    assert(slices(v@) =~= seq![self@]);
                    assert(self@.skip(0) =~= self@);
                    assert(self@.take(0) =~= self@);
                }
            } else {
                assert(slices(v@) =~= Seq::empty());
            }
            return Ok(v);
        }
        if reverse {
            Ok(split_slice_reverse(&self.elements, &sep, maxsplit))
        } else {
            Ok(split_slice(&self.elements, &sep, maxsplit))
        }
    }
}

} // verus!
