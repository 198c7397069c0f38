//! Lines and tabs.
use vstd::prelude::*;
use vstd::slice::slice_subrange;

use crate::inner::PyByteInner;
use crate::options::{ByteInnerExpandtabsOptions, ByteInnerSplitlinesOptions};
use crate::split::slices;
use crate::text::{CARRIAGE_RETURN, LINE_FEED, SPACE, TAB};

verus! {

/// Whether a byte ends a line.
pub open spec fn is_line_break(b: u8) -> bool {
    b == LINE_FEED || b == CARRIAGE_RETURN
}

/// The end of the line that `i` is in, before what ends it.
pub open spec fn line_end(s: Seq<u8>, i: int) -> int
    decreases s.len() - i,
{
    if i >= s.len() {
        s.len() as int
    } else if is_line_break(s[i]) {
        i
    } else {
        line_end(s, i + 1)
    }
}

/// The number of bytes that end a line at `i`: a carriage return and a line feed together end
/// one line.
pub open spec fn break_len(s: Seq<u8>, i: int) -> int {
    if s[i] == CARRIAGE_RETURN && i + 1 < s.len() && s[i + 1] == LINE_FEED {
        2
    } else {
        1
    }
}

/// Where [`line_end`] is.
pub proof fn lemma_line_end(s: Seq<u8>, i: int)
    requires
        0 <= i <= s.len(),
    ensures
        i <= line_end(s, i) <= s.len(),
        line_end(s, i) < s.len() ==> is_line_break(s[line_end(s, i)]),
        forall|j: int| i <= j < line_end(s, i) ==> !is_line_break(s[j]),
    decreases s.len() - i,
{
    if i < s.len() && !is_line_break(s[i]) {
        lemma_line_end(s, i + 1);
    }
}

/// The lines of `s` from `i` on, with or without what ends them.
pub open spec fn lines(s: Seq<u8>, i: int, keepends: bool) -> Seq<Seq<u8>>
    decreases s.len() - i,
{
    if i < 0 || i >= s.len() {
        Seq::empty()
    } else {
        let j = line_end(s, i);
        proof {
            lemma_line_end(s, i);
        }
        if j >= s.len() {
            seq![s.skip(i)]
        } else {
            let next = j + break_len(s, j);
            seq![
                s.subrange(
                    i,
                    if keepends {
                        next
                    } else {
                        j
                    },
                ),
            ] + lines(s, next, keepends)
        }
    }
}

/// `n` spaces.
pub open spec fn spaces(n: int) -> Seq<u8> {
    Seq::new(n as nat, |k: int| SPACE)
}

/// `s` from `i` on, its tabs filled up with spaces to the next multiple of `tabsize`. `column` is
/// the number of bytes since the line started.
pub open spec fn expanded(s: Seq<u8>, tabsize: int, i: int, column: int) -> Seq<u8>
    decreases s.len() - i,
{
    if i >= s.len() {
        Seq::empty()
    } else if s[i] == TAB {
        let n = tabsize - column % tabsize;
        spaces(n) + expanded(s, tabsize, i + 1, column + n)
    } else {
        seq![s[i]] + expanded(
            s,
            tabsize,
            i + 1,
            if is_line_break(s[i]) {
                0
            } else {
                column + 1
            },
        )
    }
}

/// `s` with its tabs filled up with spaces, or left out where `tabsize` is zero.
pub open spec fn tabs_expanded(s: Seq<u8>, tabsize: int) -> Seq<u8> {
    if tabsize == 0 {
        s.filter(|b: u8| b != TAB)
    } else {
        expanded(s, tabsize, 0, 0)
    }
}

impl PyByteInner {
    /// The lines of the byte string. Line feeds, carriage returns, and the two together end a
    /// line.
    pub fn splitlines(&self, options: ByteInnerSplitlinesOptions) -> (r: Vec<&[u8]>)
        ensures
            slices(r@) == lines(self@, 0, options.spec_keepends()),
    {
        let keepends: bool = options.get_value();
        let slice: &[u8] = self.elements.as_slice();
        let len: usize = slice.len();
        let ghost s = self@;
        let ghost all = lines(s, 0, keepends);
        let mut res: Vec<&[u8]> = Vec::new();
        let mut prev_index: usize = 0;
        let mut index: usize = 0;
        assert(slices(res@) =~= Seq::empty());
        while index < len
            invariant
                s == slice@,
                len == slice.len(),
                prev_index <= index <= len,
                prev_index < len ==> line_end(s, prev_index as int) == line_end(s, index as int),
                index == len ==> prev_index == len,
                all =~= slices(res@) + lines(s, prev_index as int, keepends),
            decreases len - index,
        {
            let ghost before = slices(res@);
            let b: u8 = slice[index];
            if b == LINE_FEED || b == CARRIAGE_RETURN {
                let next: usize = if b == CARRIAGE_RETURN && len - index >= 2 && slice[index + 1]
                    == LINE_FEED {
                    index + 2
                } else {
                    index + 1
                };
                let end: usize = if keepends {
                    next
                } else {
                    index
                };
                let line: &[u8] = slice_subrange(slice, prev_index, end);
                res.push(line);
                assert(slices(res@) =~= before.push(line@));
                index = next;
                prev_index = next;
            } else if index == len - 1 {
                let line: &[u8] = slice_subrange(slice, prev_index, len);
                res.push(line);
                proof {
                    assert(line_end(s, len as int) == len);
                    assert(line@ =~= s.skip(prev_index as int));
                    assert(slices(res@) =~= before.push(line@));
                }
                index = len;
                prev_index = len;
            } else {
                index = index + 1;
            }
        }
        res
    }

    /// The byte string with its tabs filled up with spaces; tabs are left out where the tab size
    /// is zero. The result must not be longer than a vector can be.
    pub fn expandtabs(&self, options: ByteInnerExpandtabsOptions) -> (r: Vec<u8>)
        requires
            tabs_expanded(self@, options.spec_tabsize()).len() <= isize::MAX,
        ensures
            r@ == tabs_expanded(self@, options.spec_tabsize()),
    {
        let tabsize: usize = options.get_value();
        let ghost s = self@;
        let mut res: Vec<u8> = Vec::new();
        let mut i: usize = 0;
        if tabsize == 0 {
            let ghost keep = |b: u8| b != TAB;
            assert(s.take(0).filter(keep) =~= Seq::empty()) by {
                reveal(Seq::filter);
            }
            while i < self.elements.len()
                invariant
                    s == self@,
                    i <= s.len(),
                    keep == (|b: u8| b != TAB),
                    res@ == s.take(i as int).filter(keep),
                decreases s.len() - i,
            {
                let b: u8 = self.elements[i];
                proof {
                    reveal(Seq::filter);
                    assert(s.take(i + 1).drop_last() =~= s.take(i as int));
                }
                if b != TAB {
                    res.push(b);
                }
                i = i + 1;
            }
            assert(s.take(i as int) =~= s);
            return res;
        }
        let ghost all = expanded(s, tabsize as int, 0, 0);
        let mut counter: usize = 0;
        while i < self.elements.len()
            invariant
                s == self@,
                i <= s.len(),
                tabsize > 0,
                all.len() <= usize::MAX,
                counter <= res@.len(),
                all =~= res@ + expanded(s, tabsize as int, i as int, counter as int),
            decreases s.len() - i,
        {
            let b: u8 = self.elements[i];
            let ghost before = res@;
            if b == TAB {
                let n: usize = tabsize - counter % tabsize;
                let mut fill: Vec<u8> = vec![SPACE; n];
                assert(fill@ =~= spaces(n as int));
                res.append(&mut fill);
                assert(res@ =~= before + spaces(n as int));
                assert(res@.len() <= all.len());
                counter = counter + n;
            } else {
                res.push(b);
                assert(res@ =~= before + seq![b]);
                assert(res@.len() <= all.len());
                if b == CARRIAGE_RETURN || b == LINE_FEED {
                    counter = 0;
                } else {
                    counter = counter + 1;
                }
            }
            i = i + 1;
        }
        res
    }
}

} // verus!
