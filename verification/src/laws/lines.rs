//! Laws of lines and tabs.
use vstd::prelude::*;

use crate::find::concat;
use crate::laws::pieces::law_lines;
use crate::lines::{break_len, expanded, lemma_line_end, line_end, lines, spaces, tabs_expanded};

verus! {

/// Whether no byte is a line feed or a carriage return.
pub open spec fn holds_no_break(line: Seq<u8>) -> bool {
    forall|j: int| 0 <= j < line.len() ==> #[trigger] line[j] != 10 && line[j] != 13
}

/// Whether some bytes end one line: a line feed, a carriage return, or a carriage return and a
/// line feed.
pub open spec fn is_line_end(end: Seq<u8>) -> bool {
    end == seq![10u8] || end == seq![13u8] || end == seq![13u8, 10u8]
}

proof fn lemma_lines_shape(s: Seq<u8>, i: int)
    requires
        0 <= i <= s.len(),
    ensures
        ({
            let full = lines(s, i, true);
            let bare = lines(s, i, false);
            &&& bare.len() == full.len()
            &&& full.len() > 0 <==> i < s.len()
            &&& i < s.len() ==> full[0].len() > 0 && full[0][0] == s[i]
            &&& forall|k: int|
                0 <= k < full.len() ==> {
                    let line = #[trigger] bare[k];
                    let end = full[k].skip(line.len() as int);
                    &&& holds_no_break(line)
                    &&& line.len() <= full[k].len()
                    &&& full[k].take(line.len() as int) == line
                    &&& is_line_end(end) || k == full.len() - 1 && end.len() == 0 && line.len() > 0
                }
            &&& forall|k: int|
                0 <= k < full.len() - 1 ==> !((#[trigger] full[k]).last() == 13 && full[k + 1][0]
                    == 10)
        }),
    decreases s.len() - i,
{
    let full = lines(s, i, true);
    let bare = lines(s, i, false);
    if i < s.len() {
        let j = line_end(s, i);
        lemma_line_end(s, i);
        let line = bare[0];
        if j >= s.len() {
            assert(full[0].take(line.len() as int) =~= line);
            assert(full[0].skip(line.len() as int) =~= Seq::empty());
        } else {
            let next = j + break_len(s, j);
            lemma_lines_shape(s, next);
            let rest_full = lines(s, next, true);
            let rest = lines(s, next, false);
            let end = full[0].skip(line.len() as int);
            assert(full[0].take(line.len() as int) =~= line);
            assert(end =~= s.subrange(j, next));
            if next == j + 2 {
                assert(end =~= seq![13u8, 10u8]);
            } else if s[j] == 10 {
                assert(end =~= seq![10u8]);
            } else {
                assert(end =~= seq![13u8]);
            }
            assert forall|k: int| 0 <= k < full.len() implies {
                let line = #[trigger] bare[k];
                let end = full[k].skip(line.len() as int);
                &&& holds_no_break(line)
                &&& line.len() <= full[k].len()
                &&& full[k].take(line.len() as int) == line
                &&& is_line_end(end) || k == full.len() - 1 && end.len() == 0 && line.len() > 0
            } by {
                if k > 0 {
                    assert(bare[k] == rest[k - 1] && full[k] == rest_full[k - 1]);
                }
            }
            assert forall|k: int| 0 <= k < full.len() - 1 implies !((#[trigger] full[k]).last()
                == 13 && full[k + 1][0] == 10) by {
                assert(full[k + 1] == rest_full[k]);
                if k > 0 {
                    assert(full[k] == rest_full[k - 1]);
                }
            }
        }
    }
}

/// The lines of a byte string. With what ends them they make up the byte string. Each is some
/// bytes without a line feed or a carriage return, and a line end behind them, which only the last
/// line may lack, and only if it is not empty; without its end the line is these bytes alone. A
/// carriage return and the line feed right behind it are never apart.
pub proof fn law_lines_are_fixed(s: Seq<u8>)
    ensures
        ({
            let full = lines(s, 0, true);
            let bare = lines(s, 0, false);
            &&& concat(full) == s
            &&& bare.len() == full.len()
            &&& forall|k: int|
                0 <= k < full.len() ==> {
                    let line = #[trigger] bare[k];
                    let end = full[k].skip(line.len() as int);
                    &&& holds_no_break(line)
                    &&& line.len() <= full[k].len()
                    &&& full[k].take(line.len() as int) == line
                    &&& is_line_end(end) || k == full.len() - 1 && end.len() == 0 && line.len() > 0
                }
            &&& forall|k: int|
                0 <= k < full.len() - 1 ==> !((#[trigger] full[k]).last() == 13 && full[k + 1][0]
                    == 10)
        }),
{
    law_lines(s);
    lemma_lines_shape(s, 0);
}

/// The number of bytes behind the last line feed or carriage return.
pub open spec fn column(r: Seq<u8>) -> int
    decreases r.len(),
{
    if r.len() == 0 || r.last() == 10 || r.last() == 13 {
        0
    } else {
        1 + column(r.drop_last())
    }
}

proof fn lemma_column_add(r: Seq<u8>, t: Seq<u8>)
    requires
        holds_no_break(t),
    ensures
        column(r + t) == column(r) + t.len(),
    decreases t.len(),
{
    if t.len() > 0 {
        assert(t[t.len() - 1] != 10 && t[t.len() - 1] != 13);
        assert((r + t).drop_last() =~= r + t.drop_last());
        assert forall|j: int| 0 <= j < t.drop_last().len() implies #[trigger] t.drop_last()[j] != 10
            && t.drop_last()[j] != 13 by {
            assert(t.drop_last()[j] == t[j]);
        }
        lemma_column_add(r, t.drop_last());
    } else {
        assert(r + t =~= r);
    }
}

/// One byte more, behind `done`, which is what the bytes before `i` expand to.
proof fn lemma_expanded_push(s: Seq<u8>, b: u8, tabsize: int, i: int, done: Seq<u8>)
    requires
        tabsize > 0,
        0 <= i <= s.len(),
    ensures
        ({
            let before = done + expanded(s, tabsize, i, column(done));
            let after = done + expanded(s.push(b), tabsize, i, column(done));
            if b == 9 {
                after == before + spaces(tabsize - column(before) % tabsize)
            } else {
                after == before.push(b)
            }
        }),
    decreases s.len() - i,
{
    let t = s.push(b);
    if i < s.len() {
        let piece = if s[i] == 9 {
            spaces(tabsize - column(done) % tabsize)
        } else {
            seq![s[i]]
        };
        let next = done + piece;
        if s[i] == 9 {
            lemma_column_add(done, piece);
        } else {
            assert(next.drop_last() =~= done);
        }
        lemma_expanded_push(s, b, tabsize, i + 1, next);
        assert(done + expanded(s, tabsize, i, column(done)) =~= next + expanded(
            s,
            tabsize,
            i + 1,
            column(next),
        ));
        assert(done + expanded(t, tabsize, i, column(done)) =~= next + expanded(
            t,
            tabsize,
            i + 1,
            column(next),
        ));
    } else {
        assert(expanded(s, tabsize, i, column(done)) =~= Seq::empty());
        assert(done + Seq::empty() =~= done);
        let piece = if b == 9 {
            spaces(tabsize - column(done) % tabsize)
        } else {
            seq![b]
        };
        let last = expanded(
            t,
            tabsize,
            i + 1,
            if b == 9 {
                column(done) + (tabsize - column(done) % tabsize)
            } else if b == 10 || b == 13 {
                0
            } else {
                column(done) + 1
            },
        );
        assert(last =~= Seq::empty());
        assert(piece + last =~= piece);
        assert(expanded(t, tabsize, i, column(done)) =~= piece);
    }
}

/// Tab stops. A byte behind a byte string is kept as it is unless it is a tab. A tab becomes
/// spaces, at least one of them and no more than the tab size, so that as many bytes as a multiple
/// of the tab size are in the line behind it. A tab size of zero makes nothing of it.
pub proof fn law_tab_stops(s: Seq<u8>, b: u8, tabsize: int)
    requires
        tabsize >= 0,
    ensures
        tabs_expanded(Seq::empty(), tabsize) == Seq::<u8>::empty(),
        b != 9 ==> tabs_expanded(s.push(b), tabsize) == tabs_expanded(s, tabsize).push(b),
        b == 9 && tabsize == 0 ==> tabs_expanded(s.push(b), tabsize) == tabs_expanded(s, tabsize),
        b == 9 && tabsize > 0 ==> {
            let before = tabs_expanded(s, tabsize);
            let after = tabs_expanded(s.push(b), tabsize);
            &&& 1 <= after.len() - before.len() <= tabsize
            &&& after.take(before.len() as int) == before
            &&& forall|k: int| before.len() <= k < after.len() ==> #[trigger] after[k] == 32
            &&& column(after) % tabsize == 0
        },
{
    let none: Seq<u8> = Seq::empty();
    if tabsize == 0 {
        reveal(Seq::filter);
        assert(s.push(b).drop_last() =~= s);
    } else {
        lemma_expanded_push(s, b, tabsize, 0, none);
        let before = tabs_expanded(s, tabsize);
        let after = tabs_expanded(s.push(b), tabsize);
        assert(none + before =~= before);
        assert(none + after =~= after);
        assert(tabs_expanded(none, tabsize) =~= none);
        if b == 9 {
            let c = column(before);
            let n = tabsize - c % tabsize;
            assert(0 <= c % tabsize < tabsize) by (nonlinear_arith)
                requires
                    tabsize > 0,
            ;
            lemma_column_add(before, spaces(n));
            assert(after.take(before.len() as int) =~= before);
            assert((c + (tabsize - c % tabsize)) % tabsize == 0) by {
                vstd::arithmetic::div_mod::lemma_fundamental_div_mod(c, tabsize);
                vstd::arithmetic::div_mod::lemma_mod_multiples_basic(c / tabsize + 1, tabsize);
                assert(c + (tabsize - c % tabsize) == (c / tabsize + 1) * tabsize)
                    by (nonlinear_arith)
                    requires
                        c == tabsize * (c / tabsize) + c % tabsize,
                ;
            }
        }
    }
}

} // verus!
