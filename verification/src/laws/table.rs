//! Laws of tables, of translation and of repetition, byte by byte.
use vstd::prelude::*;

use crate::error::{ErrorKind, ErrorView};
use crate::find::concat;
use crate::inner::PyByteInner;
use crate::integer::PyInt;
use crate::laws::change::law_repeat;
use crate::object::{Either, OptionalArg, PyNone};
use crate::options::{deleted_bytes, table_outcome};
use crate::transform::{
    first_position, joined, repeated, replace_count, replaced, translated, translation,
};

verus! {

proof fn lemma_first_position_is(s: Seq<u8>, b: u8, i: int, p: int)
    requires
        0 <= i <= p < s.len(),
        s[p] == b,
        forall|k: int| i <= k < p ==> s[k] != b,
    ensures
        first_position(s, b, i) == Some(p),
    decreases p - i,
{
    if i < p {
        lemma_first_position_is(s, b, i + 1, p);
    }
}

proof fn lemma_first_position_none(s: Seq<u8>, b: u8, i: int)
    requires
        0 <= i <= s.len(),
        forall|k: int| i <= k < s.len() ==> s[k] != b,
    ensures
        first_position(s, b, i) is None,
    decreases s.len() - i,
{
    if i < s.len() {
        lemma_first_position_none(s, b, i + 1);
    }
}

/// A table has a place for each of the 256 bytes. A byte that is not in `from` stays.
pub proof fn law_table_keeps_other_bytes(from: Seq<u8>, to: Seq<u8>, b: u8)
    requires
        !from.contains(b),
    ensures
        translation(from, to).len() == 256,
        translation(from, to)[b as int] == b,
{
    assert forall|k: int| 0 <= k < from.len() implies from[k] != b by {}
    lemma_first_position_none(from, b, 0);
}

/// A byte that is in `from` becomes the byte of `to` at its first position there.
pub proof fn law_table_maps_first_position(from: Seq<u8>, to: Seq<u8>, p: int)
    requires
        0 <= p < from.len(),
        forall|k: int| 0 <= k < p ==> from[k] != from[p],
    ensures
        translation(from, to).len() == 256,
        translation(from, to)[from[p] as int] == to[p],
{
    lemma_first_position_is(from, from[p], 0, p);
}

/// What translating two byte strings gives, one behind the other, is what translating both
/// together gives; and a single byte goes where it is to be deleted, and else becomes the byte that
/// the table has at its number.
pub proof fn law_translate_byte_by_byte(
    s: Seq<u8>,
    t: Seq<u8>,
    b: u8,
    table: Seq<u8>,
    delete: Seq<u8>,
)
    ensures
        translated(s + t, table, delete) == translated(s, table, delete) + translated(
            t,
            table,
            delete,
        ),
        translated(Seq::empty(), table, delete) == Seq::<u8>::empty(),
        delete.contains(b) ==> translated(seq![b], table, delete) == Seq::<u8>::empty(),
        !delete.contains(b) ==> translated(seq![b], table, delete) == seq![table[b as int]],
{
    reveal(Seq::filter);
    let kept = |x: u8| !delete.contains(x);
    Seq::filter_distributes_over_add(s, t, kept);
    assert(translated(s + t, table, delete) =~= translated(s, table, delete) + translated(
        t,
        table,
        delete,
    ));
    assert(seq![b].drop_last() =~= Seq::empty());
    assert(seq![b].drop_last().filter(kept) =~= Seq::empty());
    assert(translated(Seq::empty(), table, delete) =~= Seq::empty());
    assert(kept(b) == !delete.contains(b));
    if delete.contains(b) {
        assert(translated(seq![b], table, delete) =~= Seq::empty());
    } else {
        assert(seq![b].filter(kept) =~= seq![b]);
        assert(translated(seq![b], table, delete) =~= seq![table[b as int]]);
    }
}

/// A table that is given is taken as it is where it has a place for each of the 256 bytes, and
/// refused otherwise; where none is given every byte stays. Bytes are deleted where some are given.
pub proof fn law_translation_arguments(table: Either<PyByteInner, PyNone>, v: PyByteInner)
    ensures
        table matches Either::A(t) ==> if t@.len() == 256 {
            table_outcome(table) == Ok::<Seq<u8>, ErrorView>(t@)
        } else {
            table_outcome(table) matches Err(e) && e.kind == ErrorKind::ValueError
        },
        table is B ==> (table_outcome(table) matches Ok(t) && t.len() == 256 && forall|i: int|
            0 <= i < 256 ==> #[trigger] t[i] == i),
        deleted_bytes(OptionalArg::Present(v)) == v@,
        deleted_bytes(OptionalArg::Missing) == Seq::<u8>::empty(),
{
}

/// A repetition has at each position the byte that the byte string has at the rest of the position
/// by its length.
pub proof fn law_repeated_bytes(s: Seq<u8>, n: int, i: int)
    requires
        0 <= i < n * s.len(),
    ensures
        repeated(s, n).len() == n * s.len(),
        repeated(s, n)[i] == s[i % (s.len() as int)],
    decreases n,
{
    let len = s.len() as int;
    assert(n > 0 && len > 0) by (nonlinear_arith)
        requires
            0 <= i < n * len,
            len >= 0,
    ;
    law_repeat(s, 0, n);
    law_repeat(s, 0, n - 1);
    assert((n - 1) * len + len == n * len) by (nonlinear_arith);
    if i < (n - 1) * len {
        law_repeated_bytes(s, n - 1, i);
    } else {
        let j = i - (n - 1) * len;
        vstd::arithmetic::div_mod::lemma_mod_multiples_vanish(n - 1, j, len);
        assert(len * (n - 1) + j == i) by (nonlinear_arith)
            requires
                j == i - (n - 1) * len,
        ;
        vstd::arithmetic::div_mod::lemma_small_mod(j as nat, len as nat);
    }
}

/// A repetition of no times, or of fewer, is empty.
pub proof fn law_repeated_no_times(s: Seq<u8>, n: int)
    requires
        n <= 0,
    ensures
        repeated(s, n) == Seq::<u8>::empty(),
{
}

/// Parts one after the other: those of two runs of parts are the first run's and then the second
/// run's, and one part alone is itself.
pub proof fn law_concat(a: Seq<Seq<u8>>, b: Seq<Seq<u8>>, x: Seq<u8>)
    ensures
        concat(a + b) == concat(a) + concat(b),
        concat(seq![x]) == x,
        concat(Seq::empty()) == Seq::<u8>::empty(),
    decreases b.len(),
{
    assert(seq![x].drop_last() =~= Seq::<Seq<u8>>::empty());
    assert(concat(seq![x].drop_last()) =~= Seq::empty());
    assert(concat(seq![x]) =~= x);
    if b.len() > 0 {
        law_concat(a, b.drop_last(), x);
        assert((a + b).drop_last() =~= a + b.drop_last());
        assert(concat(a + b) =~= concat(a) + concat(b));
    } else {
        assert(a + b =~= a);
        assert(concat(a + b) =~= concat(a) + concat(b));
    }
}

/// Joining, part by part. A part behind others is put behind what these give, with the separator
/// between, unless these give nothing; and empty parts at the start give nothing.
pub proof fn law_join_part_by_part(sep: Seq<u8>, parts: Seq<Seq<u8>>, x: Seq<u8>)
    ensures
        joined(sep, Seq::empty()) == Seq::<u8>::empty(),
        joined(sep, seq![x]) == x,
        joined(sep, seq![Seq::<u8>::empty()] + parts) == joined(sep, parts),
        joined(sep, parts).len() > 0 ==> joined(sep, parts.push(x)) == joined(sep, parts) + sep + x,
        joined(sep, parts).len() == 0 ==> joined(sep, parts.push(x)) == x,
    decreases parts.len(),
{
    let none: Seq<u8> = Seq::empty();
    let all = seq![none] + parts;
    assert(seq![x].drop_last() =~= Seq::<Seq<u8>>::empty());
    assert(joined(sep, seq![x].drop_last()).len() == 0);
    assert(parts.push(x).drop_last() =~= parts);
    assert(seq![none].drop_last() =~= Seq::<Seq<u8>>::empty());
    assert(joined(sep, seq![none].drop_last()).len() == 0);
    if parts.len() > 0 {
        law_join_part_by_part(sep, parts.drop_last(), x);
        assert(all.drop_last() =~= seq![none] + parts.drop_last());
    } else {
        assert(all =~= seq![none]);
        assert(joined(sep, all) =~= joined(sep, parts));
    }
}

/// Replacing nothing puts the new byte string before everything, as often as the count says.
pub proof fn law_replace_empty(s: Seq<u8>, new: Seq<u8>, count: int)
    requires
        count >= 0,
    ensures
        replaced(s, Seq::empty(), new, 0, count) == repeated(new, count) + s,
    decreases count,
{
    let none: Seq<u8> = Seq::empty();
    assert(s.skip(0) =~= s);
    if count > 0 {
        assert(s.subrange(0, 0) =~= none);
        law_replace_empty(s, new, count - 1);
        law_repeat(new, 1, count - 1);
        assert(replaced(s, none, new, 0, count) =~= repeated(new, count) + s);
    } else {
        assert(repeated(new, count) + s =~= s);
    }
}

/// How often to replace: as a `u32` says; and as often as there are bytes, in 32 bits, where the
/// number is none that a `u32` can hold, and where none is given.
pub proof fn law_replace_count(count: PyInt, len: int)
    requires
        0 <= len,
    ensures
        0 <= count@ < 0x1_0000_0000 ==> replace_count(OptionalArg::Present(count), len) == count@,
        !(0 <= count@ < 0x1_0000_0000) ==> replace_count(OptionalArg::Present(count), len) == len
            % 0x1_0000_0000,
        replace_count(OptionalArg::Missing, len) == len % 0x1_0000_0000,
{
}

} // verus!
