//! Putting byte strings together and replacing bytes in them.
use vstd::prelude::*;

use crate::error::{ErrorView, PyResult, outcome};
use crate::inner::PyByteInner;
use crate::integer::{PyInt, big_to_u32};
use crate::object::{
    OptionalArg, PyIterable, PyObject, gather, is_bytes_object, lemma_gather_step,
};
use crate::options::{ByteInnerTranslateOptions, deleted_bytes, table_outcome};
use crate::search::{has_byte, occurs_at, stands_at};

verus! {

/// The parts one after the other, with `sep` before each part that something precedes. Empty
/// parts at the start leave nothing to precede, so they get no separator behind them.
pub open spec fn joined(sep: Seq<u8>, parts: Seq<Seq<u8>>) -> Seq<u8>
    decreases parts.len(),
{
    if parts.len() == 0 {
        Seq::empty()
    } else {
        let before = joined(sep, parts.drop_last());
        if before.len() == 0 {
            parts.last()
        } else {
            before + sep + parts.last()
        }
    }
}

/// The byte strings of an iteration.
pub open spec fn parts_outcome(iter: PyIterable<PyByteInner>) -> Result<Seq<Seq<u8>>, ErrorView> {
    match iter.steps {
        Ok(steps) => gather(steps@.map_values(|r: PyResult<PyByteInner>| outcome(r))),
        Err(e) => Err(e@),
    }
}

/// What joining the byte strings of an iteration gives.
pub open spec fn join_outcome(sep: Seq<u8>, iter: PyIterable<PyByteInner>) -> Result<
    Seq<u8>,
    ErrorView,
> {
    match parts_outcome(iter) {
        Ok(parts) => Ok(joined(sep, parts)),
        Err(e) => Err(e),
    }
}

/// The first position of a byte from `i` on.
pub open spec fn first_position(s: Seq<u8>, b: u8, i: int) -> Option<int>
    decreases s.len() - i,
{
    if i >= s.len() {
        None
    } else if s[i] == b {
        Some(i)
    } else {
        first_position(s, b, i + 1)
    }
}

/// The byte that a pair of byte strings maps a byte to: the one of `to` at the first position of
/// the byte in `from`, or the byte itself where `from` does not have it.
pub open spec fn mapped(from: Seq<u8>, to: Seq<u8>, b: u8) -> u8 {
    match first_position(from, b, 0) {
        Some(p) => to[p],
        None => b,
    }
}

/// The table of a pair of byte strings.
pub open spec fn translation(from: Seq<u8>, to: Seq<u8>) -> Seq<u8> {
    Seq::new(256, |i: int| mapped(from, to, i as u8))
}

/// Whether `to` has a byte for each byte of `from`.
pub open spec fn covers(from: Seq<u8>, to: Seq<u8>) -> bool {
    forall|b: u8| #[trigger] first_position(from, b, 0) matches Some(p) ==> p < to.len()
}

/// `s` without the bytes of `delete`, each other byte replaced by the one the table has for it.
pub open spec fn translated(s: Seq<u8>, table: Seq<u8>, delete: Seq<u8>) -> Seq<u8> {
    s.filter(|b: u8| !delete.contains(b)).map_values(|b: u8| table[b as int])
}

/// `s` from `i` on, with `find` replaced by `new` from left to right, `count` times at most. An
/// empty `find` is replaced again and again at the same place.
pub open spec fn replaced(
    s: Seq<u8>,
    find: Seq<u8>,
    new: Seq<u8>,
    i: int,
    count: int,
) -> Seq<u8>
    decreases s.len() - i, count,
{
    if count <= 0 || i < 0 || i + find.len() > s.len() {
        s.skip(i)
    } else if occurs_at(s, find, i) {
        new + replaced(s, find, new, i + find.len(), count - 1)
    } else {
        proof {
            if i == s.len() {
                assert(s.subrange(i, i) =~= find);
            }
        }
        seq![s[i]] + replaced(s, find, new, i + 1, count)
    }
}

/// How often to replace: as often as there are bytes (in 32 bits) where no number is given that a
/// `u32` can hold.
pub open spec fn replace_count(count: OptionalArg<PyInt>, len: int) -> int {
    match count {
        OptionalArg::Present(i) => if 0 <= i@ <= u32::MAX {
            i@
        } else {
            len % 0x1_0000_0000
        },
        OptionalArg::Missing => len % 0x1_0000_0000,
    }
}

/// `s`, `n` times.
pub open spec fn repeated(s: Seq<u8>, n: int) -> Seq<u8>
    decreases n,
{
    if n <= 0 {
        Seq::empty()
    } else {
        repeated(s, n - 1) + s
    }
}

/// The length of a repetition.
pub proof fn lemma_repeated_len(s: Seq<u8>, n: int)
    requires
        0 <= n,
    ensures
        repeated(s, n).len() == n * s.len(),
    decreases n,
{
    if n > 0 {
        lemma_repeated_len(s, n - 1);
        assert((n - 1) * s.len() + s.len() == n * s.len()) by (nonlinear_arith);
    } else {
        assert(n * s.len() == 0) by (nonlinear_arith)
            requires
                n == 0,
        ;
    }
}

impl PyByteInner {
    /// This byte string, and another one behind it.
    pub fn add(&self, other: PyByteInner) -> (r: Vec<u8>)
        ensures
            r@ == self@ + other@,
    {
        let mut v: Vec<u8> = Vec::new();
        v.extend_from_slice(&self.elements);
        v.extend_from_slice(&other.elements);
        assert(v@ =~= self@ + other@);
        v
    }

    /// The byte strings of an iteration, with this one between them.
    pub fn join(&self, iter: PyIterable<PyByteInner>) -> (r: PyResult<Vec<u8>>)
        ensures
            outcome(r) == join_outcome(self@, iter),
    {
        let mut refs: Vec<u8> = Vec::new();
        let steps: Vec<PyResult<PyByteInner>> = match iter.steps {
            Ok(v) => v,
            Err(e) => return Err(e),
        };
        let ghost all = steps@.map_values(|r: PyResult<PyByteInner>| outcome(r));
        assert(all.take(0) =~= Seq::empty());
        let mut i: usize = 0;
        while i < steps.len()
            invariant
                i <= steps.len(),
                all == steps@.map_values(|r: PyResult<PyByteInner>| outcome(r)),
                join_outcome(self@, iter) == (match gather(all) {
                    Ok(parts) => Ok(joined(self@, parts)),
                    Err(e) => Err(e),
                }),
                gather(all.take(i as int)) matches Ok(parts) && refs@ == joined(self@, parts),
            decreases steps.len() - i,
        {
            proof {
                lemma_gather_step(all, i as int);
            }
            let ghost parts = gather(all.take(i as int))->Ok_0;
            match &steps[i] {
                Ok(v) => {
                    let ghost before = refs@;
                    if !refs.is_empty() {
                        refs.extend_from_slice(&self.elements);
                        assert(refs@ =~= before + self@);
                    }
                    let ghost mid = refs@;
                    refs.extend_from_slice(&v.elements);
                    proof {
                        assert(refs@ =~= mid + v@);
                        assert(parts.push(v@).drop_last() =~= parts);
                        assert(refs@ =~= joined(self@, parts.push(v@)));
                    }
                },
                Err(e) => return Err(e.copy()),
            }
            i = i + 1;
        }
        assert(all.take(i as int) =~= all);
        Ok(refs)
    }

    /// The table that maps the bytes of `from` to those of `to` at the same positions. `to` must
    /// have a byte for each byte of `from`.
    pub fn maketrans(from: PyByteInner, to: PyByteInner) -> (r: PyResult<PyObject>)
        requires
            covers(from@, to@),
        ensures
            r matches Ok(o) && is_bytes_object(o, translation(from@, to@)),
    {
        let mut res: Vec<u8> = Vec::new();
        let mut i: usize = 0;
        while i < 256
            invariant
                i <= 256,
                covers(from@, to@),
                res@ =~= translation(from@, to@).take(i as int),
            decreases 256 - i,
        {
            let b: u8 = i as u8;
            let mut p: usize = 0;
            while p < from.elements.len() && from.elements[p] != b
                invariant
                    p <= from@.len(),
                    first_position(from@, b, 0) == first_position(from@, b, p as int),
                decreases from.elements.len() - p,
            {
                p = p + 1;
            }
            if p < from.elements.len() {
                assert(first_position(from@, b, 0) == Some(p as int));
                res.push(to.elements[p]);
            } else {
                res.push(b);
            }
            i = i + 1;
        }
        assert(res@ =~= translation(from@, to@));
        Ok(PyObject::Bytes(res))
    }

    /// The byte string without the bytes to delete, each other byte replaced by the one that the
    /// table has for it.
    pub fn translate(&self, options: ByteInnerTranslateOptions) -> (r: PyResult<Vec<u8>>)
        ensures
            match (r, table_outcome(options.table)) {
                (Ok(v), Ok(t)) => v@ == translated(self@, t, deleted_bytes(options.delete)),
                (Err(e), Err(f)) => e@ == f,
                _ => false,
            },
    {
        let (table, delete): (Vec<u8>, Vec<u8>) = match options.get_value() {
            Ok(v) => v,
            Err(e) => return Err(e),
        };
        let ghost s = self@;
        let ghost keep = |b: u8| !delete@.contains(b);
        let ghost change = |b: u8| table@[b as int];
        let mut res: Vec<u8> = Vec::new();
        let mut i: usize = 0;
        proof {
            reveal(Seq::filter);
            assert(s.take(0).filter(keep) =~= Seq::empty());
            assert(s.take(0).filter(keep).map_values(change) =~= Seq::empty());
        }
        while i < self.elements.len()
            invariant
                s == self@,
                i <= s.len(),
                table@.len() == 256,
                keep == (|b: u8| !delete@.contains(b)),
                change == (|b: u8| table@[b as int]),
                res@ =~= s.take(i as int).filter(keep).map_values(change),
            decreases s.len() - i,
        {
            let b: u8 = self.elements[i];
            proof {
                reveal(Seq::filter);
                assert(s.take(i + 1).drop_last() =~= s.take(i as int));
                assert(keep(b) == !delete@.contains(b));
            }
            if !has_byte(&delete, b) {
                res.push(table[b as usize]);
            }
            i = i + 1;
        }
        assert(s.take(i as int) =~= s);
        Ok(res)
    }

    /// The byte string with one byte string in it replaced by another, a number of times at most.
    /// Where something is to be replaced at all, the byte string must not be shorter than what it
    /// is searched for.
    pub fn replace(
        &self,
        find: PyByteInner,
        new: PyByteInner,
        count: OptionalArg<PyInt>,
    ) -> (r: PyResult<Vec<u8>>)
        requires
            replace_count(count, self@.len() as int) == 0 || find@.len() <= self@.len(),
        ensures
            r matches Ok(v) && v@ == replaced(
                self@,
                find@,
                new@,
                0,
                replace_count(count, self@.len() as int),
            ),
    {
        let len: usize = self.elements.len();
        let wide: u64 = len as u64;
        proof {
            assert(wide as u32 == wide % 0x1_0000_0000) by (bit_vector);
        }
        let times: u32 = match count.into_option() {
            Some(n) => match big_to_u32(&n.bytes) {
                Some(n) => n,
                None => wide as u32,
            },
            None => wide as u32,
        };
        let ghost s = self@;
        let ghost all = replaced(s, find@, new@, 0, times as int);
        let mut res: Vec<u8> = Vec::new();
        let mut index: usize = 0;
        let mut done: u32 = 0;
        while done < times && index <= len - find.elements.len()
            invariant
                s == self@,
                len == s.len(),
                index <= len,
                done <= times,
                times == 0 || find@.len() <= len,
                all =~= res@ + replaced(s, find@, new@, index as int, times - done),
            decreases len - index, times - done,
        {
            let ghost before = res@;
            if stands_at(&self.elements, &find.elements, index) {
                res.extend_from_slice(&new.elements);
                assert(res@ =~= before + new@);
                index = index + find.elements.len();
                done = done + 1;
            } else {
                proof {
                    if index == len {
                        assert(s.subrange(index as int, index as int) =~= find@);
                    }
                }
                res.push(self.elements[index]);
                assert(res@ =~= before + seq![s[index as int]]);
                index = index + 1;
            }
        }
        let ghost before = res@;
        res.extend_from_slice(vstd::slice::slice_subrange(self.elements.as_slice(), index, len));
        assert(s.subrange(index as int, len as int) =~= s.skip(index as int));
        assert(res@ =~= before + s.skip(index as int));
        Ok(res)
    }

    /// The byte string a number of times. The result must not be longer than a vector can be.
    pub fn repeat(&self, n: isize) -> (r: Vec<u8>)
        requires
            n > 0 ==> n * self@.len() <= isize::MAX,
        ensures
            r@ == repeated(self@, n as int),
    {
        if self.elements.is_empty() || n <= 0 {
            proof {
                if n > 0 {
                    lemma_repeated_len(self@, n as int);
                    assert(n * self@.len() == 0) by (nonlinear_arith)
                        requires
                            self@.len() == 0,
                    ;
                    assert(repeated(self@, n as int) =~= Seq::empty());
                }
            }
            return Vec::new();
        }
        let times: usize = n as usize;
        let mut res: Vec<u8> = Vec::with_capacity(times * self.elements.len());
        let mut i: usize = 0;
        while i < times
            invariant
                i <= times,
                res@ == repeated(self@, i as int),
            decreases times - i,
        {
            let ghost before = res@;
            res.extend_from_slice(&self.elements);
            assert(res@ =~= before + self@);
            i = i + 1;
        }
        res
    }

    /// Makes the byte string a number of times itself. The result must not be longer than a
    /// vector can be.
    pub fn irepeat(&mut self, n: isize)
        requires
            n > 0 ==> n * old(self)@.len() <= isize::MAX,
        ensures
            final(self)@ == repeated(old(self)@, n as int),
    {
        let ghost s = self@;
        if self.elements.is_empty() {
            proof {
                if n > 0 {
                    lemma_repeated_len(s, n as int);
                    assert(n * s.len() == 0) by (nonlinear_arith)
                        requires
                            s.len() == 0,
                    ;
                }
                assert(repeated(s, n as int) =~= s);
            }
            return;
        }
        if n <= 0 {
            self.elements.clear();
        } else {
            let times: usize = n as usize;
            let unit: Vec<u8> = vstd::slice::slice_to_vec(self.elements.as_slice());
            assert(repeated(s, 1) =~= s) by {
                assert(repeated(s, 0) =~= Seq::empty());
            }
            let mut i: usize = 1;
            while i < times
                invariant
                    1 <= i <= times,
                    unit@ == s,
                    self@ == repeated(s, i as int),
                decreases times - i,
            {
                let ghost before = self@;
                self.elements.extend_from_slice(&unit);
                assert(self@ =~= before + s);
                i = i + 1;
            }
        }
    }
}

} // verus!
