//! The arguments of the byte string operations.
use std::ops::Range;

use vstd::prelude::*;

use crate::error::{
    ErrorView, PyError, PyResult, new_type_error, new_value_error, type_error, value_error,
};
use crate::inner::PyByteInner;
use crate::integer::{ByteOr, PyInt, big_to_usize, byte_outcome};
use crate::object::{
    Either, OptionalArg, PyNone, PyObject, bytes_like, copy_bytes, description,
};
use crate::sequence::{adjust_indices, adjusted_range};
use crate::text::SPACE;

verus! {

/// The arguments of a search: what to look for, and where.
#[derive(Debug)]
pub struct ByteInnerFindOptions {
    pub sub: Either<PyByteInner, PyInt>,
    pub start: OptionalArg<Option<isize>>,
    pub end: OptionalArg<Option<isize>>,
}

/// The arguments of a padding: the width to fill up to, and the byte to fill with.
#[derive(Debug)]
pub struct ByteInnerPaddingOptions {
    pub width: PyInt,
    pub fillbyte: OptionalArg<PyObject>,
}

/// The arguments of a byte by byte replacement: the table, and the bytes to leave out.
#[derive(Debug)]
pub struct ByteInnerTranslateOptions {
    pub table: Either<PyByteInner, PyNone>,
    pub delete: OptionalArg<PyByteInner>,
}

/// The arguments of a split: the separator, and how often to split at most.
#[derive(Debug)]
pub struct ByteInnerSplitOptions {
    pub sep: OptionalArg<Option<PyByteInner>>,
    pub maxsplit: OptionalArg<isize>,
}

/// The argument of a tab expansion: the distance between tab stops.
#[derive(Debug)]
pub struct ByteInnerExpandtabsOptions {
    pub tabsize: OptionalArg<PyInt>,
}

/// The argument of a split into lines: whether the lines keep their ends.
#[derive(Debug)]
pub struct ByteInnerSplitlinesOptions {
    pub keepends: OptionalArg<bool>,
}

/// A byte string, or an integer that stands for one byte.
pub open spec fn sub_outcome(sub: Either<PyByteInner, PyInt>) -> Result<Seq<u8>, ErrorView> {
    match sub {
        Either::A(v) => Ok(v@),
        Either::B(i) => match byte_outcome(i@) {
            Ok(b) => Ok(seq![b]),
            Err(e) => Err(e),
        },
    }
}

impl ByteInnerFindOptions {
    /// The range to search in a byte string of the length `len`.
    pub open spec fn spec_range(self, len: int) -> (int, int) {
        adjusted_range(self.start.spec_flat_option(), self.end.spec_flat_option(), len)
    }

    /// What to look for, and the range to look in.
    pub fn get_value(self, len: usize) -> (r: PyResult<(Vec<u8>, Range<usize>)>)
        ensures
            match (r, sub_outcome(self.sub)) {
                (Ok((sub, range)), Ok(b)) => {
                    &&& sub@ == b
                    &&& (range.start as int, range.end as int) == self.spec_range(len as int)
                    &&& range.end <= len
                },
                (Err(e), Err(f)) => e@ == f,
                _ => false,
            },
    {
        let sub: Vec<u8> = match self.sub {
            Either::A(v) => v.elements,
            Either::B(i) => match i.byte_or() {
                Ok(b) => vec![b],
                Err(e) => return Err(e),
            },
        };
        let range: Range<usize> = adjust_indices(self.start, self.end, len);
        Ok((sub, range))
    }
}

/// The exception for a fill byte that is no byte string of one byte.
pub open spec fn bad_fill_byte(fn_name: Seq<char>, o: PyObject) -> ErrorView {
    type_error(fn_name + "() argument 2 must be a byte string of length 1, not "@ + description(o))
}

/// The byte to fill with: a space where none is given.
pub open spec fn fill_outcome(fn_name: Seq<char>, fill: OptionalArg<PyObject>) -> Result<
    u8,
    ErrorView,
> {
    match fill {
        OptionalArg::Present(o) => match bytes_like(o) {
            Some(b) => if b.len() == 1 {
                Ok(b[0])
            } else {
                Err(bad_fill_byte(fn_name, o))
            },
            None => Err(bad_fill_byte(fn_name, o)),
        },
        OptionalArg::Missing => Ok(SPACE),
    }
}

/// How many bytes are missing to a width. A width that a `usize` cannot hold asks for none.
pub open spec fn missing(width: int, len: int) -> int {
    if len < width <= usize::MAX {
        width - len
    } else {
        0
    }
}

/// The content of a `bytes` or a `bytearray`, and nothing for any other object.
pub fn try_as_byte(obj: &PyObject) -> (r: Option<Vec<u8>>)
    ensures
        match r {
            Some(b) => bytes_like(*obj) == Some(b@),
            None => bytes_like(*obj) is None,
        },
{
    match obj {
        PyObject::Bytes(b) => Some(copy_bytes(b)),
        PyObject::ByteArray(b) => Some(copy_bytes(b)),
        _ => None,
    }
}

impl ByteInnerPaddingOptions {
    fn bad_fill_byte(fn_name: &str, o: &PyObject) -> (e: PyError)
        ensures
            e@ == bad_fill_byte(fn_name@, *o),
    {
        let mut s: String = fn_name.to_owned();
        s.append("() argument 2 must be a byte string of length 1, not ");
        s.append(o.describe().as_str());
        new_type_error(s)
    }

    /// The byte to fill with, and how often.
    pub fn get_value(self, fn_name: &str, len: usize) -> (r: PyResult<(u8, usize)>)
        ensures
            match (r, fill_outcome(fn_name@, self.fillbyte)) {
                (Ok((fill, diff)), Ok(b)) => fill == b && diff == missing(self.width@, len as int),
                (Err(e), Err(f)) => e@ == f,
                _ => false,
            },
    {
        let fill: u8 = match &self.fillbyte {
            OptionalArg::Present(v) => match try_as_byte(v) {
                Some(x) => {
                    if x.len() == 1 {
                        x[0]
                    } else {
                        return Err(Self::bad_fill_byte(fn_name, v));
                    }
                },
                None => return Err(Self::bad_fill_byte(fn_name, v)),
            },
            OptionalArg::Missing => SPACE,
        };
        let width: usize = match big_to_usize(&self.width.bytes) {
            Some(x) => {
                if x <= len {
                    0
                } else {
                    x
                }
            },
            None => 0,
        };
        let diff: usize = if width != 0 {
            width - len
        } else {
            0
        };
        Ok((fill, diff))
    }
}

/// The table that maps every byte to itself.
pub open spec fn identity_table() -> Seq<u8> {
    Seq::new(256, |i: int| i as u8)
}

/// The table of a replacement.
pub open spec fn table_outcome(table: Either<PyByteInner, PyNone>) -> Result<Seq<u8>, ErrorView> {
    match table {
        Either::A(v) => if v@.len() == 256 {
            Ok(v@)
        } else {
            Err(value_error("translation table must be 256 characters long"@))
        },
        Either::B(_) => Ok(identity_table()),
    }
}

/// The bytes to leave out.
pub open spec fn deleted_bytes(delete: OptionalArg<PyByteInner>) -> Seq<u8> {
    match delete {
        OptionalArg::Present(v) => v@,
        OptionalArg::Missing => Seq::empty(),
    }
}

impl ByteInnerTranslateOptions {
    /// The table, and the bytes to leave out.
    pub fn get_value(self) -> (r: PyResult<(Vec<u8>, Vec<u8>)>)
        ensures
            match (r, table_outcome(self.table)) {
                (Ok((table, delete)), Ok(t)) => table@ == t && delete@ == deleted_bytes(
                    self.delete,
                ) && table@.len() == 256,
                (Err(e), Err(f)) => e@ == f,
                _ => false,
            },
    {
        let table: Vec<u8> = match self.table {
            Either::A(v) => v.elements,
            Either::B(_) => {
                let mut t: Vec<u8> = Vec::new();
                let mut i: usize = 0;
                while i < 256
                    invariant
                        i <= 256,
                        t@ =~= identity_table().take(i as int),
                    decreases 256 - i,
                {
                    t.push(i as u8);
                    i = i + 1;
                }
                assert(t@ =~= identity_table());
                t
            },
        };
        if table.len() != 256 {
            return Err(
                new_value_error("translation table must be 256 characters long".to_owned()),
            );
        }
        let delete: Vec<u8> = match self.delete {
            OptionalArg::Present(v) => v.elements,
            OptionalArg::Missing => Vec::new(),
        };
        Ok((table, delete))
    }
}

impl ByteInnerSplitOptions {
    /// The separator; an empty one where none is given.
    pub open spec fn spec_sep(self) -> Seq<u8> {
        match self.sep {
            OptionalArg::Present(Some(v)) => v@,
            _ => Seq::empty(),
        }
    }

    /// How often to split at most; a negative number where no limit is given.
    pub open spec fn spec_maxsplit(self) -> int {
        match self.maxsplit {
            OptionalArg::Present(n) => n as int,
            OptionalArg::Missing => -1,
        }
    }

    /// The separator, and how often to split at most.
    pub fn get_value(self) -> (r: PyResult<(Vec<u8>, isize)>)
        ensures
            r matches Ok((sep, maxsplit)) && sep@ == self.spec_sep() && maxsplit
                == self.spec_maxsplit(),
    {
        let sep: Vec<u8> = match self.sep.into_option() {
            Some(Some(v)) => v.elements,
            _ => Vec::new(),
        };
        let maxsplit: isize = match self.maxsplit {
            OptionalArg::Present(n) => n,
            OptionalArg::Missing => -1,
        };
        Ok((sep, maxsplit))
    }
}

impl ByteInnerExpandtabsOptions {
    /// The distance between tab stops: 8 where none is given, 0 for a number that a `usize`
    /// cannot hold.
    pub open spec fn spec_tabsize(self) -> int {
        match self.tabsize {
            OptionalArg::Present(i) => if 0 <= i@ <= usize::MAX {
                i@
            } else {
                0
            },
            OptionalArg::Missing => 8,
        }
    }

    /// The distance between tab stops.
    pub fn get_value(self) -> (r: usize)
        ensures
            r == self.spec_tabsize(),
    {
        match self.tabsize.into_option() {
            Some(i) => match big_to_usize(&i.bytes) {
                Some(n) => n,
                None => 0,
            },
            None => 8,
        }
    }
}

impl ByteInnerSplitlinesOptions {
    /// Whether the lines keep their ends: not where nothing is given.
    pub open spec fn spec_keepends(self) -> bool {
        match self.keepends {
            OptionalArg::Present(b) => b,
            OptionalArg::Missing => false,
        }
    }

    /// Whether the lines keep their ends.
    pub fn get_value(self) -> (r: bool)
        ensures
            r == self.spec_keepends(),
    {
        match self.keepends.into_option() {
            Some(x) => x,
            None => false,
        }
    }
}

} // verus!
