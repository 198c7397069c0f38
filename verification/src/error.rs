//! Exceptions that the operations raise.
use vstd::prelude::*;

verus! {

/// The class of an exception.
#[derive(Debug, Clone, Copy, PartialEq, Eq, Structural)]
pub enum ErrorKind {
    TypeError,
    ValueError,
    IndexError,
    OverflowError,
    /// Any exception that an object's own methods raise.
    Exception,
}

/// An exception: its class and its message.
#[derive(Debug, Clone)]
pub struct PyError {
    pub kind: ErrorKind,
    pub message: String,
}

/// What an operation that may raise returns.
pub type PyResult<T> = Result<T, PyError>;

/// The mathematical content of a [`PyError`].
pub struct ErrorView {
    pub kind: ErrorKind,
    pub message: Seq<char>,
}

impl View for PyError {
    type V = ErrorView;

    open spec fn view(&self) -> ErrorView {
        ErrorView { kind: self.kind, message: self.message@ }
    }
}

/// A result seen through the views of its value and of its exception.
pub open spec fn outcome<T: View>(r: PyResult<T>) -> Result<T::V, ErrorView> {
    match r {
        Ok(v) => Ok(v@),
        Err(e) => Err(e@),
    }
}

pub open spec fn type_error(message: Seq<char>) -> ErrorView {
    ErrorView { kind: ErrorKind::TypeError, message }
}

pub open spec fn value_error(message: Seq<char>) -> ErrorView {
    ErrorView { kind: ErrorKind::ValueError, message }
}

pub open spec fn index_error(message: Seq<char>) -> ErrorView {
    ErrorView { kind: ErrorKind::IndexError, message }
}

pub open spec fn overflow_error(message: Seq<char>) -> ErrorView {
    ErrorView { kind: ErrorKind::OverflowError, message }
}

pub fn new_type_error(message: String) -> (e: PyError)
    ensures
        e@ == type_error(message@),
{
    PyError { kind: ErrorKind::TypeError, message }
}

pub fn new_value_error(message: String) -> (e: PyError)
    ensures
        e@ == value_error(message@),
{
    PyError { kind: ErrorKind::ValueError, message }
}

pub fn new_index_error(message: String) -> (e: PyError)
    ensures
        e@ == index_error(message@),
{
    PyError { kind: ErrorKind::IndexError, message }
}

pub fn new_overflow_error(message: String) -> (e: PyError)
    ensures
        e@ == overflow_error(message@),
{
    PyError { kind: ErrorKind::OverflowError, message }
}

} // verus!
