//! The byte string.
use vstd::prelude::*;

verus! {

/// A string of bytes.
#[derive(Debug, Default, Clone)]
pub struct PyByteInner {
    pub elements: Vec<u8>,
}

impl View for PyByteInner {
    type V = Seq<u8>;

    open spec fn view(&self) -> Seq<u8> {
        self.elements@
    }
}

impl PyByteInner {
    /// The number of bytes.
    pub fn len(&self) -> (r: usize)
        ensures
            r == self@.len(),
    {
        self.elements.len()
    }
}

} // verus!
