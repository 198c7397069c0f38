//! Byte strings with the operations of Python's `bytes` and `bytearray`.
//!
//! [`PyByteInner`](inner::PyByteInner) owns the bytes; the modules around it hold its methods by
//! theme, the arguments these methods take, and the laws that tie them together.
pub mod error;
pub mod text;
pub mod integer;
pub mod object;
pub mod sequence;
pub mod inner;
pub mod items;
pub mod search;
pub mod options;
pub mod bstring;
pub mod find;
pub mod split;
pub mod strip;
pub mod lines;
pub mod classify;
pub mod casing;
pub mod hexadecimal;
pub mod padding;
pub mod transform;
pub mod compare;
pub mod construct;
pub mod laws;
