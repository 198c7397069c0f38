//! Laws that tie the operations together, and that say what each of them gives.
pub mod change;
pub mod forms;
pub mod found;
pub mod items;
pub mod lines;
pub mod objects;
pub mod order;
pub mod pieces;
pub mod search;
pub mod separators;
pub mod slices;
pub mod table;
pub mod text;
pub mod widths;
pub mod words;
