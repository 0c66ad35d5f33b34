//! A small to-do list library: an in-memory task store with monotonically
//! assigned identifiers, plus a line-oriented text format that the store can
//! be written to and read back from.

pub mod codec;
pub mod num;
pub mod store;
pub mod task;
pub mod text;
