//! A small heap of values with typed and type-erased handles and a
//! mark-and-sweep collector that reclaims what no registered root reaches.

pub mod heap;
pub mod laws;
pub mod value;
