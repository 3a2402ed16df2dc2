//! The store and the values that it holds.

pub mod datatype;
pub mod proofs;
pub mod redis;
