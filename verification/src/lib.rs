//! The core of an in-memory key-value server: the codec of its wire protocol,
//! the reader of its snapshot format, its store with per-key expiry and the
//! command layer that ties them together.
//!
//! Everything here is sequential and free of I/O. Time is a parameter: every
//! operation that depends on the clock takes the current instant as a number
//! of nanoseconds on a monotonic clock.

pub mod command;
pub mod config;
pub mod connection;
pub mod error;
pub mod parser;
pub mod server;
pub mod store;

pub use crate::command::Command;
