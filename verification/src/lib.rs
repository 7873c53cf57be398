//! Cryo: a single-node, disk-backed key/value storage engine.
//!
//! Records are indexed by an integer key in a B-Tree of fixed-size pages.
//! The library works on plain values: the database file and the write-ahead
//! log are handed to it as bytes, and every byte it wants stored is handed
//! back, so that all of its behaviour is stated in contracts.
pub mod cli;
pub mod command;
pub mod protocol;
pub mod statement;
pub mod storage;
pub mod text;
pub mod utilities;

pub use command::Command;
pub use statement::Statement;
