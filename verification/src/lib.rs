//! Operator-facing inspection library for a music-queue store kept in a
//! key-value database.
//!
//! The library is the verified core of a small pipeline: discover which
//! queue keys exist (pattern matching and identifier extraction), validate
//! one line of operator input against the discovered menu, and decode and
//! render the JSON playlist entries stored under the selected key.  All
//! store traffic and terminal I/O stay outside; the functions here work on
//! plain values and carry contracts for what they compute.

pub mod keys;
pub mod entry;
pub mod json;
pub mod render;
pub mod select;
pub mod text;
