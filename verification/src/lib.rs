//! A verified parser for a minimal configuration language of quoted atoms,
//! ordered maps, and lists, with line comments.
//!
//! The parser reads the whole source in a single forward pass, driving an
//! explicit stack of in-progress builders instead of native recursion, and
//! reports errors with byte-accurate positions.
//!
//! - [`tree`] holds the document tree a parse produces, and its model.
//! - [`machine`] defines, one codepoint at a time, what parsing returns on
//!   any input, and proves the laws of that machine: no duplicate keys, and
//!   entry order preserved.
//! - [`parse`] is the executable engine, proved to return exactly what the
//!   machine specifies.
//! - [`tracker`], [`unfinished`] and [`reduce`] are its working parts: the
//!   line-position cursor, the builder frames, and the reduction step.

pub mod chars;
pub mod machine;
pub mod parse;
pub mod reduce;
pub mod tracker;
pub mod tree;
pub mod unfinished;
