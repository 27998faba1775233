//! A path-manipulation library with a verified lexical engine.
//!
//! `Path` and `PathBuf` hold a path as text and expose the usual lexical
//! queries: component iteration, ancestor traversal, file name, stem and
//! extension extraction, and whole-component suffix matching. Every lexical
//! operation is total, allocation is explicit, and each function's contract
//! states the result over a mathematical model of the path's characters.
//!
//! The filesystem queries that a path supports (canonicalization, existence
//! and metadata checks) are inherently I/O-bound; this crate models their
//! requests, results and error taxonomy as plain values, so that the
//! decision logic around them is verified while the blocking system calls
//! themselves live with the caller.

pub mod component;
pub mod fsquery;
pub mod lexical;
pub mod path;
