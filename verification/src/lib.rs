//! Finds files that share a base name (name plus extension) at different
//! paths. The walk of the directory tree and all printing live outside this
//! crate; here are the rules that decide which paths group together, with
//! proofs that they follow the stated grouping.

pub mod grouping;
pub mod laws;
pub mod lines;
pub mod names;
pub mod report;
