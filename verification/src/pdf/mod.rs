//! Low-level PDF output: the standard security handler and the object writer.
pub mod crypto;
pub mod writer;
