//! Layout logic: text escaping and wrapping, tables, row streaming and markdown structure.
pub mod text;
pub mod table;
pub mod multiplexed;
pub mod markdown;
