//! Resolution of raw kernel-trace addresses to symbolic locations.
//!
//! The crate builds an ordered symbol table from kallsyms-style text,
//! parses function-call trace records, and resolves each traced address
//! to the symbol with the greatest load address not exceeding it,
//! together with the byte offset into that symbol.

pub mod errors;
pub mod numbers;
pub mod parse;
pub mod pipeline;
pub mod render;
pub mod symtab;
pub mod tokens;
