//! The error taxonomy. Every error is fatal: the first one aborts the run.

use vstd::prelude::*;

verus! {

/// A fatal input or resolution error, carrying the offending line or
/// address for diagnostics.
#[derive(Debug)]
pub enum ResolveError {
    /// A symbol-table line that does not match the symbol grammar.
    MalformedSymbolLine(Vec<u8>),
    /// A symbol-table line whose address field is not a `u64` hexadecimal
    /// numeral.
    InvalidAddress(Vec<u8>),
    /// A trace line that does not match the trace grammar.
    MalformedTraceLine(Vec<u8>),
    /// A trace line with a numeric field that is not a `u32` decimal or
    /// `u64` hexadecimal numeral.
    InvalidNumericField(Vec<u8>),
    /// A traced address below every symbol of the table.
    UnresolvedAddress(u64),
}

} // verus!
