use vstd::prelude::*;

verus! {

/// An error produced while reading a transaction line. Every variant carries
/// the 1-indexed number of the line it arose on.
#[derive(Debug)]
pub enum CashRegisterError {
    /// A monetary token did not match the amount grammar; `input` is the
    /// trimmed token that failed.
    InvalidAmount { line: usize, input: String },
    /// The paid amount is strictly less than the owed amount; both are kept
    /// in their trimmed string forms for reporting.
    Underpayment { line: usize, owed: String, paid: String },
    /// The line does not split into two comma-separated tokens.
    MalformedLine { line: usize, detail: String },
}

} // verus!
