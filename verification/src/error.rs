//! The conditions on which a run of the interpreter is rejected.

use vstd::prelude::*;

verus! {

/// Every condition that aborts a run.  The first four are the language's
/// own rules; the last two arise from machine limits and malformed input
/// that the language does not otherwise constrain.
#[derive(Clone, Copy, Debug, PartialEq, Eq, Structural)]
pub enum VmError {
    /// An operation line whose first word is not a recognized mnemonic.
    InvalidMnemonic,
    /// An arithmetic instruction with an operand count other than two,
    /// with two text operands, or whose variable operand matched a record
    /// holding a text value.
    InvalidOperands,
    /// `div` with a second operand equal to zero.
    DivisionByZero,
    /// A `.loop` marker without a matching `.endloop` marker after it.
    MissingLoopEnd,
    /// A variable declaration with fewer than two whitespace-separated words.
    MalformedDeclaration,
    /// An arithmetic result that does not fit in a 64-bit signed integer.
    Overflow,
}

} // verus!
