//! The operation kinds and their mnemonics.

use vstd::prelude::*;
use vstd::string::*;
use crate::text::str_eq;

verus! {

/// An operation kind: four arithmetic operations and one print operation.
#[derive(Clone, Copy, Debug, PartialEq, Eq, Structural)]
pub enum Operation {
    Add,
    Sub,
    Mul,
    Div,
    Print,
}

/// The operation a mnemonic names: `add`, `sub`, `mul`, `div` or `print`;
/// any other word names none.
pub open spec fn operation_of(s: Seq<char>) -> Option<Operation> {
    if s == seq!['a', 'd', 'd'] {
        Some(Operation::Add)
    } else if s == seq!['s', 'u', 'b'] {
        Some(Operation::Sub)
    } else if s == seq!['m', 'u', 'l'] {
        Some(Operation::Mul)
    } else if s == seq!['d', 'i', 'v'] {
        Some(Operation::Div)
    } else if s == seq!['p', 'r', 'i', 'n', 't'] {
        Some(Operation::Print)
    } else {
        None
    }
}

/// The canonical lowercase mnemonic of an operation.
pub open spec fn mnemonic_of(op: Operation) -> Seq<char> {
    match op {
        Operation::Add => seq!['a', 'd', 'd'],
        Operation::Sub => seq!['s', 'u', 'b'],
        Operation::Mul => seq!['m', 'u', 'l'],
        Operation::Div => seq!['d', 'i', 'v'],
        Operation::Print => seq!['p', 'r', 'i', 'n', 't'],
    }
}

impl Operation {
    /// Renders the operation as its canonical lowercase mnemonic.
    pub fn mnemonic(&self) -> (r: String)
        ensures
            r@ == mnemonic_of(*self),
    {
        proof {
            reveal_strlit("add");
            reveal_strlit("sub");
            reveal_strlit("mul");
            reveal_strlit("div");
            reveal_strlit("print");
            assert("add"@ =~= seq!['a', 'd', 'd']);
            assert("sub"@ =~= seq!['s', 'u', 'b']);
            assert("mul"@ =~= seq!['m', 'u', 'l']);
            assert("div"@ =~= seq!['d', 'i', 'v']);
            assert("print"@ =~= seq!['p', 'r', 'i', 'n', 't']);
        }
        match self {
            Operation::Add => String::from_str("add"),
            Operation::Sub => String::from_str("sub"),
            Operation::Mul => String::from_str("mul"),
            Operation::Div => String::from_str("div"),
            Operation::Print => String::from_str("print"),
        }
    }

    /// Maps a mnemonic to its operation, or to nothing for an
    /// unrecognized word.
    pub fn from_mnemonic(s: &str) -> (r: Option<Operation>)
        ensures
            r == operation_of(s@),
    {
        proof {
            reveal_strlit("add");
            reveal_strlit("sub");
            reveal_strlit("mul");
            reveal_strlit("div");
            reveal_strlit("print");
            assert("add"@ =~= seq!['a', 'd', 'd']);
            assert("sub"@ =~= seq!['s', 'u', 'b']);
            assert("mul"@ =~= seq!['m', 'u', 'l']);
            assert("div"@ =~= seq!['d', 'i', 'v']);
            assert("print"@ =~= seq!['p', 'r', 'i', 'n', 't']);
        }
        if str_eq(s, "add") {
            Some(Operation::Add)
        } else if str_eq(s, "sub") {
            Some(Operation::Sub)
        } else if str_eq(s, "mul") {
            Some(Operation::Mul)
        } else if str_eq(s, "div") {
            Some(Operation::Div)
        } else if str_eq(s, "print") {
            Some(Operation::Print)
        } else {
            None
        }
    }
}

} // verus!
