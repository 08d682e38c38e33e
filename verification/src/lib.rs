//! A small interpreter for a line-oriented pseudo-assembly language.
//!
//! A program is a sequence of text lines.  Each line is classified by its
//! leading character after trimming: `;` comment, `.` directive, `#` label,
//! `@` variable declaration, blank line, anything else an operation.
//! Operations are `add`, `sub`, `mul`, `div` (exactly two operands) and
//! `print` (any number of operands).  A single `.loop <count>` / `.endloop`
//! region is statically unrolled.  Execution appends values to a result
//! sequence that finally drains into an integer output stack; `print` emits
//! text lines instead.
//!
//! Every stage is specified by a spec-level model and the executable code is
//! verified against it; conditions on which the language rejects a program
//! are reported as typed [`error::VmError`] values rather than panics.

pub mod error;
pub mod field;
pub mod instruction;
pub mod operation;
pub mod text;
pub mod token;
pub mod variable;
pub mod vm;
