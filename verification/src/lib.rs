//! Streaming validator and minimal repairer for JSON text.
//!
//! The library walks a byte sequence once, checks it against the JSON
//! grammar, and produces an output that is byte-identical to the input when
//! the input is valid. Exactly one class of defect is corrected instead of
//! rejected: spurious or missing commas between sibling array elements or
//! object members, including a trailing comma before a closing bracket.
//! Every other defect is a fatal error.
//!
//! Nesting is handled by recursion, so the depth of object and array
//! nesting a document may use is bounded by the call stack, not checked.

pub mod grammar;
pub mod laws;
mod outcome;
mod parser;

pub use grammar::scan_json;
pub use outcome::{RepairErr, RepairOk, RepairResult, SyntaxError};
pub use parser::repair;
