use vstd::prelude::*;

verus! {

/// Successful outcome of one repair run.
#[derive(Clone, Copy, Debug, PartialEq, Eq, Structural)]
pub enum RepairOk {
    /// The input was well-formed JSON; the output is byte-identical to it.
    Valid,
    /// At least one comma correction was applied; apart from the comma
    /// edits the output preserves every input byte.
    Repaired,
}

/// Syntax defect that aborts a run. Only comma placement is ever repaired;
/// every other departure from the JSON grammar surfaces here.
#[derive(Clone, Copy, Debug, PartialEq, Eq, Structural)]
pub enum SyntaxError {
    /// The grammar required another byte but the input was exhausted.
    UnexpectedEof,
    /// A byte was present but matched no grammar alternative at its position.
    InvalidValue,
    /// A complete value was parsed but bytes remain after it.
    TrailingData,
}

/// Fatal outcome of one repair run.
///
/// Reading the bytes in and writing them out belongs to the caller, so a
/// failing read or write never reaches this library; the callers that do
/// the transport report their own I/O failures beside this type.
#[derive(Clone, Copy, Debug, PartialEq, Eq, Structural)]
pub enum RepairErr {
    /// The input does not follow the JSON grammar, comma placement aside.
    Invalid(SyntaxError),
}

/// What one repair run returns.
pub type RepairResult = Result<RepairOk, RepairErr>;

} // verus!
