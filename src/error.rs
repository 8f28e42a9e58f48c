use vstd::prelude::*;

verus! {

/// What can go wrong while playing or restoring statistics.
#[derive(Debug, Clone, Copy, PartialEq, Eq, Structural)]
pub enum Error {
    /// A candidate string is not exactly five ASCII letters.
    InvalidWord,
    /// A hard-mode guess contradicts feedback already revealed.
    Incompatible,
    /// A persisted document does not have the expected shape.
    PersistenceFormat,
    /// Command-line choices that cannot be combined.
    ArgumentConflict,
    /// A list of goal words has run out.
    EndOfList,
}

} // verus!
