use vstd::prelude::*;

verus! {

/// The ways in which an operation of this library can fail.
#[derive(Debug, Clone, Copy, PartialEq, Eq, Structural)]
pub enum VocabError {
    /// A unit or an id is absent from the map it was looked up in.
    UnknownToken,
    /// An id named for removal is not an auxiliary entry.
    UnknownEntry,
    /// A window width or an occurrence threshold is out of range.
    InvalidWindow,
    /// A record ends with characters after its last closing bracket.
    MalformedRecord,
    /// More distinct units than `u32` ids can number.
    VocabularyFull,
}

} // verus!
