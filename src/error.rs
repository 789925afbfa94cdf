use vstd::prelude::*;

verus! {

/// What can go wrong while opening, reconciling or merging streams.
#[derive(Debug, Clone, Copy, PartialEq, Eq, Structural)]
pub enum MergeError {
    /// An input path could not be opened.
    Open,
    /// A stream's header or framing is invalid, or its first column is not
    /// a millisecond timestamp column with a first row.
    Format,
    /// Two schemas give one field name two different types.
    SchemaConflict,
    /// A stream failed to produce its next batch during the merge.
    Decode,
}

} // verus!
