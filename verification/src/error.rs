//! The errors that the library reports.
use vstd::prelude::*;

verus! {

/// What can go wrong.
#[derive(Debug, Clone, Copy, PartialEq, Eq, Structural)]
pub enum TsdbError {
    /// A selector names no filter that could select anything.
    MissingFilter,
    /// A chunk cannot take more samples than this.
    CapacityFull(usize),
    /// A sample with this timestamp exists, and the policy in force blocks a second one.
    DuplicateSample(i64),
    /// The bytes of a chunk end too early or hold no chunk.
    ChunkDecoding,
    /// A number in the header of a chunk cannot be read.
    DecodingError,
    /// A bucket of a compaction cannot be stored: its timestamp.
    DestinationWrite(i64),
    /// A compaction would feed a series with its own samples.
    CircularDependency,
    /// The caller may not read what was asked for.
    PermissionsError,
}

} // verus!
