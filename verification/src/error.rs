//! What can go wrong, each with what it was found on.

use crate::refusal::rebuild_starved;
use vstd::prelude::*;

verus! {

#[derive(Debug, Clone, Copy, PartialEq, Eq)]
pub enum Error {
    /// The bytes end inside a variable-length number.
    TruncatedVarint,
    /// A variable-length number has more than ten bytes.
    VarintOverflow,
    TruncatedByte,
    TruncatedBytes { want: u64, have: u64 },
    /// Context-mixed streams are limited to less than four gibibytes.
    StreamTooLong,
    VersionMismatch(u8),
    BadTableBits,
    BadMatchBits,
    BadStride,
    StreamLengthMismatch { stored: u64, expected: u64 },
    PlainUnderrun,
    CorrectionsUnderrun,
    FiltersUnderrun,
    LeptonUnderrun,
    ImplausibleSegments(u64),
    ImplausibleChunks,
    BadPixelMode(u8),
    BadSegmentTag(u8),
    FilterCountMismatch,
    PixelSizeMismatch,
    BadFilterType(u8),
    StreamPlainMismatch { got: u64, want: u64 },
    PreflateFailed,
    LeptonFailed,
    /// A codec ran out of memory.
    OutOfMemory,
    LeptonLengthMismatch,
    ImagePlainMismatch,
    ChunkLengthsMismatch,
    MissingBlob(u32),
    UnknownBackend(u8),
    BackendFailed(u8),
    BackendLength { id: u8, got: u64, want: u64 },
    NoInputs,
    /// Two inputs have one path in the archive.
    DuplicatePath,
    TooManyBlobs,
    NotAnArchive,
    BadTrailer,
    BadTocLocation,
    /// The codec of the table of contents failed.
    TocFailed,
    ImplausibleEntries,
    BadPathEncoding,
    ImplausibleBlobs,
    PayloadsOverrun,
    /// A channel is longer than the machine can address.
    ChannelTooLarge,
    UnsafePath,
    /// A file has another length or hash than the archive says.
    ContentMismatch,
    FileExists,
    /// The sizes of all the files add up to more than a number holds.
    SizeOverflow,
}

/// Whether the error is want of memory, and a codec has ended in that.
pub open spec fn out_of_memory(e: Error) -> bool {
    e is OutOfMemory && rebuild_starved()
}

/// The same outcome: the same bytes, or the same error.
pub open spec fn same_bytes(r: Result<Vec<u8>, Error>, want: Result<Seq<u8>, Error>) -> bool {
    match (r, want) {
        (Ok(v), Ok(s)) => v@ == s,
        (Err(a), Err(b)) => a == b,
        _ => false,
    }
}

} // verus!
