use vstd::prelude::*;

verus! {

/// Fatal conditions raised by counting, unranking, partitioning and
/// estimation before or during a generation run.
#[derive(Clone, Copy, Debug, PartialEq, Eq, Structural)]
pub enum AtmError {
    /// The requested space has more melodies than a `u64` can hold.
    Overflow,
    /// An unranking request lay outside `[0, count)`.
    RankOutOfRange,
    /// A compression level outside `0..=9` was configured.
    InvalidCompressionLevel,
    /// The exact estimator was handed payloads of differing sizes.
    NonUniformPayload,
}

/// Misuse of a storage backend's append/finish protocol.
#[derive(Clone, Copy, Debug, PartialEq, Eq, Structural)]
pub enum StorageError {
    /// `append` was called after the container had been finished.
    AppendAfterFinish,
    /// `finish` was called a second time.
    AlreadyFinished,
}

/// Failure to read a compression level from its textual form.
#[derive(Clone, Copy, Debug, PartialEq, Eq, Structural)]
pub enum CompressionArgError {
    /// The text is not a decimal integer that fits in a `u32`.
    NotInteger,
    /// The integer is outside the accepted range `0..=9`.
    ValueOutOfRange { input: u32 },
}

} // verus!
