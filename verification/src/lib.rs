//! Exhaustive enumeration of fixed-length, non-repeating melodies over a
//! finite note pool: rank-based unranking, successor stepping, tiling of
//! the rank space into partitions for independent workers, four archive
//! storage strategies behind one append/finish capability, and exact or
//! sampling-based size estimation. Archive framing and compression go
//! through the tar and flate2 crates behind trusted wrappers; everything
//! else is verified against the contracts stated here.

pub mod counting;
pub mod engine;
pub mod errors;
pub mod estimate;
pub mod gen;
pub mod names;
pub mod partition;
pub mod storage;
