//! Planning: searches data for deflate streams, PNGs and JPEGs that can be
//! recreated exactly, and describes it in segments. Streams are taken apart
//! only where putting them together again gives the same bytes; where an
//! attempt fails, the bytes stay as they are.

pub mod attempt;
pub mod candidate;
pub mod format_law;
pub mod law;
pub mod outcome;
pub mod taken_law;

pub use attempt::plan_bytes;
