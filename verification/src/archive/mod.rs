//! The archive: packing, reading, extracting, checking and listing.
//!
//! ```text
//! [8 bytes magic "DNZA" 1]
//! [payloads of the channels: plain, corrections, filters, lepton, blobs...]
//! [table of contents, zstd-compressed]
//! [u64 offset of the table][u64 length of the table][8 bytes "DNZENDv1"]
//! ```

pub mod budget;
pub mod content;
pub mod create;
pub mod law;
pub mod open;
pub mod order;
pub mod output;
pub mod owed_law;
pub mod pack;
pub mod pack_law;
pub mod report;
pub mod rules_law;
pub mod stage;
pub mod toc;
pub mod toc_law;

pub use create::{pack, pack_flagged, Source};
pub use open::{read_archive, Archive};
pub use output::extract;
pub use report::list;
pub use toc::Entry;
