//! Dense Zip: an archiver that makes small archives.
//!
//! Files are scanned for compressed streams, which are taken apart so that what
//! was compressed in them can be compressed again, better. What was found is a
//! plan, and rendering the plan gives back the file. The payload of all plans
//! goes into channels, and each channel to the backend that makes the least of
//! it.

pub mod archive;
pub mod backends;
pub mod channel_law;
pub mod channels;
pub mod cm;
pub mod error;
pub mod outside;
pub mod plan;
pub mod progress;
pub mod race_law;
pub mod rebuild;
pub mod refusal;
pub mod scan;
pub mod update;
pub mod util;
