//! Variable-length numbers, reading and checksums.

pub mod bytes;
pub mod checksum;
pub mod law;
pub mod memory;
pub mod reader;
pub mod text;
pub mod varint;

pub use checksum::{adler32, xxh3};
pub use memory::available_ram_bytes;
pub use reader::Reader;
pub use text::human;
pub use varint::write_varint;
