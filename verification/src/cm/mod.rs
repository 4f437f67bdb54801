//! A context-mixing compressor: every bit is predicted from many contexts at
//! once, the predictions are mixed under weights that learn, and the bit is
//! coded under what comes out. All of it is integer arithmetic, so a stream is
//! the same on every machine.

pub mod apm;
pub mod codec;
pub mod coder;
pub mod config;
pub mod context_law;
pub mod counter;
pub mod history;
pub mod isse;
pub mod law;
pub mod learning_law;
pub mod matcher;
pub mod memory_law;
pub mod mixer;
pub mod model;
pub mod slots;
pub mod squash;
pub mod states;
pub mod stream_law;
pub mod stride;
mod tables;
pub mod transform;
pub mod transform_law;

pub use codec::{
    compress, compress_ticking, compress_with_stride, decompress, decompress_ticking,
};
pub use config::{model_mem_bytes, CmConfig};
pub use states::{build_states, StateTable};
pub use transform::e8e9_apply;
