//! Rendering: turns segments and channels back into bytes.

pub mod filter;
pub mod filter_law;
pub mod render;
pub mod render_law;
pub mod shift;

pub use filter::{refilter, unfilter};
pub use render::render_segs;
