//! Verified core of a render-to-texture cache for retained-mode UIs.

pub mod blur;
pub mod chip;
pub mod filter;
pub mod pixels;
pub mod record;
pub mod renderer;
pub mod size;
pub mod snap;
pub mod store;
pub mod surface;
pub mod switch;
pub mod texture_cache;
pub mod warp;
