//! Raster-editing core for a pixel-art drawing application.
//!
//! The crate provides a mutable RGBA pixel surface, pixel-exact drawing and
//! selection tools, a dirty-region tracker for partial redraw, an on-demand
//! renderer byte store, and snapshot-based undo/redo history. Every operation
//! carries a contract describing exactly which pixels it reads and writes.

pub mod color;
pub mod dirty_region;
pub mod history;
pub mod pixel_buffer;
pub mod renderer;
pub mod select_tools;
pub mod selection;
pub mod tools;
