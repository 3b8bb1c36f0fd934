//! A falling-sand simulation engine: an occupancy grid kept in step with a
//! list of grains, a disc spawner, a one-cell-per-frame gravity step that is
//! confined to an active region, and a drain along the bottom edge; plus the
//! pixel-buffer helpers that present it.

pub mod render;
pub mod sim;
