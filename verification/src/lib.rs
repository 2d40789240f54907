//! Verified core of the universe engine: Morton keys, quantized force keys
//! and their cache, the shape of the Barnes-Hut octree, the universe's
//! bookkeeping and the moiré engine's lattice.
pub mod force_cache;
pub mod force_key;
pub mod moire;
pub mod morton;
pub mod octree;
pub mod universe;

pub use force_cache::ForceCache;
pub use moire::MoireEngine;
pub use morton::{morton_key_3d, spread_bits_10};
pub use octree::{OctNode, Octree, Placement};
pub use universe::{ForceMode, Universe};
