//! A frame-cache registry for a rendering pipeline: it owns every per-source
//! decoded-frame cache, split into a `transparent` and an `opaque` partition,
//! answers how much memory is held across all of them, and evicts the globally
//! least-recently-used frames until usage falls under a caller-supplied budget.

pub mod frame_cache;
pub mod laws;
pub mod manager;
pub mod reference;

pub use frame_cache::CachedFrame;
pub use frame_cache::FrameCache;
pub use manager::make_frame_cache_manager;
pub use manager::CacheError;
pub use manager::FrameCacheManager;
pub use reference::FrameCacheReference;
