//! Verified core of the PDF reader's Android front end: the byte-budgeted
//! caches (rendered pages, overlay textures), the invalidation key of the
//! persistent page layer, the raster primitives that paint ink and blit
//! bitmaps into window buffers, the Discover feed cache keys and planning,
//! and the small text helpers of the UI.

pub mod annotations;
pub mod bitmap;
pub mod discover;
pub mod dry_key;
pub mod ovl_budget;
pub mod page_cache;
pub mod pixels;
pub mod raster;
pub mod strings;
pub mod text;
pub mod textures;
