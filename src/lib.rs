//! Background prefetch pipeline of an image browser: the policy that picks
//! which directory indices stay resident, the cache that reconciles that
//! choice with loaded and in-flight images, and the per-image rating store.

pub mod errors;
pub mod image;
pub mod index_map;
pub mod names;
pub mod policy;
pub mod rating;
pub mod session;
