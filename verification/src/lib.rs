//! A region-based memory allocator.
//!
//! An [`arena::Arena`] hands out correctly aligned byte regions from a growing
//! list of fixed-capacity [`bucket::Bucket`]s. Nothing is ever freed one region
//! at a time: all storage goes back to the system when the arena is dropped.
pub mod arena;
pub mod bucket;
pub mod history;
pub mod layout;
pub mod region;
