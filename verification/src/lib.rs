//! Allocators for constrained, allocator-aware environments.
//!
//! The crate provides a chunked bump ("arena") allocator with a
//! destructor-running and a destructor-free specialization, a slab
//! allocator with stable integer handles and free-list reuse, a fixed
//! single-buffer bump allocator, and a bitmap.  Every allocation is
//! identified by a plain integer address into the arena's unit-address
//! space, so all cursor, growth, reuse and teardown rules are stated as
//! contracts and proved.

pub mod arena;
pub mod bitmap;
pub mod fixed;
pub mod layout;
pub mod leak;
pub mod once;
pub mod scoped;
pub mod slab;
