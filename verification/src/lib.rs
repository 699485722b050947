//! VexFS core library: on-disk formats, metadata index, caches and the
//! access-pattern memory, with their contracts proved by Verus.
pub mod codec;
pub mod fs;
pub mod cache;
pub mod clock;
pub mod allocator;
pub mod walk;
pub mod text;
pub mod ai;
pub mod web;
pub mod http;
pub mod tree;
pub mod diff;
pub mod pattern;
