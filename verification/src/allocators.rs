//! The allocators exported by this crate.

pub use self::raw_malloc::RawMalloc;

pub mod raw_malloc;
