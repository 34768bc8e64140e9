//! A simple first-fit memory allocator, modelled and verified.
//!
//! The allocator manages a single contiguous, monotonically growable heap.
//! The heap is partitioned, without gaps, into blocks: a one-word header
//! followed by the block's content. Free blocks are threaded on an intrusive
//! doubly-linked free list. Allocation scans the free list first-fit, merging
//! adjacent free blocks on the way; when no free block fits, the heap is
//! extended through a pluggable [`Grower`].
//!
//! The heap itself is modelled with plain values: addresses are `usize`,
//! payload bytes live in a byte vector, and each block's header word is kept
//! beside them. The model lets every placement, split and merge decision be
//! stated and proved, while growers that speak to the operating system stay
//! outside the verified core behind the [`Grower`] contract.
//!
//! [`Grower`]: growers::Grower

pub use crate::allocators::RawMalloc;

pub mod allocators;
pub mod freelist;
pub mod growers;
pub mod header;
pub mod util;
