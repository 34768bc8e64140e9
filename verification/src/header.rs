//! The [`Header`] struct and its associated constants and functions.

use vstd::prelude::*;

verus! {

/// Number of bytes a block header occupies in the heap.
pub const HEADER_SIZE: usize = 8;

/// Alignment of every block header, and so of every block.
pub const HEADER_ALIGN: usize = 8;

/// Stores information about a block: the size of the block contents and
/// whether the block is free or occupied.
///
/// # Tagging
/// To reduce the memory footprint of headers, the block free status is kept
/// in the least significant bit of the `__content_size` field. A tagged
/// header denotes a free block, an untagged header an occupied block.
///
/// Tagging is lossless because the content size of every block is even:
/// block contents are at least 2-byte aligned.
#[derive(Copy, Clone, Debug, PartialEq, Eq, Structural)]
pub struct Header {
    /// Because of tagging this value does not always equal the size of the
    /// block content. To read the real content size use
    /// [`content_size()`](Header::content_size).
    pub __content_size: usize,
}

impl Header {
    /// The content size stored in the header, with the tag bit masked out.
    pub open spec fn spec_content_size(self) -> int {
        self.__content_size - (self.__content_size % 2)
    }

    /// Whether the tag bit is set, i.e. whether the block is free.
    pub open spec fn spec_is_tagged(self) -> bool {
        self.__content_size % 2 == 1
    }

    /// Creates a new header for a block with the given content size and free
    /// status. The content size must be even, so that the tag bit is free.
    pub fn new_unchecked(content_size: usize, is_free: bool) -> (h: Header)
        requires
            content_size % 2 == 0,
        ensures
            h.spec_content_size() == content_size,
            h.spec_is_tagged() == is_free,
    {
        match is_free {
            true => (Header { __content_size: content_size }).tagged(),
            false => Header { __content_size: content_size },
        }
    }

    /// Returns a tagged version of the header.
    pub fn tagged(&self) -> (h: Header)
        ensures
            h.spec_content_size() == self.spec_content_size(),
            h.spec_is_tagged(),
    {
        let x = self.__content_size;
        proof {
            assert(x | 1 == x + 1 - (x % 2)) by (bit_vector);
        }
        Header { __content_size: x | 1 }
    }

    /// Returns an untagged version of the header.
    pub fn untagged(&self) -> (h: Header)
        ensures
            h.spec_content_size() == self.spec_content_size(),
            !h.spec_is_tagged(),
    {
        let x = self.__content_size;
        proof {
            assert(x & !1 == x - (x % 2)) by (bit_vector);
        }
        Header { __content_size: x & !1 }
    }

    /// Returns whether the header is tagged.
    pub fn is_tagged(&self) -> (b: bool)
        ensures
            b == self.spec_is_tagged(),
    {
        let x = self.__content_size;
        proof {
            assert((x & 1 != 0) == (x % 2 == 1)) by (bit_vector);
        }
        x & 1 != 0
    }

    /// Returns the size of the block contents.
    pub fn content_size(&self) -> (s: usize)
        ensures
            s == self.spec_content_size(),
    {
        self.untagged().__content_size
    }
}

} // verus!
