//! The [`Grower`] trait and structures that implement it.
//!
//! The [`Grower`] trait lets users change the backing buffer on which the
//! allocators in [`allocators`](crate::allocators) operate. A grower stands
//! for a one-way growable contiguous buffer: it hands out address ranges,
//! never takes them back, and `grow(0)` probes the current end without
//! growing. Growers that speak to the operating system live outside the
//! verified core; the [`ArenaGrower`] below manages a caller-provided
//! address range and is verified against the same contract.

use crate::util::checked_add;
use vstd::prelude::*;

verus! {

/// A type that acts as a contiguous growable buffer of addresses.
pub trait Grower: Sized {
    /// The current end address of the buffer.
    spec fn end(&self) -> usize;

    /// Grows the underlying buffer by at least `size` bytes.
    /// Returns the old end of the buffer and the size of the growth,
    /// or `Err(())` if the growth failed.
    ///
    /// Growing by zero bytes must not grow the buffer: it only reports the
    /// current end. A failed growth must leave the buffer as it was.
    fn grow(&mut self, size: usize) -> (r: Result<(usize, usize), ()>)
        ensures
            r.is_err() ==> final(self).end() == old(self).end(),
            size == 0 && r.is_ok() ==> r.unwrap() == (old(self).end(), 0usize) && final(self).end()
                == old(self).end(),
            size > 0 && r.is_ok() ==> r.unwrap().0 == old(self).end() && r.unwrap().1 >= size
                && final(self).end() == old(self).end() + r.unwrap().1,
    ;
}

/// A grower that manages a fixed arena: a caller-chosen address range that
/// cannot move and cannot grow past its end.
pub struct ArenaGrower {
    heap_end: usize,
    arena_end: usize,
    min_increment: usize,
}

impl ArenaGrower {
    /// The end of the arena: the grower never grows past this address.
    pub closed spec fn arena_end(&self) -> usize {
        self.arena_end
    }

    /// The granularity of growth: every nonzero request is rounded up to
    /// this many bytes.
    pub closed spec fn min_increment(&self) -> usize {
        self.min_increment
    }

    /// Creates a grower over the arena of `size` bytes starting at `base`.
    /// Growth requests are rounded up to `min_increment` bytes.
    pub fn new(base: usize, size: usize, min_increment: usize) -> (r: Self)
        requires
            base + size <= usize::MAX,
        ensures
            r.end() == base,
            r.arena_end() == base + size,
            r.min_increment() == min_increment,
    {
        ArenaGrower { heap_end: base, arena_end: base + size, min_increment }
    }
}

impl Grower for ArenaGrower {
    closed spec fn end(&self) -> usize {
        self.heap_end
    }

    /// Grows by exactly the request rounded up to the minimum increment,
    /// and fails exactly when that amount does not fit in the arena.
    fn grow(&mut self, size: usize) -> (r: Result<(usize, usize), ()>)
        ensures
            final(self).arena_end() == old(self).arena_end(),
            final(self).min_increment() == old(self).min_increment(),
            ({
                let rounded: int = if size >= old(self).min_increment() {
                    size as int
                } else {
                    old(self).min_increment() as int
                };
                &&& (size == 0 ==> r == Ok::<(usize, usize), ()>((old(self).end(), 0usize)))
                &&& (size > 0 && old(self).end() + rounded <= old(self).arena_end() ==> r
                    == Ok::<(usize, usize), ()>((old(self).end(), rounded as usize))
                    && final(self).end() == old(self).end() + rounded)
                &&& (size > 0 && old(self).end() + rounded > old(self).arena_end() ==> r
                    == Err::<(usize, usize), ()>(()) && final(self).end() == old(self).end())
            }),
    {
        let heap_end = self.heap_end;
        if size == 0 {
            return Ok((heap_end, 0));
        }
        let size = if size < self.min_increment {
            self.min_increment
        } else {
            size
        };
        let new_heap_end = match checked_add(heap_end, size) {
            Some(p) => p,
            None => {
                return Err(());
            },
        };
        if new_heap_end > self.arena_end {
            return Err(());
        }
        self.heap_end = new_heap_end;
        Ok((heap_end, size))
    }
}

} // verus!
