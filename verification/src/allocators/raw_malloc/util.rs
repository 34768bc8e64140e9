//! Utility functions specific to the [`RawMalloc`](super::RawMalloc)
//! allocator.

use crate::header::HEADER_SIZE;
use crate::util::{checked_add, find_aligned, is_pow2, spec_align_up};
use super::model::valid_prefix;
use super::{BLOCK_CONTENT_MIN_ALIGN, BLOCK_CONTENT_MIN_SIZE, BLOCK_MIN_SIZE};
use vstd::arithmetic::div_mod::lemma_fundamental_div_mod;
use vstd::prelude::*;

verus! {

/// The augmented size of an allocation request: the smallest multiple of the
/// header size that is at least the request and at least the minimum block
/// content size.
pub open spec fn spec_augmented(size: int) -> int {
    spec_align_up(
        if size < BLOCK_CONTENT_MIN_SIZE {
            BLOCK_CONTENT_MIN_SIZE as int
        } else {
            size
        },
        HEADER_SIZE as int,
    )
}

/// Returns the smallest integer `z` such that `z >= x` and `z` is a multiple
/// of `y`, or `None` if that integer cannot be contained in a `usize`.
pub fn find_divisible(x: usize, y: usize) -> (r: Option<usize>)
    requires
        y > 0,
    ensures
        match r {
            Some(z) => z == spec_align_up(x as int, y as int) && z % y == 0 && x <= z < x + y,
            None => spec_align_up(x as int, y as int) > usize::MAX,
        },
{
    proof {
        crate::util::lemma_align_up(x as int, y as int);
        lemma_fundamental_div_mod(x as int, y as int);
    }
    if x % y == 0 {
        Some(x)
    } else {
        proof {
            assert((x as int / y as int) * y == x - x % y);
        }
        let z = (x / y) * y;
        checked_add(z, y)
    }
}

/// Augments `size` to a size that can be used for an allocation, or returns
/// `Err(())` if the size cannot be augmented: the augmented size of a request
/// must not exceed half the address space, because object pointer arithmetic
/// is done in signed form.
pub fn augment_size(size: usize) -> (r: Result<usize, ()>)
    ensures
        match r {
            Ok(s) => s == spec_augmented(size as int) && s <= usize::MAX / 2,
            Err(()) => spec_augmented(size as int) > usize::MAX / 2,
        },
{
    let x = if size < BLOCK_CONTENT_MIN_SIZE {
        BLOCK_CONTENT_MIN_SIZE
    } else {
        size
    };
    match find_divisible(x, HEADER_SIZE) {
        Some(s) if s <= usize::MAX / 2 => Ok(s),
        _ => Err(()),
    }
}

/// Augments `(size, align)` to a layout that can be used by the allocator,
/// or returns `Err(())` if the layout cannot be augmented. The alignment is
/// raised to the minimum content alignment; the size is augmented as in
/// [`augment_size`].
pub fn augment_layout(size: usize, align: usize) -> (r: Result<(usize, usize), ()>)
    ensures
        match r {
            Ok((s, a)) => s == spec_augmented(size as int) && s <= usize::MAX / 2 && a == (
            if align < BLOCK_CONTENT_MIN_ALIGN {
                BLOCK_CONTENT_MIN_ALIGN
            } else {
                align
            }),
            Err(()) => spec_augmented(size as int) > usize::MAX / 2,
        },
{
    let obj_align = if align < BLOCK_CONTENT_MIN_ALIGN {
        BLOCK_CONTENT_MIN_ALIGN
    } else {
        align
    };
    match augment_size(size) {
        Ok(obj_size) => Ok((obj_size, obj_align)),
        Err(()) => Err(()),
    }
}

/// The remaining search room before a prefix distance of
/// `HEADER_SIZE + BLOCK_MIN_SIZE` is reached, used as a termination measure.
pub open spec fn place_search_room(block_start: int, obj: int) -> int {
    if block_start + HEADER_SIZE + BLOCK_MIN_SIZE - obj >= 0 {
        block_start + HEADER_SIZE + BLOCK_MIN_SIZE - obj
    } else {
        0
    }
}

/// Returns the smallest `obj_align`-aligned address at or after
/// `block_start` whose gap to `block_start` is either [`HEADER_SIZE`] or at
/// least [`HEADER_SIZE`]` + `[`BLOCK_MIN_SIZE`], or `None` if no such
/// address exists.
pub fn find_place(block_start: usize, obj_align: usize) -> (r: Option<usize>)
    requires
        is_pow2(obj_align as int),
    ensures
        match r {
            Some(q) => q % obj_align == 0 && block_start <= q && valid_prefix(
                q - block_start,
            ) && (forall|x: usize|
                block_start <= x < q && #[trigger] (x % obj_align) == 0 ==> !valid_prefix(
                    x - block_start,
                )),
            None => forall|x: usize|
                block_start <= x && #[trigger] (x % obj_align) == 0 ==> !valid_prefix(
                    x - block_start,
                ),
        },
{
    let mut obj = block_start;
    loop
        invariant
            is_pow2(obj_align as int),
            block_start <= obj,
            obj > block_start ==> obj % obj_align == 0,
            forall|x: usize|
                block_start <= x < obj && #[trigger] (x % obj_align) == 0 ==> !valid_prefix(
                    x - block_start,
                ),
        decreases place_search_room(block_start as int, obj as int),
    {
        let dist = obj - block_start;
        if dist == HEADER_SIZE || dist >= HEADER_SIZE + BLOCK_MIN_SIZE {
            proof {
                if obj == block_start {
                    assert(!valid_prefix(0));
                }
            }
            return Some(obj);
        }
        if obj == usize::MAX {
            return None;
        }
        let next = match find_aligned(obj + 1, obj_align) {
            Some(q) => q,
            None => {
                proof {
                    assert forall|x: usize|
                        block_start <= x && #[trigger] (x % obj_align) == 0 implies !valid_prefix(
                        x - block_start,
                    ) by {
                        if x > obj {
                            assert(x >= obj + 1 && x % obj_align == 0);
                        }
                    }
                }
                return None;
            },
        };
        proof {
            assert forall|x: usize|
                block_start <= x < next && #[trigger] (x % obj_align) == 0 implies !valid_prefix(
                x - block_start,
            ) by {
                if x > obj {
                    assert(x >= obj + 1 && x < next && x % obj_align == 0);
                }
            }
        }
        obj = next;
    }
}

} // verus!
