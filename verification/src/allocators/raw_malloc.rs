//! A single-threaded memory allocator.
//!
//! For a general view of the allocator's operational semantics see the
//! [`crate`] level documentation.
//!
//! # Object requirements and layout augmentation
//! Many of the private functions assume that their parameters adhere to the
//! allocator's "object requirements": the heap is divided into blocks, all of
//! which have [`HEADER_ALIGN`] alignment and a content size that is a
//! multiple of [`HEADER_SIZE`] and at least [`BLOCK_CONTENT_MIN_SIZE`]. To
//! conform to these requirements the allocator adjusts the parameters passed
//! to its public operations. This is called layout augmentation and is done
//! by the [`util::augment_layout`] and [`util::augment_size`] functions.
//!
//! # The heap model
//! The heap is modelled with plain values: `base` is the address of the first
//! byte the allocator owns, `mem` holds the heap bytes from `base`, and
//! `hdrs` holds one header cell per [`HEADER_SIZE`] bytes of heap, of which
//! the cell at a block's start is that block's header word. The ghost
//! sequence `blocks` lists the blocks that partition the heap; the state
//! invariant [`RawMalloc::wf`] ties it to the header cells and the free
//! list, and is preserved by every operation.

use crate::freelist::{Freelist, NODE_ALIGN, NODE_SIZE};
use crate::growers::Grower;
use crate::header::{Header, HEADER_ALIGN, HEADER_SIZE};
use self::model::{
    can_place_at, free_block_of, free_node_idx, free_run_end, is_free_node, lemma_contains_push,
    lemma_free_node_unique, lemma_free_run_end_absorb, lemma_free_run_end_bounds,
    lemma_free_run_end_shifted, lemma_free_run_end_inside, lemma_free_run_end_prefix_eq,
    lemma_placeable_superset,
    lemma_suffix_order_remove,
    lemma_placed_blocks, lemma_placed_blocks_len, lemma_splice_index, lemma_suffix_len_remove,
    lemma_tiles_block_in_range, lemma_tiles_bounds, lemma_tiles_concat, lemma_tiles_disjoint, lemma_tiles_splice, place_ok, placeable,
    placed_blocks, placed_obj_idx, suffix_len, tiles, valid_prefix, Block,
};
use self::util::{augment_layout, augment_size, find_place, spec_augmented};
use crate::util::{checked_add, is_pow2};
use vstd::prelude::*;

pub mod model;
pub mod util;

verus! {

/// The smallest content size a block can have: a free block's content must
/// hold a free-list node.
pub const BLOCK_CONTENT_MIN_SIZE: usize = NODE_SIZE;

/// The smallest alignment a block's content can have.
pub const BLOCK_CONTENT_MIN_ALIGN: usize = NODE_ALIGN;

/// The smallest size a whole block can have.
pub const BLOCK_MIN_SIZE: usize = HEADER_SIZE + BLOCK_CONTENT_MIN_SIZE;

/// Header tagging requires block contents to be at least 2-byte aligned, and
/// a free-list node must fit wherever a header does.
pub proof fn lemma_block_constants_support_tagging()
    ensures
        BLOCK_CONTENT_MIN_ALIGN >= 2,
        NODE_ALIGN <= HEADER_ALIGN,
{
}

/// A single-threaded memory allocator over a modelled heap.
pub struct RawMalloc<T: Grower> {
    freelist: Freelist,
    grower: T,
    base: usize,
    mem: Vec<u8>,
    hdrs: Vec<Header>,
    blocks: Ghost<Seq<Block>>,
}

impl<T: Grower> RawMalloc<T> {
    /// The blocks that currently partition the heap.
    pub closed spec fn block_seq(&self) -> Seq<Block> {
        self.blocks@
    }

    /// The lowest address of the heap.
    pub closed spec fn heap_lo(&self) -> int {
        self.base as int
    }

    /// The address one past the heap: every block lies in
    /// `[heap_lo(), heap_hi())`.
    pub closed spec fn heap_hi(&self) -> int {
        self.base + self.mem@.len()
    }

    /// The heap bytes, indexed from `heap_lo()`.
    pub closed spec fn heap_bytes(&self) -> Seq<u8> {
        self.mem@
    }

    /// The byte stored at heap address `a`.
    pub open spec fn byte_at(&self, a: int) -> u8 {
        self.heap_bytes()[a - self.heap_lo()]
    }

    /// The node addresses on the free list.
    pub closed spec fn fl(&self) -> Seq<usize> {
        self.freelist@
    }

    /// The grower the allocator draws its memory from.
    pub closed spec fn grower_of(&self) -> T {
        self.grower
    }

    /// Whether block `i` is an occupied block whose content starts at `p`.
    pub open spec fn obj_at(&self, p: usize, i: int) -> bool {
        &&& 0 <= i < self.block_seq().len()
        &&& !self.block_seq()[i].free
        &&& self.block_seq()[i].content() == p
    }

    /// Whether `p` is the address of some occupied block's content, i.e. an
    /// object the allocator has handed out.
    pub open spec fn is_obj(&self, p: usize) -> bool {
        exists|i: int| self.obj_at(p, i)
    }

    /// The index of the occupied block whose content starts at `p`.
    pub open spec fn obj_idx(&self, p: usize) -> int {
        choose|i: int| self.obj_at(p, i)
    }

    /// The content size of the occupied block whose content starts at `p`.
    pub open spec fn obj_size(&self, p: usize) -> int {
        self.block_seq()[self.obj_idx(p)].size
    }

    /// The bookkeeping cells are consistent: the base is header-aligned, the
    /// owned range fits in the address space, and there is one header cell
    /// per header-size granule of heap.
    pub closed spec fn cells_ok(&self) -> bool {
        &&& self.base % HEADER_ALIGN == 0
        &&& self.base + self.mem@.len() <= usize::MAX
        &&& self.mem@.len() == HEADER_SIZE * self.hdrs@.len()
    }

    /// Each block's header cell holds the block's content size, with the
    /// tag bit reflecting whether the block is free.
    #[verifier::opaque]
    pub closed spec fn cells_match(&self) -> bool {
        let bs = self.blocks@;
        forall|i: int|
            0 <= i < bs.len() ==> {
                let b = #[trigger] bs[i];
                let k = (b.start - self.base) / (HEADER_SIZE as int);
                &&& 0 <= k < self.hdrs@.len()
                &&& self.hdrs@[k].spec_content_size() == b.size
                &&& self.hdrs@[k].spec_is_tagged() == b.free
            }
    }

    /// The free list holds the content address of every free block, and of
    /// nothing else.
    #[verifier::opaque]
    pub closed spec fn fl_matches(&self) -> bool {
        let bs = self.blocks@;
        &&& (forall|i: int|
            0 <= i < bs.len() && (#[trigger] bs[i]).free ==> self.freelist@.contains(
                (bs[i].start + HEADER_SIZE) as usize,
            ))
        &&& (forall|j: int|
            0 <= j < self.freelist@.len() ==> is_free_node(bs, #[trigger] self.freelist@[j]))
    }

    /// The grower's buffer ends at the heap end, except that up to one
    /// header's worth of granted bytes beyond the last whole header-granule
    /// may remain unused.
    #[verifier::opaque]
    pub closed spec fn coupled(&self) -> bool {
        self.mem@.len() > 0 ==> self.base + self.mem@.len() <= self.grower.end() < self.base
            + self.mem@.len() + HEADER_SIZE
    }

    /// The state invariant of the allocator.
    ///
    /// The blocks partition the owned heap `[heap_lo(), heap_hi())` without
    /// gaps; each block's header cell matches the block; the free list is
    /// well-formed and holds exactly the content addresses of the free
    /// blocks; and the grower ends at the heap end.
    pub closed spec fn wf(&self) -> bool {
        &&& self.cells_ok()
        &&& tiles(self.blocks@, self.base as int, self.base + self.mem@.len())
        &&& self.cells_match()
        &&& self.freelist.wf()
        &&& self.fl_matches()
        &&& self.coupled()
    }

    /// Creates an allocator instance with the specified grower. The heap
    /// starts empty: no blocks exist and the free list is empty.
    pub fn with_grower(grower: T) -> (r: Self)
        ensures
            r.wf(),
            r.block_seq() == Seq::<Block>::empty(),
            r.fl() == Seq::<usize>::empty(),
            r.heap_lo() == r.heap_hi(),
            r.grower_of() == grower,
    {
        proof {
            reveal(RawMalloc::cells_match);
        reveal(RawMalloc::fl_matches);
        reveal(RawMalloc::coupled);
        }
        RawMalloc {
            freelist: Freelist::new(),
            grower,
            base: 0,
            mem: Vec::new(),
            hdrs: Vec::new(),
            blocks: Ghost(Seq::empty()),
        }
    }

    /// Every block of a well-formed heap starts at a header-aligned address
    /// and has an even content size of at least [`BLOCK_CONTENT_MIN_SIZE`]
    /// that is a multiple of [`HEADER_SIZE`].
    pub proof fn lemma_blocks_well_formed(&self)
        requires
            self.wf(),
        ensures
            forall|i: int|
                0 <= i < self.block_seq().len() ==> {
                    let b = #[trigger] self.block_seq()[i];
                    &&& b.start % (HEADER_ALIGN as int) == 0
                    &&& b.size % 2 == 0
                    &&& b.size % (HEADER_SIZE as int) == 0
                    &&& b.size >= BLOCK_CONTENT_MIN_SIZE
                },
    {
        reveal(RawMalloc::cells_match);
        reveal(RawMalloc::fl_matches);
        reveal(RawMalloc::coupled);
        assert forall|i: int| 0 <= i < self.block_seq().len() implies {
            let b = #[trigger] self.block_seq()[i];
            &&& b.start % (HEADER_ALIGN as int) == 0
            &&& b.size % 2 == 0
            &&& b.size % (HEADER_SIZE as int) == 0
            &&& b.size >= BLOCK_CONTENT_MIN_SIZE
        } by {
            let b = self.block_seq()[i];
            assert(b.wf());
            assert(b.size % 2 == 0) by {
                crate::util::lemma_mod_divides_trans(b.size, 2, HEADER_SIZE as int);
            }
        }
    }

    /// Walking the blocks from the heap base, each step advancing by the
    /// block's header size plus its content size, covers exactly the owned
    /// heap and reaches exactly the current heap end.
    pub proof fn lemma_blocks_tile_heap(&self)
        requires
            self.wf(),
        ensures
            tiles(self.block_seq(), self.heap_lo(), self.heap_hi()),
            self.block_seq().len() > 0 ==> self.block_seq()[0].start == self.heap_lo()
                && self.block_seq()[self.block_seq().len() - 1].end() == self.heap_hi(),
            forall|i: int|
                0 <= i < self.block_seq().len() - 1 ==> (#[trigger] self.block_seq()[i]).end()
                    == self.block_seq()[i + 1].start,
    {
        reveal(RawMalloc::cells_match);
        reveal(RawMalloc::fl_matches);
        reveal(RawMalloc::coupled);
    }

    /// For header-aligned addresses at or above the base, the cell index
    /// recovers the address.
    proof fn lemma_cell_addr(base: int, addr: int)
        requires
            base % (HEADER_ALIGN as int) == 0,
            addr % (HEADER_ALIGN as int) == 0,
            addr >= base,
        ensures
            base + HEADER_SIZE * ((addr - base) / (HEADER_SIZE as int)) == addr,
    {
        let d = addr - base;
        vstd::arithmetic::div_mod::lemma_sub_mod_noop(addr, base, HEADER_SIZE as int);
        assert(d % (HEADER_SIZE as int) == 0);
        vstd::arithmetic::div_mod::lemma_fundamental_div_mod(d, HEADER_SIZE as int);
    }

    /// An object address determines its block: `obj_idx` is the only block
    /// index whose content starts there.
    pub proof fn lemma_obj_unique(&self, p: usize)
        requires
            self.wf(),
            self.is_obj(p),
        ensures
            self.obj_at(p, self.obj_idx(p)),
            forall|i: int| self.obj_at(p, i) ==> i == self.obj_idx(p),
    {
        reveal(RawMalloc::cells_match);
        reveal(RawMalloc::fl_matches);
        reveal(RawMalloc::coupled);
        lemma_tiles_bounds(self.block_seq(), self.heap_lo(), self.heap_hi());
        let i0 = self.obj_idx(p);
        assert(self.obj_at(p, i0));
        assert forall|i: int| self.obj_at(p, i) implies i == i0 by {
            if i != i0 {
                assert(self.block_seq()[i].start == self.block_seq()[i0].start);
                if i < i0 {
                    lemma_tiles_disjoint(self.block_seq(), self.heap_lo(), self.heap_hi(), i, i0);
                } else {
                    lemma_tiles_disjoint(self.block_seq(), self.heap_lo(), self.heap_hi(), i0, i);
                }
            }
        }
    }

    /// Reads the header of the block at `block_start`.
    fn read_header(&self, block_start: usize, Ghost(i): Ghost<int>) -> (h: Header)
        requires
            self.wf(),
            0 <= i < self.block_seq().len(),
            self.block_seq()[i].start == block_start,
        ensures
            h.spec_content_size() == self.block_seq()[i].size,
            h.spec_is_tagged() == self.block_seq()[i].free,
    {
        proof {
            reveal(RawMalloc::cells_match);
        reveal(RawMalloc::fl_matches);
        reveal(RawMalloc::coupled);
            lemma_tiles_bounds(self.blocks@, self.base as int, self.base + self.mem@.len());
        }
        let k = (block_start - self.base) / HEADER_SIZE;
        self.hdrs[k]
    }

    /// Writes the header word of a block at `block_start`, leaving every
    /// other header cell, and the free list, as they are.
    fn set_header(&mut self, block_start: usize, content_size: usize, is_free: bool)
        requires
            old(self).cells_ok(),
            block_start % HEADER_ALIGN == 0,
            content_size % 2 == 0,
            old(self).heap_lo() <= block_start,
            block_start + HEADER_SIZE <= old(self).heap_hi(),
        ensures
            final(self).cells_ok(),
            final(self).base == old(self).base,
            final(self).mem@ == old(self).mem@,
            final(self).grower == old(self).grower,
            final(self).blocks == old(self).blocks,
            final(self).freelist == old(self).freelist,
            final(self).hdrs@.len() == old(self).hdrs@.len(),
            ({
                let k = (block_start - final(self).base) / (HEADER_SIZE as int);
                &&& 0 <= k < final(self).hdrs@.len()
                &&& final(self).hdrs@[k].spec_content_size() == content_size
                &&& final(self).hdrs@[k].spec_is_tagged() == is_free
                &&& (forall|k2: int|
                    0 <= k2 < final(self).hdrs@.len() && k2 != k ==> #[trigger] final(self).hdrs@[k2] == old(self).hdrs@[k2])
            }),
    {
        proof {
            Self::lemma_cell_addr(self.base as int, block_start as int);
        }
        let h = Header::new_unchecked(content_size, is_free);
        let k = (block_start - self.base) / HEADER_SIZE;
        self.hdrs.set(k, h);
    }

    /// Writes the header of a new block at `block_start` and, for a free
    /// block, links the block's content onto the free list.
    fn create_new_block(&mut self, block_start: usize, content_size: usize, is_free: bool)
        requires
            old(self).cells_ok(),
            old(self).freelist.wf(),
            block_start % HEADER_ALIGN == 0,
            content_size % 2 == 0,
            old(self).heap_lo() <= block_start,
            block_start + HEADER_SIZE <= old(self).heap_hi(),
            is_free ==> !old(self).freelist@.contains((block_start + HEADER_SIZE) as usize),
        ensures
            final(self).cells_ok(),
            final(self).base == old(self).base,
            final(self).mem@ == old(self).mem@,
            final(self).grower == old(self).grower,
            final(self).blocks == old(self).blocks,
            final(self).hdrs@.len() == old(self).hdrs@.len(),
            final(self).freelist.wf(),
            final(self).freelist@ == (if is_free {
                seq![(block_start + HEADER_SIZE) as usize] + old(self).freelist@
            } else {
                old(self).freelist@
            }),
            ({
                let k = (block_start - final(self).base) / (HEADER_SIZE as int);
                &&& 0 <= k < final(self).hdrs@.len()
                &&& final(self).hdrs@[k].spec_content_size() == content_size
                &&& final(self).hdrs@[k].spec_is_tagged() == is_free
                &&& (forall|k2: int|
                    0 <= k2 < final(self).hdrs@.len() && k2 != k ==> #[trigger] final(self).hdrs@[k2] == old(self).hdrs@[k2])
            }),
    {
        self.set_header(block_start, content_size, is_free);
        if is_free {
            self.freelist.push_front(block_start + HEADER_SIZE);
        }
    }

    /// Places an object of `obj_size` bytes at `obj_start`, rewriting the
    /// range `[block_start, block_end)` into at most three consecutive
    /// blocks: an optional free left-padding block, the occupied object
    /// block, and an optional free right-padding block. Leftover tail bytes
    /// too few for a block are absorbed into the object. The ghost block
    /// sequence is left to the caller to splice.
    ///
    /// This function does not touch the bytes of the object's content, which
    /// is what makes it usable for shrinking an object in place.
    #[verifier::rlimit(100)]
    #[verifier::spinoff_prover]
    fn place_raw(&mut self, block_start: usize, block_end: usize, obj_start: usize, obj_size: usize)
        requires
            old(self).cells_ok(),
            old(self).freelist.wf(),
            place_ok(block_start as int, block_end as int, obj_start as int, obj_size as int),
            old(self).heap_lo() <= block_start,
            block_end <= old(self).heap_hi(),
            forall|j: int|
                0 <= j < old(self).freelist@.len() ==> !(block_start
                    < #[trigger] old(self).freelist@[j] && old(self).freelist@[j] <= block_end),
        ensures
            final(self).cells_ok(),
            final(self).base == old(self).base,
            final(self).mem@ == old(self).mem@,
            final(self).grower == old(self).grower,
            final(self).blocks == old(self).blocks,
            final(self).hdrs@.len() == old(self).hdrs@.len(),
            final(self).freelist.wf(),
            forall|k: int|
                0 <= k < final(self).hdrs@.len() && !(block_start <= old(self).base + HEADER_SIZE * k
                    < block_end) ==> #[trigger] final(self).hdrs@[k] == old(self).hdrs@[k],
            ({
                let pb = placed_blocks(
                    block_start as int,
                    block_end as int,
                    obj_start as int,
                    obj_size as int,
                );
                &&& (forall|j: int|
                    0 <= j < pb.len() ==> {
                        let bl = #[trigger] pb[j];
                        let k = (bl.start - final(self).base) / (HEADER_SIZE as int);
                        &&& 0 <= k < final(self).hdrs@.len()
                        &&& final(self).hdrs@[k].spec_content_size() == bl.size
                        &&& final(self).hdrs@[k].spec_is_tagged() == bl.free
                    })
                &&& (forall|a: usize|
                    #[trigger] final(self).freelist@.contains(a) <==> (old(self).freelist@.contains(a)
                        || is_free_node(pb, a)))
            }),
    {
        let ghost pb = placed_blocks(
            block_start as int,
            block_end as int,
            obj_start as int,
            obj_size as int,
        );
        let ghost oi = placed_obj_idx(block_start as int, obj_start as int);
        let ghost base = old(self).base as int;
        let ghost lnode = (block_start + HEADER_SIZE) as usize;
        let ghost rnode_i: int = obj_start + obj_size + HEADER_SIZE;
        proof {
            reveal(placed_blocks);
            lemma_placed_blocks(
                block_start as int,
                block_end as int,
                obj_start as int,
                obj_size as int,
            );
            Self::lemma_cell_addr(base, block_start as int);
            Self::lemma_cell_addr(base, obj_start - HEADER_SIZE);
            Self::lemma_cell_addr(base, obj_start + obj_size);
            crate::util::lemma_mod_divides_trans(
                (block_end - obj_start) as int,
                2,
                HEADER_SIZE as int,
            );
            crate::util::lemma_mod_divides_trans(obj_size as int, 2, HEADER_SIZE as int);
            crate::util::lemma_mod_divides_trans((obj_start - block_start - 2 * HEADER_SIZE), 2, HEADER_SIZE as int);
            assert(block_start + HEADER_SIZE <= obj_start <= block_end);
            if old(self).freelist@.contains(lnode) {
                let j = choose|j: int|
                    0 <= j < old(self).freelist@.len() && old(self).freelist@[j] == lnode;
                assert(block_start < old(self).freelist@[j] && old(self).freelist@[j]
                    <= block_end);
                assert(false);
            }
            if block_end - (obj_start + obj_size) >= BLOCK_MIN_SIZE {
                let rnode = (obj_start + obj_size + HEADER_SIZE) as usize;
                assert(rnode == rnode_i);
                if old(self).freelist@.contains(rnode) {
                    let j = choose|j: int|
                        0 <= j < old(self).freelist@.len() && old(self).freelist@[j] == rnode;
                    assert(block_start < old(self).freelist@[j] && old(self).freelist@[j]
                        <= block_end);
                    assert(false);
                }
            }
        }
        let ghost s0 = *self;
        let mut bstart = block_start;
        let mut osize = obj_size;
        let dist = obj_start - block_start;
        if dist != HEADER_SIZE {
            let padding_content = dist - 2 * HEADER_SIZE;
            self.create_new_block(block_start, padding_content, true);
            bstart = block_start + (HEADER_SIZE + padding_content);
        }
        let ghost s1 = *self;
        let obj_end = obj_start + osize;
        let dist2 = block_end - obj_end;
        if dist2 >= BLOCK_MIN_SIZE {
            self.create_new_block(obj_end, dist2 - HEADER_SIZE, true);
        } else {
            osize = block_end - obj_start;
        }
        let ghost s2 = *self;
        proof {
            assert(bstart as int == obj_start - HEADER_SIZE);
            assert(bstart as int == pb[oi].start);
            assert(osize as int == pb[oi].size);
        }
        self.create_new_block(bstart, osize, false);
        proof {
            let has_left = obj_start - block_start != HEADER_SIZE;
            let has_right = block_end - (obj_start + obj_size) >= BLOCK_MIN_SIZE;
            let kl = (block_start - base) / (HEADER_SIZE as int);
            let ko = (obj_start - HEADER_SIZE - base) / (HEADER_SIZE as int);
            let kr = (obj_start + obj_size - base) / (HEADER_SIZE as int);
            let rnode = (obj_start + obj_size + HEADER_SIZE) as usize;
            assert(base + HEADER_SIZE * kl == block_start);
            assert(base + HEADER_SIZE * ko == obj_start - HEADER_SIZE);
            assert(base + HEADER_SIZE * kr == obj_start + obj_size);
            assert(ko != kr && kl != kr);
            assert(has_left ==> kl != ko);
            assert(has_right ==> rnode == rnode_i);
            // the header cells of the placed blocks hold their headers
            assert forall|j: int| 0 <= j < pb.len() implies {
                let bl = #[trigger] pb[j];
                let k = (bl.start - base) / (HEADER_SIZE as int);
                &&& 0 <= k < self.hdrs@.len()
                &&& self.hdrs@[k].spec_content_size() == bl.size
                &&& self.hdrs@[k].spec_is_tagged() == bl.free
            } by {
                if j == oi {
                    assert(pb[j].start == obj_start - HEADER_SIZE);
                } else if j < oi {
                    assert(pb[j].start == block_start);
                    assert(s1.hdrs@[kl].spec_content_size() == pb[j].size);
                    assert(s2.hdrs@[kl] == s1.hdrs@[kl]);
                    assert(self.hdrs@[kl] == s2.hdrs@[kl]);
                } else {
                    assert(pb[j].start == obj_start + obj_size);
                    assert(s2.hdrs@[kr].spec_content_size() == pb[j].size);
                    assert(self.hdrs@[kr] == s2.hdrs@[kr]);
                }
            }
            // cells outside the placed range are unchanged
            assert forall|k: int|
                0 <= k < self.hdrs@.len() && !(block_start <= base + HEADER_SIZE * k < block_end)
                implies #[trigger] self.hdrs@[k] == old(self).hdrs@[k] by {
                assert(k != kl);
                assert(k != ko) by {
                    if k == ko {
                        assert(base + HEADER_SIZE * k == obj_start - HEADER_SIZE);
                    }
                }
                assert(k != kr || !has_right);
                assert(s1.hdrs@[k] == s0.hdrs@[k]);
                assert(s2.hdrs@[k] == s1.hdrs@[k]);
                assert(self.hdrs@[k] == s2.hdrs@[k]);
            }
            // the free list gained exactly the nodes of the placed free blocks
            assert(s1.freelist@ == if has_left {
                seq![lnode] + s0.freelist@
            } else {
                s0.freelist@
            });
            assert(self.freelist@ == if has_right {
                seq![rnode] + s1.freelist@
            } else {
                s1.freelist@
            });
            assert forall|a: usize|
                #[trigger] self.freelist@.contains(a) <==> (old(self).freelist@.contains(a)
                    || is_free_node(pb, a)) by {
                let rnode = (obj_start + obj_size + HEADER_SIZE) as usize;
                if has_left {
                    lemma_contains_push(s0.freelist@, lnode, a);
                }
                if has_right {
                    lemma_contains_push(s1.freelist@, rnode, a);
                }
                if is_free_node(pb, a) {
                    let j = choose|j: int|
                        0 <= j < pb.len() && (#[trigger] pb[j]).free && a == pb[j].start
                            + HEADER_SIZE;
                    assert(j != oi);
                    if j < oi {
                        assert(pb[j].start == block_start);
                        assert(a == lnode);
                    } else {
                        assert(pb[j].start == obj_start + obj_size);
                        assert(a == rnode && has_right);
                    }
                }
                if self.freelist@.contains(a) && !old(self).freelist@.contains(a) {
                    if has_left && a == lnode {
                        assert(pb[0].free && pb[0].start + HEADER_SIZE == a);
                        assert(is_free_node(pb, a));
                    }
                    if has_right && a == rnode {
                        assert(pb[oi + 1].free && pb[oi + 1].start + HEADER_SIZE == a);
                        assert(is_free_node(pb, a));
                    }
                }
            }
        }
    }

    /// Extends the owned heap and its header cells to `new_len` bytes,
    /// leaving everything already owned unchanged.
    fn extend_heap(&mut self, new_len: usize)
        requires
            old(self).cells_ok(),
            old(self).mem@.len() <= new_len,
            new_len as int % (HEADER_SIZE as int) == 0,
            old(self).base + new_len <= usize::MAX,
        ensures
            final(self).cells_ok(),
            final(self).base == old(self).base,
            final(self).freelist == old(self).freelist,
            final(self).blocks == old(self).blocks,
            final(self).grower == old(self).grower,
            final(self).mem@.len() == new_len,
            final(self).mem@.subrange(0, old(self).mem@.len() as int) == old(self).mem@,
            old(self).hdrs@.len() <= final(self).hdrs@.len(),
            forall|k: int|
                0 <= k < old(self).hdrs@.len() ==> #[trigger] final(self).hdrs@[k] == old(self).hdrs@[k],
    {
        proof {
            vstd::arithmetic::div_mod::lemma_fundamental_div_mod(
                new_len as int,
                HEADER_SIZE as int,
            );
        }
        self.mem.resize(new_len, 0u8);
        let new_cells = new_len / HEADER_SIZE;
        self.hdrs.resize(new_cells, Header { __content_size: 0 });
        proof {
            assert(self.mem@.len() == HEADER_SIZE * self.hdrs@.len());
            if old(self).mem@.len() == new_len {
                assert(self.mem@.subrange(0, old(self).mem@.len() as int) =~= old(self).mem@);
            }
            assert forall|k: int|
                0 <= k < old(self).hdrs@.len() implies #[trigger] self.hdrs@[k] == old(self).hdrs@[k] by {
                if old(self).hdrs@.len() < new_cells {
                    assert(self.hdrs@.subrange(0, old(self).hdrs@.len() as int) == old(self).hdrs@);
                    assert(self.hdrs@.subrange(0, old(self).hdrs@.len() as int)[k]
                        == self.hdrs@[k]);
                } else {
                    assert(self.hdrs@.subrange(0, new_cells as int) == old(self).hdrs@);
                    assert(self.hdrs@.subrange(0, new_cells as int)[k] == self.hdrs@[k]);
                }
            }
        }
    }

    /// Probes the grower for the placement target of an allocation of
    /// `obj_size` bytes aligned to `obj_align`: the current buffer end, the
    /// end of the tiled heap, and the address where the object would be
    /// placed, leaving room for its header and, where necessary, for a
    /// preceding padding block. On the first growth the heap base is
    /// established from the probed end, which must be header-aligned.
    fn grow_target(&mut self, obj_size: usize, obj_align: usize) -> (r: Result<
        (usize, usize, usize),
        (),
    >)
        requires
            old(self).wf(),
            obj_size % HEADER_SIZE == 0,
            NODE_SIZE <= obj_size <= usize::MAX / 2,
            is_pow2(obj_align as int),
            obj_align >= HEADER_ALIGN,
        ensures
            final(self).wf(),
            final(self).block_seq() == old(self).block_seq(),
            final(self).fl() == old(self).fl(),
            final(self).heap_bytes() == old(self).heap_bytes(),
            final(self).hdrs@ == old(self).hdrs@,
            final(self).grower_of().end() == old(self).grower_of().end(),
            old(self).mem@.len() > 0 ==> final(self).heap_lo() == old(self).heap_lo(),
            r.is_ok() ==> ({
                let (e, tiled, obj) = r.unwrap();
                &&& tiled as int == final(self).heap_hi()
                &&& tiled <= e < tiled + HEADER_SIZE
                &&& e as int == final(self).grower.end()
                &&& tiled % HEADER_SIZE == 0
                &&& valid_prefix(obj - tiled)
                &&& obj % obj_align == 0
                &&& obj % HEADER_ALIGN == 0
                &&& obj + obj_size <= usize::MAX
                &&& (forall|x: usize|
                    tiled <= x < obj && #[trigger] (x % obj_align) == 0 ==> !valid_prefix(
                        x - tiled,
                    ))
            }),
    {
        proof {
            reveal(RawMalloc::cells_match);
        reveal(RawMalloc::fl_matches);
        reveal(RawMalloc::coupled);
        }
        let e = match self.grower.grow(0) {
            Ok((end, _)) => end,
            Err(()) => {
                return Err(());
            },
        };
        if self.mem.len() == 0 {
            if e % HEADER_ALIGN != 0 {
                return Err(());
            }
            proof {
                if self.blocks@.len() > 0 {
                    lemma_tiles_bounds(
                        self.blocks@,
                        self.base as int,
                        self.base + self.mem@.len(),
                    );
                    assert(self.blocks@[0].start < self.blocks@[0].end());
                    assert(false);
                }
                if self.freelist@.len() > 0 {
                    assert(is_free_node(self.blocks@, self.freelist@[0]));
                    assert(false);
                }
            }
            self.base = e;
        }
        let tiled = self.base + self.mem.len();
        proof {
            vstd::arithmetic::div_mod::lemma_add_mod_noop(
                self.base as int,
                self.mem@.len() as int,
                HEADER_SIZE as int,
            );
            vstd::arithmetic::div_mod::lemma_mod_multiples_basic(
                self.hdrs@.len() as int,
                HEADER_SIZE as int,
            );
            vstd::arithmetic::mul::lemma_mul_is_commutative(
                self.hdrs@.len() as int,
                HEADER_SIZE as int,
            );
            assert(self.mem@.len() as int % (HEADER_SIZE as int) == 0);
            assert(tiled % HEADER_SIZE == 0);
        }
        let obj = match find_place(tiled, obj_align) {
            Some(p) => p,
            None => {
                return Err(());
            },
        };
        if obj > usize::MAX - obj_size {
            return Err(());
        }
        proof {
            crate::util::lemma_pow2_constants();
            crate::util::lemma_aligned_to_smaller_pow2(
                obj as int,
                HEADER_ALIGN as int,
                obj_align as int,
            );
        }
        Ok((e, tiled, obj))
    }

    /// After the grower has granted `g` bytes past the old buffer end `e`,
    /// takes ownership of the granted range up to the last whole
    /// header-granule: the owned heap and its header cells are extended, and
    /// the placement region from the old heap end is returned.
    #[verifier::rlimit(100)]
    #[verifier::spinoff_prover]
    fn commit_growth(&mut self, e: usize, g: usize, tiled: usize, obj: usize, obj_size: usize) -> (r:
        (usize, usize))
        requires
            old(self).cells_ok(),
            tiled as int == old(self).heap_hi(),
            tiled % HEADER_SIZE == 0,
            valid_prefix(obj - tiled),
            obj % HEADER_ALIGN == 0,
            obj_size % HEADER_SIZE == 0,
            NODE_SIZE <= obj_size,
            obj + obj_size <= usize::MAX,
            tiled <= e < tiled + HEADER_SIZE,
            g >= obj + obj_size - e,
            old(self).grower.end() == e + g,
        ensures
            ({
                let (region_start, region_len) = r;
                &&& final(self).cells_ok()
                &&& final(self).freelist == old(self).freelist
                &&& final(self).blocks == old(self).blocks
                &&& final(self).grower == old(self).grower
                &&& final(self).heap_lo() == old(self).heap_lo()
                &&& region_start == tiled
                &&& region_start as int == old(self).heap_hi()
                &&& region_start + region_len == final(self).heap_hi()
                &&& place_ok(
                    region_start as int,
                    region_start + region_len,
                    obj as int,
                    obj_size as int,
                )
                &&& final(self).heap_bytes().subrange(0, old(self).mem@.len() as int) == old(self).heap_bytes()
                &&& old(self).hdrs@.len() <= final(self).hdrs@.len()
                &&& (forall|k: int|
                    0 <= k < old(self).hdrs@.len() ==> #[trigger] final(self).hdrs@[k] == old(self).hdrs@[k])
                &&& final(self).heap_hi() <= final(self).grower.end() < final(self).heap_hi()
                    + HEADER_SIZE
            }),
    {
        let obj_end = obj + obj_size;
        let total = (e - self.base) + g;
        let new_len = total - total % HEADER_SIZE;
        proof {
            let t = total as int;
            assert(new_len as int % (HEADER_SIZE as int) == 0 && t - new_len < HEADER_SIZE
                && obj_end - self.base <= new_len) by {
                vstd::arithmetic::div_mod::lemma_mod_bound(t, HEADER_SIZE as int);
                vstd::arithmetic::div_mod::lemma_fundamental_div_mod(t, HEADER_SIZE as int);
                vstd::arithmetic::div_mod::lemma_mod_multiples_basic(
                    t / (HEADER_SIZE as int),
                    HEADER_SIZE as int,
                );
                let x = obj_end - self.base;
                vstd::arithmetic::div_mod::lemma_sub_mod_noop(
                    obj_end as int,
                    self.base as int,
                    HEADER_SIZE as int,
                );
                assert(x % (HEADER_SIZE as int) == 0);
                assert(x <= t);
                if x > new_len as int {
                    vstd::arithmetic::div_mod::lemma_sub_mod_noop(
                        x,
                        new_len as int,
                        HEADER_SIZE as int,
                    );
                    assert((x - new_len) % (HEADER_SIZE as int) == 0);
                    vstd::arithmetic::div_mod::lemma_small_mod(
                        (x - new_len) as nat,
                        HEADER_SIZE as nat,
                    );
                    assert(false);
                }
            }
            assert(self.mem@.len() < new_len);
        }
        let region_start = tiled;
        let region_len = new_len - self.mem.len();
        self.extend_heap(new_len);
        (region_start, region_len)
    }

    /// Grows the heap for an allocation of `obj_size` bytes aligned to
    /// `obj_align`. On success returns the start of the newly owned region,
    /// the region's length, and the address where the object is to be
    /// placed: space for the object's header, and where necessary for a
    /// preceding padding block, is accounted for. Fails if the grower cannot
    /// be probed, the heap end is not header-aligned, the alignment is not
    /// achievable in the address space, or the grower refuses to grow.
    #[verifier::rlimit(100)]
    fn grow(&mut self, obj_size: usize, obj_align: usize) -> (r: Result<(usize, usize, usize), ()>)
        requires
            old(self).wf(),
            obj_size % HEADER_SIZE == 0,
            NODE_SIZE <= obj_size <= usize::MAX / 2,
            is_pow2(obj_align as int),
            obj_align >= HEADER_ALIGN,
        ensures
            r.is_err() ==> final(self).wf() && final(self).block_seq() == old(self).block_seq()
                && final(self).fl() == old(self).fl() && final(self).heap_bytes() == old(self).heap_bytes() && final(self).hdrs@ == old(self).hdrs@,
            r.is_ok() ==> ({
                let (region_start, region_len, obj) = r.unwrap();
                &&& final(self).cells_ok()
                &&& final(self).freelist.wf()
                &&& final(self).fl() == old(self).fl()
                &&& final(self).block_seq() == old(self).block_seq()
                &&& (old(self).mem@.len() > 0 ==> final(self).heap_lo() == old(self).heap_lo())
                &&& region_start == final(self).heap_lo() + old(self).mem@.len()
                &&& region_start + region_len == final(self).heap_hi()
                &&& tiles(final(self).block_seq(), final(self).heap_lo(), region_start as int)
                &&& place_ok(
                    region_start as int,
                    region_start + region_len,
                    obj as int,
                    obj_size as int,
                )
                &&& obj % obj_align == 0
                &&& (forall|x: usize|
                    region_start <= x < obj && #[trigger] (x % obj_align) == 0 ==> !valid_prefix(
                        x - region_start,
                    ))
                &&& final(self).heap_bytes().subrange(0, old(self).mem@.len() as int) == old(self).heap_bytes()
                &&& old(self).hdrs@.len() <= final(self).hdrs@.len()
                &&& (forall|k: int|
                    0 <= k < old(self).hdrs@.len() ==> #[trigger] final(self).hdrs@[k] == old(self).hdrs@[k])
                &&& final(self).heap_hi() <= final(self).grower.end() < final(self).heap_hi()
                    + HEADER_SIZE
                &&& final(self).grower.end() > old(self).grower.end()
            }),
    {
        proof {
            reveal(RawMalloc::cells_match);
        reveal(RawMalloc::fl_matches);
        reveal(RawMalloc::coupled);
        }
        let (e, tiled, obj) = match self.grow_target(obj_size, obj_align) {
            Ok(t) => t,
            Err(()) => {
                return Err(());
            },
        };
        let obj_end = obj + obj_size;
        let growth = obj_end - e;
        let ghost pre = *self;
        match self.grower.grow(growth) {
            Err(()) => Err(()),
            Ok((_old_e, g)) => {
                let (region_start, region_len) = self.commit_growth(e, g, tiled, obj, obj_size);
                proof {
                    assert(pre.mem@ == old(self).mem@ || old(self).mem@.len() == 0);
                    if old(self).mem@.len() == 0 {
                        assert(self.heap_bytes().subrange(0, 0) =~= old(self).heap_bytes());
                    }
                }
                Ok((region_start, region_len, obj))
            },
        }
    }

    /// The shape of a growth placement: `s1` extends the tiled heap of `s0`
    /// by the region `[region_start, region_end)`, and `new` is `s1` with
    /// the placed blocks appended, their headers written, and the new free
    /// padding blocks pushed onto the free list.
    #[verifier::opaque]
    spec fn grow_place_shape(
        s0: Self,
        s1: Self,
        new: Self,
        region_start: usize,
        region_end: usize,
        obj: usize,
        obj_size: usize,
    ) -> bool {
        let pb = placed_blocks(region_start as int, region_end as int, obj as int, obj_size as int);
        &&& s0.wf()
        &&& s1.cells_ok()
        &&& s1.freelist.wf()
        &&& s1.fl() == s0.fl()
        &&& s1.block_seq() == s0.block_seq()
        &&& region_start as int == s1.heap_lo() + s0.mem@.len()
        &&& region_end as int == s1.heap_hi()
        &&& tiles(s1.block_seq(), s1.heap_lo(), region_start as int)
        &&& place_ok(region_start as int, region_end as int, obj as int, obj_size as int)
        &&& s1.heap_hi() <= s1.grower.end() < s1.heap_hi() + HEADER_SIZE
        &&& (forall|i: int|
            0 <= i < s0.block_seq().len() ==> {
                let bl = #[trigger] s0.block_seq()[i];
                let k = (bl.start - s1.base) / (HEADER_SIZE as int);
                &&& 0 <= k < s1.hdrs@.len()
                &&& s1.hdrs@[k].spec_content_size() == bl.size
                &&& s1.hdrs@[k].spec_is_tagged() == bl.free
            })
        &&& new.base == s1.base
        &&& new.mem@ == s1.mem@
        &&& new.grower == s1.grower
        &&& new.freelist.wf()
        &&& new.hdrs@.len() == s1.hdrs@.len()
        &&& new.block_seq() == s1.block_seq() + pb
        &&& (forall|a: usize|
            #[trigger] new.fl().contains(a) <==> (s1.fl().contains(a) || is_free_node(pb, a)))
        &&& (forall|k: int|
            0 <= k < new.hdrs@.len() && !(region_start <= s1.base + HEADER_SIZE * k < region_end)
                ==> #[trigger] new.hdrs@[k] == s1.hdrs@[k])
        &&& (forall|j: int|
            0 <= j < pb.len() ==> {
                let bl = #[trigger] pb[j];
                let k = (bl.start - new.base) / (HEADER_SIZE as int);
                &&& 0 <= k < new.hdrs@.len()
                &&& new.hdrs@[k].spec_content_size() == bl.size
                &&& new.hdrs@[k].spec_is_tagged() == bl.free
            })
    }

    /// Header cells after a growth placement match the new blocks.
    #[verifier::rlimit(100)]
    proof fn lemma_grow_place_cells(
        s0: Self,
        s1: Self,
        new: Self,
        region_start: usize,
        region_end: usize,
        obj: usize,
        obj_size: usize,
    )
        requires
            Self::grow_place_shape(s0, s1, new, region_start, region_end, obj, obj_size),
        ensures
            new.cells_match(),
    {
        reveal(RawMalloc::grow_place_shape);
        reveal(RawMalloc::cells_match);
        let bs0 = s1.block_seq();
        let pb = placed_blocks(region_start as int, region_end as int, obj as int, obj_size as int);
        lemma_placed_blocks(region_start as int, region_end as int, obj as int, obj_size as int);
        lemma_tiles_bounds(bs0, s1.heap_lo(), region_start as int);
        let bs = new.blocks@;
        let lo = new.base as int;
        assert forall|i: int| 0 <= i < bs.len() implies {
            let b = #[trigger] bs[i];
            let k = (b.start - new.base) / (HEADER_SIZE as int);
            &&& 0 <= k < new.hdrs@.len()
            &&& new.hdrs@[k].spec_content_size() == b.size
            &&& new.hdrs@[k].spec_is_tagged() == b.free
        } by {
            if i < bs0.len() {
                assert(bs[i] == bs0[i]);
                let b = bs0[i];
                let k = (b.start - s1.base) / (HEADER_SIZE as int);
                assert(0 <= k < s1.hdrs@.len() && s1.hdrs@[k].spec_content_size() == b.size
                    && s1.hdrs@[k].spec_is_tagged() == b.free);
                assert(b.end() <= region_start);
                Self::lemma_cell_addr(lo, b.start);
                assert(new.hdrs@[k] == s1.hdrs@[k]);
            } else {
                assert(bs[i] == pb[i - bs0.len()]);
            }
        }
    }

    /// The free list after a growth placement matches the new free blocks.
    #[verifier::rlimit(100)]
    proof fn lemma_grow_place_fl(
        s0: Self,
        s1: Self,
        new: Self,
        region_start: usize,
        region_end: usize,
        obj: usize,
        obj_size: usize,
    )
        requires
            Self::grow_place_shape(s0, s1, new, region_start, region_end, obj, obj_size),
        ensures
            new.fl_matches(),
    {
        reveal(RawMalloc::grow_place_shape);
        reveal(RawMalloc::fl_matches);
        let bs0 = s1.block_seq();
        let pb = placed_blocks(region_start as int, region_end as int, obj as int, obj_size as int);
        lemma_placed_blocks(region_start as int, region_end as int, obj as int, obj_size as int);
        let bs = new.blocks@;
        assert(new.fl() == new.freelist@);
        assert(s1.fl() == s1.freelist@);
        assert(s0.fl() == s1.fl());
        assert forall|i: int|
            0 <= i < bs.len() && (#[trigger] bs[i]).free implies new.freelist@.contains(
            (bs[i].start + HEADER_SIZE) as usize,
        ) by {
            if i < bs0.len() {
                assert(bs[i] == bs0[i]);
                assert(s1.freelist@.contains((bs0[i].start + HEADER_SIZE) as usize)) by {
                    reveal(RawMalloc::fl_matches);
                }
            } else {
                assert(bs[i] == pb[i - bs0.len()]);
                assert(is_free_node(pb, (bs[i].start + HEADER_SIZE) as usize));
            }
        }
        assert forall|j: int|
            0 <= j < new.freelist@.len() implies is_free_node(bs, #[trigger] new.freelist@[j]) by {
            let a = new.freelist@[j];
            assert(new.freelist@.contains(a));
            if s1.freelist@.contains(a) {
                assert(is_free_node(bs0, a));
                let i = choose|i: int|
                    0 <= i < bs0.len() && (#[trigger] bs0[i]).free && a == bs0[i].start
                        + HEADER_SIZE;
                lemma_tiles_block_in_range(bs0, s1.heap_lo(), region_start as int, i);
                assert(bs[i] == bs0[i]);
                assert(bs[i].free && a == bs[i].start + HEADER_SIZE);
            } else {
                assert(is_free_node(pb, a));
                let i = choose|i: int|
                    0 <= i < pb.len() && (#[trigger] pb[i]).free && a == pb[i].start + HEADER_SIZE;
                assert(bs[bs0.len() + i] == pb[i]);
                assert(bs[bs0.len() + i].free && a == bs[bs0.len() + i].start + HEADER_SIZE);
            }
        }
    }

    /// Appending the blocks of a raw placement over a freshly grown region
    /// re-establishes the state invariant; the placed object is a new
    /// object and the old objects are untouched.
    #[verifier::rlimit(100)]
    proof fn lemma_grow_place_wf(
        s0: Self,
        s1: Self,
        new: Self,
        region_start: usize,
        region_end: usize,
        obj: usize,
        obj_size: usize,
    )
        requires
            Self::grow_place_shape(s0, s1, new, region_start, region_end, obj, obj_size),
        ensures
            new.wf(),
            new.is_obj(obj),
            !s0.is_obj(obj),
            obj as int > region_start,
            new.obj_size(obj) >= obj_size,
            new.obj_size(obj) < obj_size + BLOCK_MIN_SIZE,
            forall|p: usize|
                #[trigger] s0.is_obj(p) ==> new.is_obj(p) && new.obj_size(p) == s0.obj_size(p),
            forall|p: usize| #[trigger] new.is_obj(p) && p != obj ==> s0.is_obj(p),
    {
        reveal(RawMalloc::grow_place_shape);
        let bs0 = s1.block_seq();
        let pb = placed_blocks(region_start as int, region_end as int, obj as int, obj_size as int);
        let oi = placed_obj_idx(region_start as int, obj as int);
        lemma_placed_blocks(region_start as int, region_end as int, obj as int, obj_size as int);
        lemma_tiles_bounds(bs0, s1.heap_lo(), region_start as int);
        let bs = new.blocks@;
        let lo = new.base as int;
        let hi = new.base + new.mem@.len();
        lemma_tiles_concat(bs0, pb, lo, region_start as int, region_end as int);
        assert(region_end == hi);
        assert(tiles(bs, lo, hi));
        Self::lemma_grow_place_cells(s0, s1, new, region_start, region_end, obj, obj_size);
        Self::lemma_grow_place_fl(s0, s1, new, region_start, region_end, obj, obj_size);
        assert(new.coupled()) by {
            reveal(RawMalloc::coupled);
        }
        assert(new.wf());
        // the new object
        assert(bs[bs0.len() + oi] == pb[oi]);
        assert(new.obj_at(obj, bs0.len() + oi));
        assert(new.is_obj(obj));
        new.lemma_obj_unique(obj);
        lemma_tiles_bounds(bs, lo, hi);
        if s0.is_obj(obj) {
            s0.lemma_obj_unique(obj);
            let i = s0.obj_idx(obj);
            assert(bs0[i].end() <= region_start);
            assert(false);
        }
        assert forall|p: usize|
            #[trigger] s0.is_obj(p) implies new.is_obj(p) && new.obj_size(p) == s0.obj_size(p) by {
            s0.lemma_obj_unique(p);
            let i = s0.obj_idx(p);
            assert(bs[i] == bs0[i]);
            assert(new.obj_at(p, i));
            new.lemma_obj_unique(p);
        }
        assert forall|p: usize| #[trigger] new.is_obj(p) && p != obj implies s0.is_obj(p) by {
            new.lemma_obj_unique(p);
            let i = new.obj_idx(p);
            if i < bs0.len() {
                assert(bs[i] == bs0[i]);
                assert(s0.obj_at(p, i));
            } else {
                assert(bs[i] == pb[i - bs0.len()]);
                assert(i - bs0.len() == oi);
                assert(p == obj);
            }
        }
    }

    /// Grows the heap for an allocation of `obj_size` bytes aligned to
    /// `obj_align` and divides the newly owned space into blocks, one of
    /// which is delegated to the allocation. On success returns the address
    /// of the new object.
    #[verifier::rlimit(100)]
    fn grow_and_place(&mut self, obj_size: usize, obj_align: usize) -> (r: Result<usize, ()>)
        requires
            old(self).wf(),
            obj_size % HEADER_SIZE == 0,
            NODE_SIZE <= obj_size <= usize::MAX / 2,
            is_pow2(obj_align as int),
            obj_align >= HEADER_ALIGN,
        ensures
            final(self).wf(),
            final(self).heap_hi() - final(self).heap_lo() >= old(self).heap_hi() - old(self).heap_lo(),
            r.is_err() ==> final(self).block_seq() == old(self).block_seq() && final(self).fl()
                == old(self).fl() && final(self).heap_bytes() == old(self).heap_bytes(),
            r.is_ok() ==> ({
                let obj = r.unwrap();
                &&& final(self).is_obj(obj)
                &&& obj % obj_align == 0
                &&& final(self).obj_size(obj) >= obj_size
                &&& final(self).obj_size(obj) < obj_size + BLOCK_MIN_SIZE
                &&& !old(self).is_obj(obj)
                &&& (forall|p: usize|
                    #[trigger] old(self).is_obj(p) ==> final(self).is_obj(p) && final(self).obj_size(p) == old(self).obj_size(p))
                &&& (forall|p: usize|
                    #[trigger] final(self).is_obj(p) && p != obj ==> old(self).is_obj(p))
                &&& (old(self).mem@.len() > 0 ==> final(self).heap_lo() == old(self).heap_lo()
                    && final(self).heap_bytes().subrange(0, old(self).mem@.len() as int) == old(self).heap_bytes())
                &&& (old(self).mem@.len() > 0 ==> valid_prefix(obj - old(self).heap_hi()) && (
                forall|x: usize|
                    old(self).heap_hi() <= x < obj && #[trigger] (x % obj_align) == 0
                        ==> !valid_prefix(x - old(self).heap_hi())))
                &&& (old(self).mem@.len() == 0 ==> valid_prefix(obj - final(self).heap_lo()) && (
                forall|x: usize|
                    final(self).heap_lo() <= x < obj && #[trigger] (x % obj_align) == 0
                        ==> !valid_prefix(x - final(self).heap_lo())))
                &&& final(self).grower_of().end() > old(self).grower_of().end()
            }),
    {
        proof {
            reveal(RawMalloc::cells_match);
            reveal(RawMalloc::fl_matches);
            reveal(RawMalloc::coupled);
        }
        let ghost s0 = *self;
        let (region_start, region_len, obj) = match self.grow(obj_size, obj_align) {
            Ok(t) => t,
            Err(()) => {
                return Err(());
            },
        };
        let ghost s1 = *self;
        let ghost bs0 = s1.block_seq();
        let region_end = region_start + region_len;
        let ghost pb = placed_blocks(
            region_start as int,
            region_end as int,
            obj as int,
            obj_size as int,
        );
        let ghost oi = placed_obj_idx(region_start as int, obj as int);
        proof {
            lemma_placed_blocks(region_start as int, region_end as int, obj as int, obj_size as int);
            lemma_tiles_bounds(bs0, s1.heap_lo(), region_start as int);
            assert forall|j: int|
                0 <= j < s1.fl().len() implies !(region_start < #[trigger] s1.fl()[j] && s1.fl()[j]
                <= region_end) by {
                assert(is_free_node(s0.block_seq(), s0.fl()[j]));
                let i = choose|i: int|
                    0 <= i < bs0.len() && (#[trigger] bs0[i]).free && s0.fl()[j] == bs0[i].start
                        + HEADER_SIZE;
                assert(bs0[i].end() <= region_start);
            }
        }
        self.place_raw(region_start, region_end, obj, obj_size);
        proof {
            self.blocks@ = bs0 + pb;
            assert(Self::grow_place_shape(s0, s1, *self, region_start, region_end, obj, obj_size))
                by {
                reveal(RawMalloc::grow_place_shape);
            }
            Self::lemma_grow_place_wf(s0, s1, *self, region_start, region_end, obj, obj_size);
        }
        Ok(obj)
    }

    /// The shape of a placement splice: `new` is `s0` with the free block
    /// at index `i` replaced by the placed blocks, their headers written,
    /// the block's node unlinked, and the new free padding nodes pushed.
    #[verifier::opaque]
    spec fn place_splice_shape(s0: Self, new: Self, i: int, b: int, e: int, obj: usize, osz: int) -> bool {
        let pb = placed_blocks(b, e, obj as int, osz);
        &&& s0.wf()
        &&& 0 <= i < s0.block_seq().len()
        &&& s0.block_seq()[i].free
        &&& s0.block_seq()[i].start == b
        &&& s0.block_seq()[i].end() == e
        &&& place_ok(b, e, obj as int, osz)
        &&& new.base == s0.base
        &&& new.mem@ == s0.mem@
        &&& new.grower == s0.grower
        &&& new.block_seq() == s0.block_seq().subrange(0, i) + pb + s0.block_seq().subrange(
            i + 1,
            s0.block_seq().len() as int,
        )
        &&& new.freelist.wf()
        &&& new.hdrs@.len() == s0.hdrs@.len()
        &&& (forall|a: usize|
            #[trigger] new.fl().contains(a) <==> ((s0.fl().contains(a) && a != (b
                + HEADER_SIZE) as usize) || is_free_node(pb, a)))
        &&& (forall|k: int|
            0 <= k < new.hdrs@.len() && !(b <= s0.base + HEADER_SIZE * k < e)
                ==> #[trigger] new.hdrs@[k] == s0.hdrs@[k])
        &&& (forall|j: int|
            0 <= j < pb.len() ==> {
                let bl = #[trigger] pb[j];
                let k = (bl.start - new.base) / (HEADER_SIZE as int);
                &&& 0 <= k < new.hdrs@.len()
                &&& new.hdrs@[k].spec_content_size() == bl.size
                &&& new.hdrs@[k].spec_is_tagged() == bl.free
            })
    }

    /// Header cells after a placement splice match the new blocks.
    #[verifier::rlimit(100)]
    proof fn lemma_place_splice_cells(
        s0: Self,
        new: Self,
        i: int,
        b: int,
        e: int,
        obj: usize,
        osz: int,
    )
        requires
            Self::place_splice_shape(s0, new, i, b, e, obj, osz),
        ensures
            ({
                let t = new.block_seq();
                forall|i2: int|
                    0 <= i2 < t.len() ==> {
                        let bl = #[trigger] t[i2];
                        let k = (bl.start - new.base) / (HEADER_SIZE as int);
                        &&& 0 <= k < new.hdrs@.len()
                        &&& new.hdrs@[k].spec_content_size() == bl.size
                        &&& new.hdrs@[k].spec_is_tagged() == bl.free
                    }
            }),
    {
        reveal(RawMalloc::place_splice_shape);
        reveal(RawMalloc::cells_match);
        let bs = s0.block_seq();
        let lo = s0.base as int;
        let hi = s0.base + s0.mem@.len();
        let pb = placed_blocks(b, e, obj as int, osz);
        let oi = placed_obj_idx(b, obj as int);
        let t = new.block_seq();
        lemma_placed_blocks(b, e, obj as int, osz);
        lemma_tiles_bounds(bs, lo, hi);
        lemma_splice_index(bs, i, i + 1, pb);
        assert forall|i2: int| 0 <= i2 < t.len() implies {
            let bl = #[trigger] t[i2];
            let k = (bl.start - new.base) / (HEADER_SIZE as int);
            &&& 0 <= k < new.hdrs@.len()
            &&& new.hdrs@[k].spec_content_size() == bl.size
            &&& new.hdrs@[k].spec_is_tagged() == bl.free
        } by {
            if i2 < i {
                assert(t[i2] == bs[i2]);
                lemma_tiles_disjoint(bs, lo, hi, i2, i);
                Self::lemma_cell_addr(lo, bs[i2].start);
            } else if i2 < i + pb.len() {
                assert(t[i2] == pb[i2 - i]);
            } else {
                assert(t[i2] == bs[i2 - pb.len() + 1]);
                lemma_tiles_disjoint(bs, lo, hi, i, i2 - pb.len() + 1);
                Self::lemma_cell_addr(lo, bs[i2 - pb.len() + 1].start);
            }
        }
    }

    /// After a placement splice every free block's node is on the free
    /// list.
    #[verifier::rlimit(100)]
    proof fn lemma_place_splice_fl1(
        s0: Self,
        new: Self,
        i: int,
        b: int,
        e: int,
        obj: usize,
        osz: int,
    )
        requires
            Self::place_splice_shape(s0, new, i, b, e, obj, osz),
        ensures
            forall|i2: int|
                0 <= i2 < new.block_seq().len() && (#[trigger] new.block_seq()[i2]).free
                    ==> new.fl().contains((new.block_seq()[i2].start + HEADER_SIZE) as usize),
    {
        reveal(RawMalloc::place_splice_shape);
        reveal(RawMalloc::fl_matches);
        let bs = s0.block_seq();
        let lo = s0.base as int;
        let hi = s0.base + s0.mem@.len();
        let pb = placed_blocks(b, e, obj as int, osz);
        let oi = placed_obj_idx(b, obj as int);
        let t = new.block_seq();
        assert(s0.fl() == s0.freelist@);
        assert(new.fl() == new.freelist@);
        lemma_placed_blocks_len(b, e, obj as int, osz);
        lemma_splice_index(bs, i, i + 1, pb);
        assert forall|i2: int|
            0 <= i2 < t.len() && (#[trigger] t[i2]).free implies new.fl().contains(
            (t[i2].start + HEADER_SIZE) as usize,
        ) by {
            if i2 < i {
                assert(t[i2] == bs[i2]);
                assert(bs[i2].free);
                lemma_tiles_block_in_range(bs, lo, hi, i2);
                lemma_tiles_block_in_range(bs, lo, hi, i);
                lemma_tiles_disjoint(bs, lo, hi, i2, i);
                assert(s0.blocks@ == bs);
                assert(s0.freelist@.contains((s0.blocks@[i2].start + HEADER_SIZE) as usize));
                assert(s0.fl().contains((bs[i2].start + HEADER_SIZE) as usize));
            } else if i2 < i + pb.len() {
                assert(t[i2] == pb[i2 - i]);
                assert(is_free_node(pb, (t[i2].start + HEADER_SIZE) as usize));
            } else {
                let i3 = i2 - pb.len() + 1;
                assert(t[i2] == bs[i3]);
                assert(bs[i3].free);
                lemma_tiles_block_in_range(bs, lo, hi, i3);
                lemma_tiles_block_in_range(bs, lo, hi, i);
                lemma_tiles_disjoint(bs, lo, hi, i, i3);
                assert(s0.blocks@ == bs);
                assert(s0.freelist@.contains((s0.blocks@[i3].start + HEADER_SIZE) as usize));
                assert(s0.fl().contains((bs[i3].start + HEADER_SIZE) as usize));
            }
        }
    }

    /// After a placement splice every listed node heads a free block.
    #[verifier::rlimit(100)]
    proof fn lemma_place_splice_fl2(
        s0: Self,
        new: Self,
        i: int,
        b: int,
        e: int,
        obj: usize,
        osz: int,
    )
        requires
            Self::place_splice_shape(s0, new, i, b, e, obj, osz),
        ensures
            forall|j: int|
                0 <= j < new.fl().len() ==> is_free_node(
                    new.block_seq(),
                    #[trigger] new.fl()[j],
                ),
    {
        reveal(RawMalloc::place_splice_shape);
        reveal(RawMalloc::fl_matches);
        let bs = s0.block_seq();
        let lo = s0.base as int;
        let hi = s0.base + s0.mem@.len();
        let pb = placed_blocks(b, e, obj as int, osz);
        let oi = placed_obj_idx(b, obj as int);
        let t = new.block_seq();
        lemma_placed_blocks(b, e, obj as int, osz);
        lemma_tiles_bounds(bs, lo, hi);
        lemma_splice_index(bs, i, i + 1, pb);
        assert forall|j: int|
            0 <= j < new.fl().len() implies is_free_node(t, #[trigger] new.fl()[j]) by {
            let a = new.fl()[j];
            assert(new.fl().contains(a));
            if s0.fl().contains(a) && a != (b + HEADER_SIZE) as usize {
                assert(is_free_node(bs, a));
                lemma_free_node_unique(bs, lo, hi, a);
                let i2 = free_node_idx(bs, a);
                assert(i2 != i);
                if i2 < i {
                    assert(t[i2] == bs[i2]);
                    assert(t[i2].free && a == t[i2].start + HEADER_SIZE);
                } else {
                    assert(t[i2 + pb.len() - 1] == bs[i2]);
                    assert(t[i2 + pb.len() - 1].free && a == t[i2 + pb.len() - 1].start
                        + HEADER_SIZE);
                }
            } else {
                assert(is_free_node(pb, a));
                let j2 = choose|j2: int|
                    0 <= j2 < pb.len() && (#[trigger] pb[j2]).free && a == pb[j2].start
                        + HEADER_SIZE;
                assert(t[i + j2] == pb[j2]);
                assert(t[i + j2].free && a == t[i + j2].start + HEADER_SIZE);
            }
        }
    }

    /// Objects after a placement splice: the placed object is new, and the
    /// old objects are untouched.
    #[verifier::rlimit(100)]
    proof fn lemma_place_splice_objs(
        s0: Self,
        new: Self,
        i: int,
        b: int,
        e: int,
        obj: usize,
        osz: int,
    )
        requires
            Self::place_splice_shape(s0, new, i, b, e, obj, osz),
            tiles(new.block_seq(), new.base as int, new.base + new.mem@.len()),
            new.wf(),
        ensures
            new.is_obj(obj),
            !s0.is_obj(obj),
            new.obj_size(obj) >= osz,
            new.obj_size(obj) < osz + BLOCK_MIN_SIZE,
            forall|p: usize|
                #[trigger] s0.is_obj(p) ==> new.is_obj(p) && new.obj_size(p) == s0.obj_size(p),
            forall|p: usize| #[trigger] new.is_obj(p) && p != obj ==> s0.is_obj(p),
    {
        reveal(RawMalloc::place_splice_shape);
        reveal(RawMalloc::cells_match);
        reveal(RawMalloc::fl_matches);
        reveal(RawMalloc::coupled);
        let bs = s0.block_seq();
        let lo = s0.base as int;
        let hi = s0.base + s0.mem@.len();
        let pb = placed_blocks(b, e, obj as int, osz);
        let oi = placed_obj_idx(b, obj as int);
        let t = new.block_seq();
        lemma_placed_blocks(b, e, obj as int, osz);
        lemma_splice_index(bs, i, i + 1, pb);
        lemma_tiles_block_in_range(bs, lo, hi, i);
        assert(t[i + oi] == pb[oi]);
        assert(new.obj_at(obj, i + oi));
        new.lemma_obj_unique(obj);
        if s0.is_obj(obj) {
            s0.lemma_obj_unique(obj);
            let i2 = s0.obj_idx(obj);
            assert(bs[i2].content() == obj && bs[i].start < obj < bs[i].end());
            if i2 < i {
                lemma_tiles_disjoint(bs, lo, hi, i2, i);
            } else if i2 > i {
                lemma_tiles_disjoint(bs, lo, hi, i, i2);
            }
            assert(false);
        }
        assert forall|p: usize|
            #[trigger] s0.is_obj(p) implies new.is_obj(p) && new.obj_size(p) == s0.obj_size(p) by {
            s0.lemma_obj_unique(p);
            let i2 = s0.obj_idx(p);
            assert(i2 != i);
            if i2 < i {
                assert(t[i2] == bs[i2]);
                assert(new.obj_at(p, i2));
            } else {
                assert(t[i2 + pb.len() - 1] == bs[i2]);
                assert(new.obj_at(p, i2 + pb.len() - 1));
            }
            new.lemma_obj_unique(p);
        }
        assert forall|p: usize| #[trigger] new.is_obj(p) && p != obj implies s0.is_obj(p) by {
            new.lemma_obj_unique(p);
            let i2 = new.obj_idx(p);
            if i2 < i {
                assert(t[i2] == bs[i2]);
                assert(s0.obj_at(p, i2));
            } else if i2 < i + pb.len() {
                assert(t[i2] == pb[i2 - i]);
                assert(i2 - i == oi);
                assert(p == obj);
            } else {
                assert(t[i2] == bs[i2 - pb.len() + 1]);
                assert(s0.obj_at(p, i2 - pb.len() + 1));
            }
        }
    }

    /// Splicing the blocks of a raw placement over a single free block whose
    /// node has been unlinked re-establishes the state invariant; the placed
    /// object is a new object and every old object is untouched.
    #[verifier::rlimit(100)]
    proof fn lemma_place_splice_wf(
        s0: Self,
        new: Self,
        i: int,
        b: int,
        e: int,
        obj: usize,
        osz: int,
    )
        requires
            Self::place_splice_shape(s0, new, i, b, e, obj, osz),
        ensures
            new.wf(),
            new.is_obj(obj),
            !s0.is_obj(obj),
            new.obj_size(obj) >= osz,
            new.obj_size(obj) < osz + BLOCK_MIN_SIZE,
            forall|p: usize|
                #[trigger] s0.is_obj(p) ==> new.is_obj(p) && new.obj_size(p) == s0.obj_size(p),
            forall|p: usize| #[trigger] new.is_obj(p) && p != obj ==> s0.is_obj(p),
    {
        reveal(RawMalloc::place_splice_shape);
        reveal(RawMalloc::cells_match);
        reveal(RawMalloc::fl_matches);
        reveal(RawMalloc::coupled);
        let bs = s0.block_seq();
        let lo = s0.base as int;
        let hi = s0.base + s0.mem@.len();
        let pb = placed_blocks(b, e, obj as int, osz);
        let oi = placed_obj_idx(b, obj as int);
        let t = new.block_seq();
        lemma_placed_blocks(b, e, obj as int, osz);
        lemma_tiles_bounds(bs, lo, hi);
        lemma_tiles_splice(bs, lo, hi, i, i + 1, pb);
        lemma_splice_index(bs, i, i + 1, pb);
        assert(tiles(t, lo, hi));
        lemma_tiles_bounds(t, lo, hi);
        Self::lemma_place_splice_cells(s0, new, i, b, e, obj, osz);
        Self::lemma_place_splice_fl1(s0, new, i, b, e, obj, osz);
        Self::lemma_place_splice_fl2(s0, new, i, b, e, obj, osz);
        assert(new.cells_match()) by {
            reveal(RawMalloc::cells_match);
        }
        assert(new.fl_matches()) by {
            reveal(RawMalloc::fl_matches);
        }
        assert(new.coupled()) by {
            reveal(RawMalloc::coupled);
        }
        assert(new.wf());
        Self::lemma_place_splice_objs(s0, new, i, b, e, obj, osz);
    }

    /// Finds the placement address for an object of `obj_size` bytes
    /// aligned to `obj_align` in the block `[block_start, block_end)`:
    /// the lowest aligned address at a valid prefix distance from the
    /// block's start that leaves room for the object. Fails exactly when
    /// the block admits no placement at all.
    fn find_place_in_block(
        block_start: usize,
        block_end: usize,
        obj_size: usize,
        obj_align: usize,
        Ghost(b): Ghost<Block>,
    ) -> (r: Result<usize, ()>)
        requires
            b.start == block_start,
            b.end() == block_end,
            block_start % HEADER_ALIGN == 0,
            obj_size % HEADER_SIZE == 0,
            NODE_SIZE <= obj_size <= usize::MAX / 2,
            is_pow2(obj_align as int),
            obj_align >= HEADER_ALIGN,
        ensures
            r.is_ok() ==> ({
                let obj = r.unwrap();
                &&& obj % obj_align == 0
                &&& obj % HEADER_ALIGN == 0
                &&& valid_prefix(obj - block_start)
                &&& obj + obj_size <= block_end
                &&& (forall|x: usize|
                    block_start <= x < obj && #[trigger] (x % obj_align) == 0 ==> !valid_prefix(
                        x - block_start,
                    ))
            }),
            r.is_err() ==> !placeable(b, obj_size as int, obj_align as int),
    {
        let obj_start = match find_place(block_start, obj_align) {
            Some(p) => p,
            None => {
                proof {
                    if placeable(b, obj_size as int, obj_align as int) {
                        let addr = choose|addr: int|
                            #[trigger] can_place_at(b, obj_size as int, obj_align as int, addr);
                        let x = addr as usize;
                        assert(block_start <= x && x % obj_align == 0);
                        assert(!valid_prefix(x - block_start));
                        assert(false);
                    }
                }
                return Err(());
            },
        };
        let fits = match checked_add(obj_start, obj_size) {
            Some(obj_end) => obj_end <= block_end,
            None => false,
        };
        if !fits {
            proof {
                if placeable(b, obj_size as int, obj_align as int) {
                    let addr = choose|addr: int|
                        #[trigger] can_place_at(b, obj_size as int, obj_align as int, addr);
                    let x = addr as usize;
                    assert(block_start <= x && x % obj_align == 0 && valid_prefix(
                        x - block_start,
                    ));
                    assert(x >= obj_start);
                    assert(false);
                }
            }
            return Err(());
        }
        proof {
            crate::util::lemma_pow2_constants();
            crate::util::lemma_aligned_to_smaller_pow2(
                obj_start as int,
                HEADER_ALIGN as int,
                obj_align as int,
            );
        }
        Ok(obj_start)
    }

    /// Unlinks the free block at `block_start` from the free list and
    /// rewrites its range around the object at `obj_start`.
    #[verifier::rlimit(100)]
    fn place_into_block(
        &mut self,
        block_start: usize,
        block_end: usize,
        obj_start: usize,
        obj_size: usize,
        Ghost(i): Ghost<int>,
    )
        requires
            old(self).wf(),
            0 <= i < old(self).block_seq().len(),
            old(self).block_seq()[i].start == block_start,
            old(self).block_seq()[i].end() == block_end,
            old(self).block_seq()[i].free,
            place_ok(block_start as int, block_end as int, obj_start as int, obj_size as int),
        ensures
            final(self).wf(),
            final(self).is_obj(obj_start),
            final(self).obj_size(obj_start) >= obj_size,
            final(self).obj_size(obj_start) < obj_size + BLOCK_MIN_SIZE,
            !old(self).is_obj(obj_start),
            final(self).heap_lo() == old(self).heap_lo(),
            final(self).heap_hi() == old(self).heap_hi(),
            final(self).heap_bytes() == old(self).heap_bytes(),
            final(self).grower == old(self).grower,
            forall|p: usize|
                #[trigger] old(self).is_obj(p) ==> final(self).is_obj(p) && final(self).obj_size(p)
                    == old(self).obj_size(p),
            forall|p: usize|
                #[trigger] final(self).is_obj(p) && p != obj_start ==> old(self).is_obj(p),
    {
        proof {
            reveal(RawMalloc::cells_match);
        reveal(RawMalloc::fl_matches);
        reveal(RawMalloc::coupled);
        }
        let ghost s0 = *self;
        let ghost bs = self.blocks@;
        let ghost lo = self.base as int;
        let ghost hi = self.base + self.mem@.len();
        proof {
            lemma_tiles_bounds(bs, lo, hi);
            assert(self.fl().contains((block_start + HEADER_SIZE) as usize));
        }
        let ghost fl0 = self.fl();
        proof {
            self.freelist.lemma_wf_view();
        }
        self.freelist.remove(block_start + HEADER_SIZE);
        proof {
            assert forall|j: int|
                0 <= j < self.freelist@.len() implies !(block_start
                < #[trigger] self.freelist@[j] && self.freelist@[j] <= block_end) by {
                let a = self.freelist@[j];
                assert(self.fl().contains(a));
                assert(fl0.contains(a) && a != (block_start + HEADER_SIZE) as usize);
                assert(is_free_node(bs, a));
                lemma_free_node_unique(bs, lo, hi, a);
                let i2 = free_node_idx(bs, a);
                assert(i2 != i);
                if i2 < i {
                    lemma_tiles_disjoint(bs, lo, hi, i2, i);
                } else {
                    lemma_tiles_disjoint(bs, lo, hi, i, i2);
                }
            }
        }
        self.place_raw(block_start, block_end, obj_start, obj_size);
        proof {
            let pb = placed_blocks(
                block_start as int,
                block_end as int,
                obj_start as int,
                obj_size as int,
            );
            self.blocks@ = bs.subrange(0, i) + pb + bs.subrange(i + 1, bs.len() as int);
            assert forall|a: usize|
                #[trigger] self.fl().contains(a) <==> ((s0.fl().contains(a) && a != (block_start
                    + HEADER_SIZE) as usize) || is_free_node(pb, a)) by {}
            assert(Self::place_splice_shape(
                s0,
                *self,
                i,
                block_start as int,
                block_end as int,
                obj_start,
                obj_size as int,
            )) by {
                reveal(RawMalloc::place_splice_shape);
            }
            Self::lemma_place_splice_wf(
                s0,
                *self,
                i,
                block_start as int,
                block_end as int,
                obj_start,
                obj_size as int,
            );
        }
    }

    /// Tries to place an object of `obj_size` bytes aligned to `obj_align`
    /// into the free block at `block_start`, creating additional free
    /// padding blocks where necessary. On success returns the address of the
    /// newly placed object; on failure the allocator is unchanged, and no
    /// placement exists in the block at all.
    #[verifier::rlimit(100)]
    #[verifier::spinoff_prover]
    fn try_place(
        &mut self,
        block_start: usize,
        obj_size: usize,
        obj_align: usize,
        Ghost(i): Ghost<int>,
    ) -> (r: Result<usize, ()>)
        requires
            old(self).wf(),
            0 <= i < old(self).block_seq().len(),
            old(self).block_seq()[i].start == block_start,
            old(self).block_seq()[i].free,
            obj_size % HEADER_SIZE == 0,
            NODE_SIZE <= obj_size <= usize::MAX / 2,
            is_pow2(obj_align as int),
            obj_align >= HEADER_ALIGN,
        ensures
            r.is_err() ==> final(self).wf() && final(self).block_seq() == old(self).block_seq()
                && final(self).fl() == old(self).fl() && final(self).heap_lo() == old(self).heap_lo()
                && final(self).heap_hi() == old(self).heap_hi() && final(self).heap_bytes() == old(self).heap_bytes()
                && final(self).hdrs@ == old(self).hdrs@ && final(self).grower == old(self).grower
                && !placeable(old(self).block_seq()[i], obj_size as int, obj_align as int),
            r.is_ok() ==> ({
                let obj = r.unwrap();
                &&& final(self).wf()
                &&& final(self).is_obj(obj)
                &&& obj % obj_align == 0
                &&& final(self).obj_size(obj) >= obj_size
                &&& final(self).obj_size(obj) < obj_size + BLOCK_MIN_SIZE
                &&& old(self).block_seq()[i].start < obj
                &&& obj + obj_size <= old(self).block_seq()[i].end()
                &&& valid_prefix(obj - old(self).block_seq()[i].start)
                &&& (forall|x: usize|
                    old(self).block_seq()[i].start <= x < obj && #[trigger] (x % obj_align) == 0
                        ==> !valid_prefix(x - old(self).block_seq()[i].start))
                &&& !old(self).is_obj(obj)
                &&& final(self).heap_lo() == old(self).heap_lo()
                &&& final(self).heap_hi() == old(self).heap_hi()
                &&& final(self).heap_bytes() == old(self).heap_bytes()
                &&& final(self).grower == old(self).grower
                &&& (forall|p: usize|
                    #[trigger] old(self).is_obj(p) ==> final(self).is_obj(p) && final(self).obj_size(p) == old(self).obj_size(p))
                &&& (forall|p: usize|
                    #[trigger] final(self).is_obj(p) && p != obj ==> old(self).is_obj(p))
            }),
    {
        let ghost s0 = *self;
        let ghost bs = self.blocks@;
        let ghost lo = self.base as int;
        let ghost hi = self.base + self.mem@.len();
        proof {
            assert(tiles(bs, lo, hi)) by {
                reveal(RawMalloc::cells_match);
        reveal(RawMalloc::fl_matches);
        reveal(RawMalloc::coupled);
            }
            lemma_tiles_bounds(bs, lo, hi);
        }
        let h = self.read_header(block_start, Ghost(i));
        let block_content_size = h.content_size();
        let block_end = block_start + HEADER_SIZE + block_content_size;
        let obj_start = match Self::find_place_in_block(
            block_start,
            block_end,
            obj_size,
            obj_align,
            Ghost(bs[i]),
        ) {
            Ok(p) => p,
            Err(()) => {
                return Err(());
            },
        };
        self.place_into_block(block_start, block_end, obj_start, obj_size, Ghost(i));
        Ok(obj_start)
    }

    /// Merges the free blocks that follow the free block holding the node at
    /// `node`, while there are any: each successor is unlinked from the free
    /// list and absorbed, header included, into the node's block.
    #[verifier::rlimit(100)]
    fn merge_subsequent_nodes(&mut self, node: usize)
        requires
            old(self).wf(),
            old(self).fl().contains(node),
        ensures
            final(self).wf(),
            Self::merge_inv(*old(self), *final(self), node),
            ({
                let bs1 = final(self).block_seq();
                let i1 = free_node_idx(bs1, node);
                let bs0 = old(self).block_seq();
                let i0 = free_node_idx(bs0, node);
                &&& is_free_node(bs1, node)
                &&& 0 <= i1 < bs1.len()
                &&& bs1[i1].free
                &&& bs1[i1].start == bs0[i0].start
                &&& bs1[i1].end() == free_run_end(bs0, i0)
                &&& (bs1[i1].end() == final(self).heap_hi() || (i1 + 1 < bs1.len() && !bs1[i1
                    + 1].free))
            }),
    {
        let ghost s0 = *self;
        proof {
            reveal(RawMalloc::merge_inv);
            assert(Self::merge_inv(s0, *self, node));
        }
        let heap_end = self.base + self.mem.len();
        loop
            invariant
                self.wf(),
                Self::merge_inv(s0, *self, node),
                heap_end == self.base + self.mem@.len(),
            ensures
                self.wf(),
                Self::merge_inv(s0, *self, node),
                heap_end == self.base + self.mem@.len(),
                ({
                    let bs1 = self.block_seq();
                    let i1 = free_node_idx(bs1, node);
                    &&& is_free_node(bs1, node)
                    &&& 0 <= i1 < bs1.len()
                    &&& bs1[i1].free
                    &&& free_run_end(bs1, i1) == bs1[i1].end()
                    &&& (bs1[i1].end() == self.heap_hi() || (i1 + 1 < bs1.len() && !bs1[i1
                        + 1].free))
                }),
            decreases self.block_seq().len(),
        {
            let ghost sp = *self;
            let ghost bs = self.blocks@;
            let ghost lo = self.base as int;
            let ghost hi = self.base + self.mem@.len();
            proof {
                reveal(RawMalloc::fl_matches);
                assert(self.fl().contains(node)) by {
                    reveal(RawMalloc::merge_inv);
                }
                let j = choose|j: int| 0 <= j < self.fl().len() && self.fl()[j] == node;
                assert(is_free_node(bs, node));
                lemma_free_node_unique(bs, lo, hi, node);
                lemma_tiles_bounds(bs, lo, hi);
            }
            let ghost i = free_node_idx(bs, node);
            let block_start = node - HEADER_SIZE;
            let h = self.read_header(block_start, Ghost(i));
            let csize = h.content_size();
            let next = node + csize;
            if next == heap_end {
                proof {
                    assert(free_node_idx(self.block_seq(), node) == i);
                    if i + 1 < bs.len() {
                        assert(bs[i].end() == bs[i + 1].start);
                        lemma_tiles_block_in_range(bs, lo, hi, i + 1);
                        assert(false);
                    }
                    assert(free_run_end(bs, i) == bs[i].end());
                }
                break;
            }
            proof {
                if i == bs.len() - 1 {
                    assert(bs[i].end() == hi);
                    assert(false);
                }
                assert(bs[i].end() == bs[i + 1].start);
            }
            let nh = self.read_header(next, Ghost(i + 1));
            if !nh.is_tagged() {
                proof {
                    assert(free_node_idx(self.block_seq(), node) == i);
                    assert(!bs[i + 1].free);
                    assert(free_run_end(bs, i) == bs[i].end());
                }
                break;
            }
            let nsize = nh.content_size();
            proof {
                assert(bs[i + 1].free);
            }
            self.absorb_successor(node, block_start, csize, next, nsize, Ghost(s0), Ghost(i));
        }
        proof {
            reveal(RawMalloc::merge_inv);
            let bs0 = s0.block_seq();
            let i0 = free_node_idx(bs0, node);
            assert(is_free_node(bs0, node)) by {
                reveal(RawMalloc::fl_matches);
                let j = choose|j: int| 0 <= j < s0.fl().len() && s0.fl()[j] == node;
            }
            lemma_free_node_unique(bs0, s0.heap_lo(), s0.heap_hi(), node);
            let bs1 = self.block_seq();
            let i1 = free_node_idx(bs1, node);
            lemma_free_node_unique(bs1, self.heap_lo(), self.heap_hi(), node);
            assert(free_block_of(bs1, node) == bs1[i1]);
            assert(free_block_of(bs0, node) == bs0[i0]);
        }
    }

    /// Absorbs the free block that immediately follows the free block
    /// holding `node`: the successor's node leaves the free list and its
    /// header and content are added to the node's block.
    #[verifier::rlimit(100)]
    fn absorb_successor(
        &mut self,
        node: usize,
        block_start: usize,
        csize: usize,
        next: usize,
        nsize: usize,
        Ghost(s0): Ghost<Self>,
        Ghost(i): Ghost<int>,
    )
        requires
            old(self).wf(),
            Self::merge_inv(s0, *old(self), node),
            is_free_node(old(self).block_seq(), node),
            free_node_idx(old(self).block_seq(), node) == i,
            0 <= i < old(self).block_seq().len() - 1,
            old(self).block_seq()[i].start == block_start,
            old(self).block_seq()[i].size == csize,
            old(self).block_seq()[i].end() == next,
            old(self).block_seq()[i + 1].free,
            old(self).block_seq()[i + 1].size == nsize,
            node == block_start + HEADER_SIZE,
        ensures
            final(self).wf(),
            Self::merge_inv(s0, *final(self), node),
            final(self).block_seq().len() < old(self).block_seq().len(),
            final(self).base == old(self).base,
            final(self).mem@ == old(self).mem@,
    {
        let ghost sp = *self;
        let ghost bs = self.blocks@;
        let ghost lo = self.base as int;
        let ghost hi = self.base + self.mem@.len();
        let ghost removed = (next + HEADER_SIZE) as usize;
        proof {
            reveal(RawMalloc::fl_matches);
            lemma_tiles_block_in_range(bs, lo, hi, i);
            lemma_tiles_block_in_range(bs, lo, hi, i + 1);
            assert(bs[i].end() == bs[i + 1].start);
            assert(bs[i + 1].free);
            assert(self.fl().contains(removed));
            assert(removed != node);
            lemma_free_node_unique(bs, lo, hi, removed);
            assert(free_node_idx(bs, removed) == i + 1);
        }
        let ghost fl_pre = self.fl();
        proof {
            self.freelist.lemma_wf_view();
            assert(self.fl().contains(node)) by {
                reveal(RawMalloc::merge_inv);
            }
        }
        self.freelist.remove(next + HEADER_SIZE);
        proof {
            crate::freelist::Freelist::lemma_index_of(fl_pre, removed);
            lemma_suffix_len_remove(fl_pre, node, fl_pre.index_of(removed));
        }
        proof {
            assert(node + csize + HEADER_SIZE + nsize == bs[i + 1].end());
            crate::util::lemma_mod_divides_trans(
                csize + HEADER_SIZE + nsize,
                2,
                HEADER_SIZE as int,
            );
        }
        self.set_header(block_start, csize + HEADER_SIZE + nsize, true);
        let ghost merged = Block {
            start: bs[i].start,
            size: bs[i].size + HEADER_SIZE + bs[i + 1].size,
            free: true,
        };
        proof {
            self.blocks@ = bs.subrange(0, i) + seq![merged] + bs.subrange(i + 2, bs.len() as int);
            assert(Self::merge_step_shape(sp, *self, node)) by {
                reveal(RawMalloc::merge_step_shape);
            }
            Self::lemma_merge_step(s0, sp, *self, node);
        }
    }

    /// The relations the coalescing loop maintains between the starting
    /// state `s0` and the current state `cur`: the heap range and bytes are
    /// unchanged, the free list has only lost entries and the node has only
    /// moved towards the front of it, and the objects are untouched.
    #[verifier::opaque]
    spec fn merge_inv(s0: Self, cur: Self, node: usize) -> bool {
        &&& cur.base == s0.base
        &&& cur.mem@ == s0.mem@
        &&& cur.grower == s0.grower
        &&& cur.fl().contains(node)
        &&& (forall|a: usize| #[trigger] cur.fl().contains(a) ==> s0.fl().contains(a))
        &&& suffix_len(cur.fl(), node) <= suffix_len(s0.fl(), node)
        &&& (forall|p: usize|
            #[trigger] s0.is_obj(p) ==> cur.is_obj(p) && cur.obj_size(p) == s0.obj_size(p))
        &&& (forall|p: usize| #[trigger] cur.is_obj(p) ==> s0.is_obj(p))
        &&& free_block_of(cur.block_seq(), node).start == free_block_of(
            s0.block_seq(),
            node,
        ).start
        &&& free_block_of(cur.block_seq(), node).end() >= free_block_of(
            s0.block_seq(),
            node,
        ).end()
        &&& free_run_end(cur.block_seq(), free_node_idx(cur.block_seq(), node)) == free_run_end(
            s0.block_seq(),
            free_node_idx(s0.block_seq(), node),
        )
        &&& (forall|a: usize|
            #[trigger] cur.fl().contains(a) && a != node ==> free_block_of(cur.block_seq(), a)
                == free_block_of(s0.block_seq(), a))
        &&& (forall|a: usize|
            #[trigger] cur.fl().contains(a) ==> free_block_of(cur.block_seq(), a).start
                == free_block_of(s0.block_seq(), a).start && free_run_end(
                cur.block_seq(),
                free_node_idx(cur.block_seq(), a),
            ) == free_run_end(s0.block_seq(), free_node_idx(s0.block_seq(), a)))
        &&& (forall|a: usize|
            #[trigger] cur.fl().contains(a) && a != node ==> ((suffix_len(cur.fl(), a)
                < suffix_len(cur.fl(), node)) <==> (suffix_len(s0.fl(), a) < suffix_len(
                s0.fl(),
                node,
            ))))
        &&& (forall|a: usize, b: usize|
            #[trigger] cur.fl().contains(a) && #[trigger] cur.fl().contains(b) ==> ((suffix_len(
                cur.fl(),
                a,
            ) < suffix_len(cur.fl(), b)) <==> (suffix_len(s0.fl(), a) < suffix_len(s0.fl(), b))))
        &&& (forall|a: usize|
            s0.fl().contains(a) && !(#[trigger] cur.fl().contains(a)) ==> ({
                let m = free_block_of(cur.block_seq(), node);
                let ob = free_block_of(s0.block_seq(), a);
                &&& m.start + BLOCK_MIN_SIZE <= ob.start
                &&& ob.end() <= m.end()
            }))
    }

    /// The shape of one coalescing step: `new` is `sp` with the free block
    /// holding `node` enlarged by its free memory-successor, which has been
    /// unlinked from the free list, and with the matching header written.
    #[verifier::opaque]
    spec fn merge_step_shape(sp: Self, new: Self, node: usize) -> bool {
        let bs = sp.block_seq();
        let i = free_node_idx(bs, node);
        let removed = (bs[i + 1].start + HEADER_SIZE) as usize;
        let merged = Block {
            start: bs[i].start,
            size: bs[i].size + HEADER_SIZE + bs[i + 1].size,
            free: true,
        };
        &&& is_free_node(bs, node)
        &&& 0 <= i < bs.len() - 1
        &&& bs[i + 1].free
        &&& new.base == sp.base
        &&& new.mem@ == sp.mem@
        &&& new.grower == sp.grower
        &&& new.block_seq() == bs.subrange(0, i) + seq![merged] + bs.subrange(
            i + 2,
            bs.len() as int,
        )
        &&& new.freelist.wf()
        &&& (forall|a: usize|
            #[trigger] new.fl().contains(a) <==> (sp.fl().contains(a) && a != removed))
        &&& new.fl() == sp.fl().remove(sp.fl().index_of(removed))
        &&& sp.fl().contains(removed)
        &&& suffix_len(new.fl(), node) <= suffix_len(sp.fl(), node)
        &&& new.fl().contains(node)
        &&& new.hdrs@.len() == sp.hdrs@.len()
        &&& ({
            let k = (merged.start - new.base) / (HEADER_SIZE as int);
            &&& 0 <= k < new.hdrs@.len()
            &&& new.hdrs@[k].spec_content_size() == merged.size
            &&& new.hdrs@[k].spec_is_tagged()
            &&& (forall|k2: int|
                0 <= k2 < new.hdrs@.len() && k2 != k ==> #[trigger] new.hdrs@[k2]
                    == sp.hdrs@[k2])
        })
    }

    #[verifier::rlimit(100)]
    #[verifier::spinoff_prover]
    proof fn lemma_merge_step_tiles(sp: Self, new: Self, node: usize)
        requires
            tiles(sp.block_seq(), sp.base as int, sp.base + sp.mem@.len()),
            is_free_node(sp.block_seq(), node),
            ({
                let bs = sp.block_seq();
                let i = free_node_idx(bs, node);
                let merged = Block {
                    start: bs[i].start,
                    size: bs[i].size + HEADER_SIZE + bs[i + 1].size,
                    free: true,
                };
                &&& 0 <= i < bs.len() - 1
                &&& bs[i + 1].free
                &&& new.base == sp.base
                &&& new.mem@ == sp.mem@
                &&& new.block_seq() == bs.subrange(0, i) + seq![merged] + bs.subrange(
                    i + 2,
                    bs.len() as int,
                )
            }),
        ensures
            tiles(new.block_seq(), new.base as int, new.base + new.mem@.len()),
            new.block_seq().len() < sp.block_seq().len(),
            ({
                let bs = sp.block_seq();
                let i = free_node_idx(bs, node);
                new.block_seq()[i] == Block {
                    start: bs[i].start,
                    size: bs[i].size + HEADER_SIZE + bs[i + 1].size,
                    free: true,
                }
            }),
    {
        let bs = sp.block_seq();
        let lo = sp.base as int;
        let hi = sp.base + sp.mem@.len();
        lemma_free_node_unique(bs, lo, hi, node);
        let i = free_node_idx(bs, node);
        lemma_tiles_block_in_range(bs, lo, hi, i);
        lemma_tiles_block_in_range(bs, lo, hi, i + 1);
        let merged = Block {
            start: bs[i].start,
            size: bs[i].size + HEADER_SIZE + bs[i + 1].size,
            free: true,
        };
        assert(tiles(seq![merged], bs[i].start, bs[i + 1].end())) by {
            assert(merged.wf());
            assert(merged.end() == bs[i + 1].end());
        }
        lemma_tiles_splice(bs, lo, hi, i, i + 2, seq![merged]);
        lemma_splice_index(bs, i, i + 2, seq![merged]);
    }

    /// One coalescing step keeps every block's header cell in step with the
    /// blocks.
    #[verifier::rlimit(100)]
    proof fn lemma_merge_step_cells(sp: Self, new: Self, node: usize)
        requires
            sp.wf(),
            sp.fl().contains(node),
            Self::merge_step_shape(sp, new, node),
        ensures
            ({
                let t = new.block_seq();
                forall|i2: int|
                    0 <= i2 < t.len() ==> {
                        let b = #[trigger] t[i2];
                        let k = (b.start - new.base) / (HEADER_SIZE as int);
                        &&& 0 <= k < new.hdrs@.len()
                        &&& new.hdrs@[k].spec_content_size() == b.size
                        &&& new.hdrs@[k].spec_is_tagged() == b.free
                    }
            }),
    {
        reveal(RawMalloc::cells_match);
        reveal(RawMalloc::merge_step_shape);
        let bs = sp.block_seq();
        let lo = sp.base as int;
        let hi = sp.base + sp.mem@.len();
        lemma_free_node_unique(bs, lo, hi, node);
        let i = free_node_idx(bs, node);
        lemma_tiles_block_in_range(bs, lo, hi, i);
        lemma_tiles_block_in_range(bs, lo, hi, i + 1);
        let merged = Block {
            start: bs[i].start,
            size: bs[i].size + HEADER_SIZE + bs[i + 1].size,
            free: true,
        };
        let t = new.block_seq();
        lemma_splice_index(bs, i, i + 2, seq![merged]);
        assert forall|i2: int| 0 <= i2 < t.len() implies {
            let b = #[trigger] t[i2];
            let k = (b.start - new.base) / (HEADER_SIZE as int);
            &&& 0 <= k < new.hdrs@.len()
            &&& new.hdrs@[k].spec_content_size() == b.size
            &&& new.hdrs@[k].spec_is_tagged() == b.free
        } by {
            let b = t[i2];
            Self::lemma_cell_addr(lo, b.start);
            Self::lemma_cell_addr(lo, merged.start);
            if i2 < i {
                assert(b == bs[i2]);
                lemma_tiles_disjoint(bs, lo, hi, i2, i);
            } else if i2 == i {
                assert(b == merged);
            } else {
                assert(b == bs[i2 + 1]);
                lemma_tiles_disjoint(bs, lo, hi, i + 1, i2 + 1);
            }
        }
    }

    /// One coalescing step keeps the free list and the free blocks in step:
    /// every free block's node is listed and every listed node heads a free
    /// block.
    #[verifier::rlimit(100)]
    proof fn lemma_merge_step_fl(sp: Self, new: Self, node: usize)
        requires
            sp.wf(),
            sp.fl().contains(node),
            Self::merge_step_shape(sp, new, node),
        ensures
            ({
                let t = new.block_seq();
                &&& (forall|i2: int|
                    0 <= i2 < t.len() && (#[trigger] t[i2]).free ==> new.fl().contains(
                        (t[i2].start + HEADER_SIZE) as usize,
                    ))
                &&& (forall|j: int|
                    0 <= j < new.fl().len() ==> is_free_node(t, #[trigger] new.fl()[j]))
            }),
    {
        reveal(RawMalloc::fl_matches);
        reveal(RawMalloc::merge_step_shape);
        let bs = sp.block_seq();
        let lo = sp.base as int;
        let hi = sp.base + sp.mem@.len();
        lemma_free_node_unique(bs, lo, hi, node);
        let i = free_node_idx(bs, node);
        lemma_tiles_block_in_range(bs, lo, hi, i);
        lemma_tiles_block_in_range(bs, lo, hi, i + 1);
        let removed = (bs[i + 1].start + HEADER_SIZE) as usize;
        let merged = Block {
            start: bs[i].start,
            size: bs[i].size + HEADER_SIZE + bs[i + 1].size,
            free: true,
        };
        assert(removed != node);
        lemma_free_node_unique(bs, lo, hi, removed);
        assert(free_node_idx(bs, removed) == i + 1);
        let t = new.block_seq();
        lemma_splice_index(bs, i, i + 2, seq![merged]);
        assert(t[i] == merged);
        assert forall|i2: int|
            0 <= i2 < t.len() && (#[trigger] t[i2]).free implies new.fl().contains(
            (t[i2].start + HEADER_SIZE) as usize,
        ) by {
            if i2 < i {
                assert(t[i2] == bs[i2]);
                assert(sp.fl().contains((bs[i2].start + HEADER_SIZE) as usize));
                assert((bs[i2].start + HEADER_SIZE) as usize != removed) by {
                    lemma_tiles_block_in_range(bs, lo, hi, i2);
                    lemma_tiles_block_in_range(bs, lo, hi, i + 1);
                    if (bs[i2].start + HEADER_SIZE) as usize == removed {
                        lemma_tiles_disjoint(bs, lo, hi, i2, i + 1);
                    }
                }
            } else if i2 == i {
                assert(t[i2].start + HEADER_SIZE == node);
                assert(sp.fl().contains(node));
            } else {
                assert(t[i2] == bs[i2 + 1]);
                assert(sp.fl().contains((bs[i2 + 1].start + HEADER_SIZE) as usize));
                assert((bs[i2 + 1].start + HEADER_SIZE) as usize != removed) by {
                    lemma_tiles_block_in_range(bs, lo, hi, i2 + 1);
                    lemma_tiles_block_in_range(bs, lo, hi, i + 1);
                    if (bs[i2 + 1].start + HEADER_SIZE) as usize == removed {
                        lemma_tiles_disjoint(bs, lo, hi, i + 1, i2 + 1);
                    }
                }
            }
        }
        assert forall|j: int|
            0 <= j < new.fl().len() implies is_free_node(t, #[trigger] new.fl()[j]) by {
            let a = new.fl()[j];
            assert(new.fl().contains(a));
            assert(sp.fl().contains(a) && a != removed);
            assert(is_free_node(bs, a));
            lemma_free_node_unique(bs, lo, hi, a);
            let i2 = free_node_idx(bs, a);
            assert(i2 != i + 1);
            if i2 < i {
                assert(t[i2] == bs[i2]);
                assert(t[i2].free && a == t[i2].start + HEADER_SIZE);
            } else if i2 == i {
                assert(t[i].free && a == t[i].start + HEADER_SIZE);
            } else {
                assert(t[i2 - 1] == bs[i2]);
                assert(t[i2 - 1].free && a == t[i2 - 1].start + HEADER_SIZE);
            }
        }
    }

    /// One coalescing step preserves the state invariant.
    #[verifier::rlimit(100)]
    proof fn lemma_merge_step_wf(sp: Self, new: Self, node: usize)
        requires
            sp.wf(),
            sp.fl().contains(node),
            Self::merge_step_shape(sp, new, node),
        ensures
            new.wf(),
            new.block_seq().len() < sp.block_seq().len(),
            ({
                let bs = sp.block_seq();
                let i = free_node_idx(bs, node);
                &&& is_free_node(new.block_seq(), node)
                &&& free_node_idx(new.block_seq(), node) == i
                &&& free_block_of(new.block_seq(), node) == Block {
                    start: bs[i].start,
                    size: bs[i].size + HEADER_SIZE + bs[i + 1].size,
                    free: true,
                }
            }),
    {
        reveal(RawMalloc::cells_match);
        reveal(RawMalloc::fl_matches);
        reveal(RawMalloc::coupled);
        reveal(RawMalloc::merge_step_shape);
        let bs = sp.block_seq();
        let lo = sp.base as int;
        let hi = sp.base + sp.mem@.len();
        lemma_free_node_unique(bs, lo, hi, node);
        let i = free_node_idx(bs, node);
        let merged = Block {
            start: bs[i].start,
            size: bs[i].size + HEADER_SIZE + bs[i + 1].size,
            free: true,
        };
        let t = new.block_seq();
        Self::lemma_merge_step_tiles(sp, new, node);
        Self::lemma_merge_step_cells(sp, new, node);
        Self::lemma_merge_step_fl(sp, new, node);
        assert(new.wf());
        assert(is_free_node(t, node)) by {
            assert(t[i].free && node == t[i].start + HEADER_SIZE);
        }
        lemma_free_node_unique(t, lo, hi, node);
        assert(free_block_of(t, node) == merged);
    }

    /// One coalescing step: absorbing the free successor of the free block
    /// holding `node` preserves the state invariant and the merge loop's
    /// relations to the starting state `s0`.
    #[verifier::rlimit(100)]
    proof fn lemma_merge_step(s0: Self, sp: Self, new: Self, node: usize)
        requires
            sp.wf(),
            Self::merge_inv(s0, sp, node),
            Self::merge_step_shape(sp, new, node),
        ensures
            new.wf(),
            new.block_seq().len() < sp.block_seq().len(),
            Self::merge_inv(s0, new, node),
    {
        reveal(RawMalloc::cells_match);
        reveal(RawMalloc::fl_matches);
        reveal(RawMalloc::coupled);
        reveal(RawMalloc::merge_step_shape);
        reveal(RawMalloc::merge_inv);
        Self::lemma_merge_step_wf(sp, new, node);
        let bs = sp.block_seq();
        let lo = sp.base as int;
        let hi = sp.base + sp.mem@.len();
        lemma_free_node_unique(bs, lo, hi, node);
        let i = free_node_idx(bs, node);
        lemma_tiles_block_in_range(bs, lo, hi, i);
        lemma_tiles_block_in_range(bs, lo, hi, i + 1);
        let merged = Block {
            start: bs[i].start,
            size: bs[i].size + HEADER_SIZE + bs[i + 1].size,
            free: true,
        };
        let t = new.block_seq();
        lemma_splice_index(bs, i, i + 2, seq![merged]);
        assert(t[i] == merged);
        assert forall|p: usize|
            #[trigger] sp.is_obj(p) implies new.is_obj(p) && new.obj_size(p) == sp.obj_size(p) by {
            sp.lemma_obj_unique(p);
            let i2 = sp.obj_idx(p);
            assert(!bs[i2].free);
            assert(i2 != i && i2 != i + 1);
            if i2 < i {
                assert(t[i2] == bs[i2]);
                assert(new.obj_at(p, i2));
            } else {
                assert(t[i2 - 1] == bs[i2]);
                assert(new.obj_at(p, i2 - 1));
            }
            new.lemma_obj_unique(p);
        }
        assert forall|p: usize| #[trigger] new.is_obj(p) implies sp.is_obj(p) by {
            new.lemma_obj_unique(p);
            let i2 = new.obj_idx(p);
            assert(i2 != i);
            if i2 < i {
                assert(t[i2] == bs[i2]);
                assert(sp.obj_at(p, i2));
            } else {
                assert(t[i2] == bs[i2 + 1]);
                assert(sp.obj_at(p, i2 + 1));
            }
        }
        // the node's block, the other listed blocks, and the absorbed run
        let removed = (bs[i + 1].start + HEADER_SIZE) as usize;
        assert(is_free_node(t, node)) by {
            assert(t[i].free && node == t[i].start + HEADER_SIZE);
        }
        lemma_free_node_unique(t, lo, hi, node);
        assert(free_node_idx(t, node) == i);
        assert(free_block_of(t, node) == merged);
        assert(free_block_of(bs, node) == bs[i]);
        assert(removed != node);
        assert(free_run_end(t, i) == free_run_end(bs, i)) by {
            assert forall|j2: int| i + 1 <= j2 < t.len() implies #[trigger] t[j2] == bs[j2 + 1]
                by {}
            lemma_free_run_end_absorb(bs, t, i, i);
        }
        assert forall|a: usize|
            #[trigger] new.fl().contains(a) && a != node implies free_block_of(t, a)
            == free_block_of(s0.block_seq(), a) by {
            assert(sp.fl().contains(a) && a != removed);
            assert(is_free_node(bs, a));
            lemma_free_node_unique(bs, lo, hi, a);
            let i2 = free_node_idx(bs, a);
            lemma_tiles_block_in_range(bs, lo, hi, i2);
            assert(i2 != i + 1);
            assert(i2 != i) by {
                if i2 == i {
                    assert(a == node);
                }
            }
            if i2 < i {
                assert(t[i2] == bs[i2]);
                assert(is_free_node(t, a)) by {
                    assert(t[i2].free && a == t[i2].start + HEADER_SIZE);
                }
                lemma_free_node_unique(t, lo, hi, a);
                assert(free_node_idx(t, a) == i2);
            } else {
                assert(t[i2 - 1] == bs[i2]);
                assert(is_free_node(t, a)) by {
                    assert(t[i2 - 1].free && a == t[i2 - 1].start + HEADER_SIZE);
                }
                lemma_free_node_unique(t, lo, hi, a);
                assert(free_node_idx(t, a) == i2 - 1);
            }
            assert(free_block_of(bs, a) == free_block_of(s0.block_seq(), a));
        }
        assert forall|a: usize|
            s0.fl().contains(a) && !(#[trigger] new.fl().contains(a)) implies ({
            let m = free_block_of(t, node);
            let ob = free_block_of(s0.block_seq(), a);
            &&& m.start + BLOCK_MIN_SIZE <= ob.start
            &&& ob.end() <= m.end()
        }) by {
            if sp.fl().contains(a) {
                assert(a == removed);
                assert(a != node);
                assert(free_block_of(bs, a) == free_block_of(s0.block_seq(), a));
                lemma_free_node_unique(bs, lo, hi, a);
                assert(free_node_idx(bs, a) == i + 1);
                assert(free_block_of(bs, a) == bs[i + 1]);
                assert(bs[i].end() == bs[i + 1].start);
                assert(merged.start + BLOCK_MIN_SIZE <= bs[i + 1].start);
                assert(bs[i + 1].end() == merged.end());
            } else {
                let m0 = free_block_of(bs, node);
                let ob = free_block_of(s0.block_seq(), a);
                assert(m0.start + BLOCK_MIN_SIZE <= ob.start && ob.end() <= m0.end());
                assert(merged.start == m0.start && merged.end() >= m0.end());
            }
        }
        assert forall|a: usize|
            #[trigger] new.fl().contains(a) && a != node implies ((suffix_len(new.fl(), a)
            < suffix_len(new.fl(), node)) <==> (suffix_len(s0.fl(), a) < suffix_len(
            s0.fl(),
            node,
        ))) by {
            assert(sp.fl().contains(a) && a != removed);
            sp.freelist.lemma_wf_view();
            crate::freelist::Freelist::lemma_index_of(sp.fl(), removed);
            let jr = sp.fl().index_of(removed);
            assert(sp.fl()[jr] != a && sp.fl()[jr] != node);
            lemma_suffix_order_remove(sp.fl(), a, node, jr);
        }
        assert forall|a: usize, b: usize|
            #[trigger] new.fl().contains(a) && #[trigger] new.fl().contains(b) implies ((
        suffix_len(new.fl(), a) < suffix_len(new.fl(), b)) <==> (suffix_len(sp.fl(), a)
            < suffix_len(sp.fl(), b))) by {
            assert(sp.fl().contains(a) && a != removed);
            assert(sp.fl().contains(b) && b != removed);
            sp.freelist.lemma_wf_view();
            crate::freelist::Freelist::lemma_index_of(sp.fl(), removed);
            let jr = sp.fl().index_of(removed);
            assert(sp.fl()[jr] != a && sp.fl()[jr] != b);
            if a != b {
                lemma_suffix_order_remove(sp.fl(), a, b, jr);
            }
        }
        assert forall|a: usize|
            #[trigger] new.fl().contains(a) implies free_block_of(t, a).start == free_block_of(
            s0.block_seq(),
            a,
        ).start && free_run_end(t, free_node_idx(t, a)) == free_run_end(
            s0.block_seq(),
            free_node_idx(s0.block_seq(), a),
        ) by {
            if a == node {
                assert(free_node_idx(t, node) == i);
                assert(free_node_idx(bs, node) == i);
            } else {
                assert(sp.fl().contains(a) && a != removed);
                assert(is_free_node(bs, a));
                lemma_free_node_unique(bs, lo, hi, a);
                let i2 = free_node_idx(bs, a);
                lemma_tiles_block_in_range(bs, lo, hi, i2);
                assert(i2 != i + 1);
                assert(i2 != i) by {
                    if i2 == i {
                        assert(a == node);
                    }
                }
                if i2 < i {
                    assert(is_free_node(t, a)) by {
                        assert(t[i2] == bs[i2]);
                        assert(t[i2].free && a == t[i2].start + HEADER_SIZE);
                    }
                    lemma_free_node_unique(t, lo, hi, a);
                    assert(free_node_idx(t, a) == i2);
                    assert(free_run_end(t, i2) == free_run_end(bs, i2)) by {
                        assert forall|j: int| i2 <= j < i implies #[trigger] t[j] == bs[j] by {}
                        assert(t[i].free == bs[i].free);
                        lemma_free_run_end_prefix_eq(bs, t, i2, i);
                    }
                } else {
                    assert(is_free_node(t, a)) by {
                        assert(t[i2 - 1] == bs[i2]);
                        assert(t[i2 - 1].free && a == t[i2 - 1].start + HEADER_SIZE);
                    }
                    lemma_free_node_unique(t, lo, hi, a);
                    assert(free_node_idx(t, a) == i2 - 1);
                    assert(free_run_end(t, i2 - 1) == free_run_end(bs, i2)) by {
                        assert forall|j2: int|
                            i + 1 <= j2 < t.len() implies #[trigger] t[j2] == bs[j2 + 1] by {}
                        lemma_free_run_end_absorb(bs, t, i, i2 - 1);
                    }
                }
                assert(free_block_of(t, a) == free_block_of(bs, a));
                assert(free_block_of(bs, a).start == free_block_of(s0.block_seq(), a).start);
                assert(free_run_end(bs, i2) == free_run_end(
                    s0.block_seq(),
                    free_node_idx(s0.block_seq(), a),
                )) by {
                    assert(free_node_idx(bs, a) == i2);
                }
            }
        }
    }

    /// Frees the block at `block_start`: tags its header free and pushes its
    /// content onto the free list. No coalescing happens here; merging with
    /// neighbours is deferred to the next allocation scan.
    fn free_block(&mut self, block_start: usize, Ghost(i): Ghost<int>)
        requires
            old(self).wf(),
            0 <= i < old(self).block_seq().len(),
            old(self).block_seq()[i].start == block_start,
            !old(self).block_seq()[i].free,
        ensures
            final(self).wf(),
            final(self).block_seq() == old(self).block_seq().update(
                i,
                Block {
                    start: old(self).block_seq()[i].start,
                    size: old(self).block_seq()[i].size,
                    free: true,
                },
            ),
            final(self).heap_lo() == old(self).heap_lo(),
            final(self).heap_hi() == old(self).heap_hi(),
            final(self).heap_bytes() == old(self).heap_bytes(),
            final(self).grower == old(self).grower,
            final(self).fl() == seq![(block_start + HEADER_SIZE) as usize] + old(self).fl(),
    {
        proof {
            reveal(RawMalloc::cells_match);
        reveal(RawMalloc::fl_matches);
        reveal(RawMalloc::coupled);
        }
        let ghost bs = self.blocks@;
        proof {
            lemma_tiles_bounds(bs, self.base as int, self.base + self.mem@.len());
            Self::lemma_cell_addr(self.base as int, block_start as int);
            // the content of an occupied block is on the free list only if
            // some free block starts at the same address
            if self.freelist@.contains((block_start + HEADER_SIZE) as usize) {
                let j = self.freelist@.index_of((block_start + HEADER_SIZE) as usize);
                assert(is_free_node(bs, self.freelist@[j]));
                let i2 = choose|i2: int|
                    0 <= i2 < bs.len() && (#[trigger] bs[i2]).free && self.freelist@[j] == bs[i2].start + HEADER_SIZE;
                assert(bs[i2].start == block_start);
                if i2 < i {
                    lemma_tiles_disjoint(bs, self.base as int, self.base + self.mem@.len(), i2, i);
                } else if i2 > i {
                    lemma_tiles_disjoint(bs, self.base as int, self.base + self.mem@.len(), i, i2);
                }
                assert(false);
            }
        }
        let k = (block_start - self.base) / HEADER_SIZE;
        let h = self.hdrs[k];
        let h2 = h.tagged();
        self.hdrs.set(k, h2);
        self.freelist.push_front(block_start + HEADER_SIZE);
        proof {
            let nb = Block { start: bs[i].start, size: bs[i].size, free: true };
            self.blocks@ = bs.update(i, nb);
            let t = self.blocks@;
            assert forall|j: int| 0 <= j < t.len() implies (#[trigger] t[j]).wf() by {
                if j != i {
                    assert(t[j] == bs[j]);
                }
            }
            assert forall|j: int|
                0 <= j < t.len() - 1 implies (#[trigger] t[j]).end() == t[j + 1].start by {}
            assert(tiles(t, self.base as int, self.base + self.mem@.len()));
            assert forall|j: int| 0 <= j < t.len() implies {
                let b = #[trigger] t[j];
                let k2 = (b.start - self.base) / (HEADER_SIZE as int);
                &&& 0 <= k2 < self.hdrs@.len()
                &&& self.hdrs@[k2].spec_content_size() == b.size
                &&& self.hdrs@[k2].spec_is_tagged() == b.free
            } by {
                let b = t[j];
                Self::lemma_cell_addr(self.base as int, b.start);
                if j != i {
                    assert(b == bs[j]);
                    assert(b.start != block_start) by {
                        if j < i {
                            lemma_tiles_disjoint(bs, self.base as int, self.base + self.mem@.len(), j, i);
                        } else {
                            lemma_tiles_disjoint(bs, self.base as int, self.base + self.mem@.len(), i, j);
                        }
                    }
                }
            }
            assert forall|j: int|
                0 <= j < t.len() && (#[trigger] t[j]).free implies self.freelist@.contains(
                (t[j].start + HEADER_SIZE) as usize,
            ) by {
                if j != i {
                    assert(bs[j].free);
                    assert(old(self).freelist@.contains((bs[j].start + HEADER_SIZE) as usize));
                }
            }
            assert forall|j: int|
                0 <= j < self.freelist@.len() implies is_free_node(t, #[trigger] self.freelist@[j])
                by {
                if self.freelist@[j] == (block_start + HEADER_SIZE) as usize {
                    assert(t[i].free && t[i].start + HEADER_SIZE == self.freelist@[j]);
                } else {
                    assert(old(self).freelist@.contains(self.freelist@[j]));
                    assert(is_free_node(bs, self.freelist@[j]));
                    let i2 = choose|i2: int|
                        0 <= i2 < bs.len() && (#[trigger] bs[i2]).free
                            && self.freelist@[j] == bs[i2].start + HEADER_SIZE;
                    assert(t[i2].free && t[i2].start + HEADER_SIZE == self.freelist@[j]);
                }
            }
        }
    }

    /// Deallocates the object at `obj_start`: the block becomes free and its
    /// content joins the free list. The stated layout is not needed by the
    /// model; the pointer must be one the allocator handed out and not yet
    /// deallocated.
    pub fn dealloc(&mut self, obj_start: usize, _size: usize, _align: usize)
        requires
            old(self).wf(),
            old(self).is_obj(obj_start),
        ensures
            final(self).wf(),
            !final(self).is_obj(obj_start),
            final(self).block_seq() == old(self).block_seq().update(
                old(self).obj_idx(obj_start),
                Block {
                    start: obj_start - HEADER_SIZE,
                    size: old(self).obj_size(obj_start),
                    free: true,
                },
            ),
            forall|p: usize|
                #[trigger] old(self).is_obj(p) && p != obj_start ==> final(self).is_obj(p)
                    && final(self).obj_size(p) == old(self).obj_size(p),
            forall|p: usize| #[trigger] final(self).is_obj(p) ==> old(self).is_obj(p),
            final(self).heap_lo() == old(self).heap_lo(),
            final(self).heap_hi() == old(self).heap_hi(),
            final(self).heap_bytes() == old(self).heap_bytes(),
            final(self).fl() == seq![obj_start] + old(self).fl(),
    {
        proof {
            reveal(RawMalloc::cells_match);
        reveal(RawMalloc::fl_matches);
        reveal(RawMalloc::coupled);
        }
        let ghost i = old(self).obj_idx(obj_start);
        proof {
            old(self).lemma_obj_unique(obj_start);
            lemma_tiles_bounds(self.blocks@, self.base as int, self.base + self.mem@.len());
        }
        let block_start = obj_start - HEADER_SIZE;
        self.free_block(block_start, Ghost(i));
        proof {
            let bs = old(self).block_seq();
            let t = self.block_seq();
            assert forall|p: usize|
                #[trigger] old(self).is_obj(p) && p != obj_start implies self.is_obj(p)
                && self.obj_size(p) == old(self).obj_size(p) by {
                old(self).lemma_obj_unique(p);
                let j = old(self).obj_idx(p);
                assert(j != i);
                assert(t[j] == bs[j]);
                assert(self.obj_at(p, j));
                self.lemma_obj_unique(p);
            }
            assert forall|p: usize| #[trigger] self.is_obj(p) implies old(self).is_obj(p) by {
                self.lemma_obj_unique(p);
                let j = self.obj_idx(p);
                assert(j != i);
                assert(old(self).obj_at(p, j));
            }
            if self.is_obj(obj_start) {
                self.lemma_obj_unique(obj_start);
                let j = self.obj_idx(obj_start);
                assert(t[j].start == t[i].start);
                lemma_tiles_bounds(t, self.heap_lo(), self.heap_hi());
                if j < i {
                    lemma_tiles_disjoint(t, self.heap_lo(), self.heap_hi(), j, i);
                } else if j > i {
                    lemma_tiles_disjoint(t, self.heap_lo(), self.heap_hi(), i, j);
                }
                assert(false);
            }
        }
    }

    /// Whether `a` is the node address of one of the `k` blocks that follow
    /// block `i` of `bs`.
    spec fn node_of_range(bs: Seq<Block>, i: int, k: int, a: usize) -> bool {
        exists|j: int| 1 <= j <= k && a == (#[trigger] bs[i + j]).start + HEADER_SIZE
    }

    /// The shape of an in-place adjustment: `new` is `s0` with the occupied
    /// block at index `i` and its `k` free successors rewritten as the
    /// placed blocks of the joint range, and the successors' nodes removed
    /// from the free list.
    #[verifier::opaque]
    spec fn adjust_splice_shape(
        s0: Self,
        new: Self,
        i: int,
        k: int,
        b: int,
        e: int,
        obj: usize,
        osz: int,
    ) -> bool {
        let bs = s0.block_seq();
        let pb = placed_blocks(b, e, obj as int, osz);
        &&& s0.wf()
        &&& 0 <= i
        &&& 0 <= k
        &&& i + k < bs.len()
        &&& !bs[i].free
        &&& (forall|j: int| 1 <= j <= k ==> (#[trigger] bs[i + j]).free)
        &&& bs[i].start == b
        &&& bs[i + k].end() == e
        &&& obj as int == b + HEADER_SIZE
        &&& place_ok(b, e, obj as int, osz)
        &&& new.base == s0.base
        &&& new.mem@ == s0.mem@
        &&& new.grower == s0.grower
        &&& new.block_seq() == bs.subrange(0, i) + pb + bs.subrange(i + k + 1, bs.len() as int)
        &&& new.freelist.wf()
        &&& new.hdrs@.len() == s0.hdrs@.len()
        &&& (forall|a: usize|
            #[trigger] new.fl().contains(a) <==> ((s0.fl().contains(a) && !Self::node_of_range(
                bs,
                i,
                k,
                a,
            )) || is_free_node(pb, a)))
        &&& (forall|kk: int|
            0 <= kk < new.hdrs@.len() && !(b <= s0.base + HEADER_SIZE * kk < e)
                ==> #[trigger] new.hdrs@[kk] == s0.hdrs@[kk])
        &&& (forall|j: int|
            0 <= j < pb.len() ==> {
                let bl = #[trigger] pb[j];
                let kk = (bl.start - new.base) / (HEADER_SIZE as int);
                &&& 0 <= kk < new.hdrs@.len()
                &&& new.hdrs@[kk].spec_content_size() == bl.size
                &&& new.hdrs@[kk].spec_is_tagged() == bl.free
            })
    }

    /// Header cells after an in-place adjustment match the new blocks.
    #[verifier::rlimit(100)]
    proof fn lemma_adjust_splice_cells(
        s0: Self,
        new: Self,
        i: int,
        k: int,
        b: int,
        e: int,
        obj: usize,
        osz: int,
    )
        requires
            Self::adjust_splice_shape(s0, new, i, k, b, e, obj, osz),
        ensures
            new.cells_match(),
    {
        reveal(RawMalloc::adjust_splice_shape);
        reveal(RawMalloc::cells_match);
        let bs = s0.block_seq();
        let lo = s0.base as int;
        let hi = s0.base + s0.mem@.len();
        let pb = placed_blocks(b, e, obj as int, osz);
        let t = new.block_seq();
        lemma_placed_blocks_len(b, e, obj as int, osz);
        lemma_splice_index(bs, i, i + k + 1, pb);
        assert forall|i2: int| 0 <= i2 < t.len() implies {
            let bl = #[trigger] t[i2];
            let kk = (bl.start - new.base) / (HEADER_SIZE as int);
            &&& 0 <= kk < new.hdrs@.len()
            &&& new.hdrs@[kk].spec_content_size() == bl.size
            &&& new.hdrs@[kk].spec_is_tagged() == bl.free
        } by {
            if i2 < i {
                assert(t[i2] == bs[i2]);
                lemma_tiles_disjoint(bs, lo, hi, i2, i);
                Self::lemma_cell_addr(lo, bs[i2].start);
            } else if i2 < i + pb.len() {
                assert(t[i2] == pb[i2 - i]);
            } else {
                assert(t[i2] == bs[i2 - pb.len() + k + 1]);
                lemma_tiles_disjoint(bs, lo, hi, i + k, i2 - pb.len() + k + 1);
                Self::lemma_cell_addr(lo, bs[i2 - pb.len() + k + 1].start);
            }
        }
    }

    /// The free list after an in-place adjustment matches the new free
    /// blocks.
    #[verifier::rlimit(100)]
    proof fn lemma_adjust_splice_fl(
        s0: Self,
        new: Self,
        i: int,
        k: int,
        b: int,
        e: int,
        obj: usize,
        osz: int,
    )
        requires
            Self::adjust_splice_shape(s0, new, i, k, b, e, obj, osz),
        ensures
            new.fl_matches(),
    {
        reveal(RawMalloc::adjust_splice_shape);
        reveal(RawMalloc::fl_matches);
        let bs = s0.block_seq();
        let lo = s0.base as int;
        let hi = s0.base + s0.mem@.len();
        let pb = placed_blocks(b, e, obj as int, osz);
        let t = new.block_seq();
        assert(s0.fl() == s0.freelist@);
        assert(new.fl() == new.freelist@);
        lemma_placed_blocks_len(b, e, obj as int, osz);
        lemma_splice_index(bs, i, i + k + 1, pb);
        assert forall|i2: int|
            0 <= i2 < t.len() && (#[trigger] t[i2]).free implies new.freelist@.contains(
            (t[i2].start + HEADER_SIZE) as usize,
        ) by {
            if i2 < i {
                assert(t[i2] == bs[i2]);
                assert(bs[i2].free);
                lemma_tiles_block_in_range(bs, lo, hi, i2);
                lemma_tiles_block_in_range(bs, lo, hi, i);
                lemma_tiles_disjoint(bs, lo, hi, i2, i);
                assert(s0.freelist@.contains((bs[i2].start + HEADER_SIZE) as usize));
                assert(!Self::node_of_range(bs, i, k, (bs[i2].start + HEADER_SIZE) as usize)) by {
                    if Self::node_of_range(bs, i, k, (bs[i2].start + HEADER_SIZE) as usize) {
                        let j = choose|j: int|
                            1 <= j <= k && (bs[i2].start + HEADER_SIZE) as usize == (
                            #[trigger] bs[i + j]).start + HEADER_SIZE;
                        lemma_tiles_block_in_range(bs, lo, hi, i + j);
                        lemma_tiles_disjoint(bs, lo, hi, i2, i + j);
                    }
                }
            } else if i2 < i + pb.len() {
                assert(t[i2] == pb[i2 - i]);
                assert(is_free_node(pb, (t[i2].start + HEADER_SIZE) as usize));
            } else {
                let i3 = i2 - pb.len() + k + 1;
                assert(t[i2] == bs[i3]);
                assert(bs[i3].free);
                lemma_tiles_block_in_range(bs, lo, hi, i3);
                lemma_tiles_block_in_range(bs, lo, hi, i + k);
                lemma_tiles_disjoint(bs, lo, hi, i + k, i3);
                assert(s0.freelist@.contains((bs[i3].start + HEADER_SIZE) as usize));
                assert(!Self::node_of_range(bs, i, k, (bs[i3].start + HEADER_SIZE) as usize)) by {
                    if Self::node_of_range(bs, i, k, (bs[i3].start + HEADER_SIZE) as usize) {
                        let j = choose|j: int|
                            1 <= j <= k && (bs[i3].start + HEADER_SIZE) as usize == (
                            #[trigger] bs[i + j]).start + HEADER_SIZE;
                        lemma_tiles_block_in_range(bs, lo, hi, i + j);
                        lemma_tiles_disjoint(bs, lo, hi, i + j, i3);
                    }
                }
            }
        }
        assert forall|j: int|
            0 <= j < new.freelist@.len() implies is_free_node(t, #[trigger] new.freelist@[j]) by {
            let a = new.freelist@[j];
            assert(new.freelist@.contains(a));
            if s0.fl().contains(a) && !Self::node_of_range(bs, i, k, a) {
                assert(is_free_node(bs, a));
                lemma_free_node_unique(bs, lo, hi, a);
                let i2 = free_node_idx(bs, a);
                assert(i2 != i);
                assert(!(i < i2 <= i + k)) by {
                    if i < i2 <= i + k {
                        assert(bs[i + (i2 - i)].start + HEADER_SIZE == a);
                        assert(Self::node_of_range(bs, i, k, a));
                    }
                }
                if i2 < i {
                    assert(t[i2] == bs[i2]);
                    assert(t[i2].free && a == t[i2].start + HEADER_SIZE);
                } else {
                    assert(t[i2 + pb.len() - k - 1] == bs[i2]);
                    assert(t[i2 + pb.len() - k - 1].free && a == t[i2 + pb.len() - k - 1].start
                        + HEADER_SIZE);
                }
            } else {
                assert(is_free_node(pb, a));
                let j2 = choose|j2: int|
                    0 <= j2 < pb.len() && (#[trigger] pb[j2]).free && a == pb[j2].start
                        + HEADER_SIZE;
                assert(t[i + j2] == pb[j2]);
                assert(t[i + j2].free && a == t[i + j2].start + HEADER_SIZE);
            }
        }
    }

    /// An in-place adjustment re-establishes the state invariant: the
    /// adjusted object stays an object at its address, and every other
    /// object is untouched.
    #[verifier::rlimit(100)]
    proof fn lemma_adjust_splice_wf(
        s0: Self,
        new: Self,
        i: int,
        k: int,
        b: int,
        e: int,
        obj: usize,
        osz: int,
    )
        requires
            Self::adjust_splice_shape(s0, new, i, k, b, e, obj, osz),
        ensures
            new.wf(),
            new.is_obj(obj),
            s0.is_obj(obj),
            new.obj_size(obj) >= osz,
            new.obj_size(obj) < osz + BLOCK_MIN_SIZE,
            e - (obj + osz) >= BLOCK_MIN_SIZE ==> new.obj_size(obj) == osz,
            forall|p: usize|
                #[trigger] s0.is_obj(p) && p != obj ==> new.is_obj(p) && new.obj_size(p)
                    == s0.obj_size(p),
            forall|p: usize| #[trigger] new.is_obj(p) && p != obj ==> s0.is_obj(p),
    {
        reveal(RawMalloc::adjust_splice_shape);
        let bs = s0.block_seq();
        let lo = s0.base as int;
        let hi = s0.base + s0.mem@.len();
        let pb = placed_blocks(b, e, obj as int, osz);
        let oi = placed_obj_idx(b, obj as int);
        let t = new.block_seq();
        lemma_placed_blocks(b, e, obj as int, osz);
        assert(oi == 0);
        assert(tiles(pb, b, e));
        lemma_tiles_splice(bs, lo, hi, i, i + k + 1, pb);
        lemma_splice_index(bs, i, i + k + 1, pb);
        assert(tiles(t, lo, hi));
        Self::lemma_adjust_splice_cells(s0, new, i, k, b, e, obj, osz);
        Self::lemma_adjust_splice_fl(s0, new, i, k, b, e, obj, osz);
        assert(new.coupled()) by {
            reveal(RawMalloc::coupled);
        }
        assert(new.wf());
        assert(t[i] == pb[0]);
        assert(new.obj_at(obj, i));
        assert(s0.obj_at(obj, i));
        assert(new.is_obj(obj) && s0.is_obj(obj));
        new.lemma_obj_unique(obj);
        assert forall|p: usize|
            #[trigger] s0.is_obj(p) && p != obj implies new.is_obj(p) && new.obj_size(p)
            == s0.obj_size(p) by {
            s0.lemma_obj_unique(p);
            let i2 = s0.obj_idx(p);
            assert(i2 != i);
            assert(!(i < i2 <= i + k)) by {
                if i < i2 <= i + k {
                    assert((#[trigger] bs[i + (i2 - i)]).free);
                }
            }
            if i2 < i {
                assert(t[i2] == bs[i2]);
                assert(new.obj_at(p, i2));
            } else {
                assert(t[i2 + pb.len() - k - 1] == bs[i2]);
                assert(new.obj_at(p, i2 + pb.len() - k - 1));
            }
            new.lemma_obj_unique(p);
        }
        assert forall|p: usize| #[trigger] new.is_obj(p) && p != obj implies s0.is_obj(p) by {
            new.lemma_obj_unique(p);
            let i2 = new.obj_idx(p);
            if i2 < i {
                assert(t[i2] == bs[i2]);
                assert(s0.obj_at(p, i2));
            } else if i2 < i + pb.len() {
                assert(t[i2] == pb[i2 - i]);
                assert(i2 == i);
                assert(p == obj);
            } else {
                assert(t[i2] == bs[i2 - pb.len() + k + 1]);
                assert(s0.obj_at(p, i2 - pb.len() + k + 1));
            }
        }
    }

    /// Whether some free block of `s` can host an object of `osz` bytes
    /// aligned to `align`.
    pub open spec fn fit_exists(s: Self, osz: int, align: int) -> bool {
        exists|i: int|
            0 <= i < s.block_seq().len() && (#[trigger] s.block_seq()[i]).free && placeable(
                s.block_seq()[i],
                osz,
                align,
            )
    }

    /// The block that a listed node's maximal free run forms once it is
    /// coalesced: what the scan tries to place into when it visits the
    /// node.
    pub open spec fn run_block_of(s: Self, a: usize) -> Block {
        let b = free_block_of(s.block_seq(), a);
        Block {
            start: b.start,
            size: free_run_end(s.block_seq(), free_node_idx(s.block_seq(), a)) - b.start
                - HEADER_SIZE,
            free: true,
        }
    }

    /// Whether the block at the head of the free list, taken together with
    /// its maximal run of free successors, can host an object of `osz`
    /// bytes aligned to `align`: the case in which first fit is decided by
    /// the head alone.
    pub open spec fn head_fit(s0: Self, osz: int, align: int) -> bool {
        s0.fl().len() > 0 && placeable(Self::run_block_of(s0, s0.fl()[0]), osz, align)
    }

    /// Every listed node keeps the start of its block and the end of its
    /// free run as they were in `s0`: coalescing moves neither.
    #[verifier::opaque]
    spec fn scan_stable(s0: Self, cur: Self) -> bool {
        forall|a: usize|
            #[trigger] cur.fl().contains(a) ==> free_block_of(cur.block_seq(), a).start
                == free_block_of(s0.block_seq(), a).start && free_run_end(
                cur.block_seq(),
                free_node_idx(cur.block_seq(), a),
            ) == free_run_end(s0.block_seq(), free_node_idx(s0.block_seq(), a))
    }

    /// The scan's progress over runs: every listed node whose coalesced run
    /// in `s0` could host the object lies at or after the scan position.
    #[verifier::opaque]
    spec fn scan_run_clean(s0: Self, cur: Self, p: usize, osz: int, align: int) -> bool {
        forall|j: int|
            0 <= j < cur.fl().len() && placeable(
                Self::run_block_of(s0, #[trigger] cur.fl()[j]),
                osz,
                align,
            ) ==> p != 0 && cur.fl().contains(p) && suffix_len(cur.fl(), cur.fl()[j])
                <= suffix_len(cur.fl(), p)
    }

    /// The current list keeps the relative order of `s0`'s list: nodes are
    /// only removed, never reordered.
    #[verifier::opaque]
    spec fn scan_order(s0: Self, cur: Self) -> bool {
        forall|a: usize, b: usize|
            #[trigger] cur.fl().contains(a) && #[trigger] cur.fl().contains(b) ==> ((suffix_len(
                cur.fl(),
                a,
            ) < suffix_len(cur.fl(), b)) <==> (suffix_len(s0.fl(), a) < suffix_len(s0.fl(), b)))
    }

    /// Every listed node strictly after the scan position still carries its
    /// block exactly as in `s0`: the scan has not touched it yet.
    #[verifier::opaque]
    spec fn scan_unvisited(s0: Self, cur: Self, p: usize) -> bool {
        forall|a: usize|
            #[trigger] cur.fl().contains(a) && suffix_len(cur.fl(), a) < suffix_len(cur.fl(), p)
                ==> free_block_of(cur.block_seq(), a) == free_block_of(s0.block_seq(), a)
    }

    /// Every node of `s0`'s list that has left the current list headed a
    /// run that could not host the object.
    #[verifier::opaque]
    spec fn scan_removed(s0: Self, cur: Self, osz: int, align: int) -> bool {
        forall|a: usize|
            #[trigger] s0.fl().contains(a) && !cur.fl().contains(a) ==> !placeable(
                Self::run_block_of(s0, a),
                osz,
                align,
            )
    }

    /// One coalescing pass at the scan position preserves run stability and
    /// the scan's progress over runs.
    #[verifier::rlimit(100)]
    #[verifier::spinoff_prover]
    proof fn lemma_scan_run_step_merge(
        s0: Self,
        sp: Self,
        cur: Self,
        p: usize,
        osz: int,
        align: int,
    )
        requires
            sp.wf(),
            cur.wf(),
            sp.fl().contains(p),
            Self::merge_inv(sp, cur, p),
            Self::scan_stable(s0, sp),
            Self::scan_run_clean(s0, sp, p, osz, align),
        ensures
            Self::scan_stable(s0, cur),
            Self::scan_run_clean(s0, cur, p, osz, align),
    {
        reveal(RawMalloc::merge_inv);
        reveal(RawMalloc::scan_stable);
        reveal(RawMalloc::scan_run_clean);
        sp.freelist.lemma_wf_view();
        cur.freelist.lemma_wf_view();
        assert forall|a: usize|
            #[trigger] cur.fl().contains(a) implies free_block_of(cur.block_seq(), a).start
            == free_block_of(s0.block_seq(), a).start && free_run_end(
            cur.block_seq(),
            free_node_idx(cur.block_seq(), a),
        ) == free_run_end(s0.block_seq(), free_node_idx(s0.block_seq(), a)) by {
            assert(sp.fl().contains(a));
        }
        assert forall|j: int|
            0 <= j < cur.fl().len() && placeable(
                Self::run_block_of(s0, #[trigger] cur.fl()[j]),
                osz,
                align,
            ) implies p != 0 && cur.fl().contains(p) && suffix_len(cur.fl(), cur.fl()[j])
            <= suffix_len(cur.fl(), p) by {
            let a = cur.fl()[j];
            assert(cur.fl().contains(a));
            assert(p != 0) by {
                crate::freelist::Freelist::lemma_index_of(sp.fl(), p);
            }
            if a != p {
                assert(sp.fl().contains(a));
                let js = choose|js: int| 0 <= js < sp.fl().len() && sp.fl()[js] == a;
                assert(placeable(Self::run_block_of(s0, sp.fl()[js]), osz, align));
                assert(suffix_len(sp.fl(), a) <= suffix_len(sp.fl(), p));
                assert(suffix_len(sp.fl(), a) < suffix_len(sp.fl(), p)) by {
                    crate::freelist::Freelist::lemma_index_of(sp.fl(), a);
                    crate::freelist::Freelist::lemma_index_of(sp.fl(), p);
                }
                assert(suffix_len(cur.fl(), a) < suffix_len(cur.fl(), p));
            }
        }
    }

    /// After the scan position's coalesced run is found not to host the
    /// object, the position may advance to the next listed node.
    #[verifier::rlimit(100)]
    #[verifier::spinoff_prover]
    proof fn lemma_scan_run_step_advance(
        s0: Self,
        cur: Self,
        p: usize,
        next: usize,
        osz: int,
        align: int,
    )
        requires
            cur.wf(),
            cur.fl().contains(p),
            Self::scan_run_clean(s0, cur, p, osz, align),
            !placeable(Self::run_block_of(s0, p), osz, align),
            ({
                let jp = cur.fl().index_of(p);
                next == (if jp + 1 < cur.fl().len() {
                    cur.fl()[jp + 1]
                } else {
                    0
                })
            }),
        ensures
            Self::scan_run_clean(s0, cur, next, osz, align),
    {
        reveal(RawMalloc::scan_run_clean);
        cur.freelist.lemma_wf_view();
        crate::freelist::Freelist::lemma_index_of(cur.fl(), p);
        let jp = cur.fl().index_of(p);
        assert forall|j: int|
            0 <= j < cur.fl().len() && placeable(
                Self::run_block_of(s0, #[trigger] cur.fl()[j]),
                osz,
                align,
            ) implies next != 0 && cur.fl().contains(next) && suffix_len(cur.fl(), cur.fl()[j])
            <= suffix_len(cur.fl(), next) by {
            let a = cur.fl()[j];
            assert(cur.fl().contains(a));
            assert(a != p);
            crate::freelist::Freelist::lemma_index_of(cur.fl(), a);
            assert(suffix_len(cur.fl(), a) < suffix_len(cur.fl(), p));
            assert(cur.fl().index_of(a) > jp);
            assert(jp + 1 < cur.fl().len());
            assert(next == cur.fl()[jp + 1]);
            assert(cur.fl().contains(next));
            crate::freelist::Freelist::lemma_index_of(cur.fl(), next);
            assert(cur.fl().index_of(next) == jp + 1);
        }
    }


    /// One coalescing pass at the scan position keeps the list's order and
    /// the untouched blocks after the position; every node of `s0` listed
    /// before the position heads a run that cannot host the object; and once
    /// the position's own run is known hopeless, every removed node's run is
    /// hopeless too.
    #[verifier::rlimit(100)]
    #[verifier::spinoff_prover]
    proof fn lemma_scan_first_step_merge(
        s0: Self,
        sp: Self,
        cur: Self,
        p: usize,
        osz: int,
        align: int,
    )
        requires
            s0.wf(),
            sp.wf(),
            cur.wf(),
            sp.fl().contains(p),
            Self::merge_inv(sp, cur, p),
            forall|a: usize| #[trigger] sp.fl().contains(a) ==> s0.fl().contains(a),
            Self::scan_stable(s0, sp),
            Self::scan_order(s0, sp),
            Self::scan_unvisited(s0, sp, p),
            Self::scan_removed(s0, sp, osz, align),
            Self::scan_run_clean(s0, sp, p, osz, align),
        ensures
            Self::scan_order(s0, cur),
            Self::scan_unvisited(s0, cur, p),
            !placeable(Self::run_block_of(s0, p), osz, align) ==> Self::scan_removed(
                s0,
                cur,
                osz,
                align,
            ),
            forall|b: usize|
                #[trigger] s0.fl().contains(b) && suffix_len(s0.fl(), b) > suffix_len(s0.fl(), p)
                    ==> !placeable(Self::run_block_of(s0, b), osz, align),
    {
        reveal(RawMalloc::merge_inv);
        reveal(RawMalloc::scan_order);
        reveal(RawMalloc::scan_unvisited);
        reveal(RawMalloc::scan_removed);
        reveal(RawMalloc::scan_run_clean);
        reveal(RawMalloc::scan_stable);
        sp.freelist.lemma_wf_view();
        cur.freelist.lemma_wf_view();
        s0.freelist.lemma_wf_view();
        assert(Self::scan_order(s0, cur)) by {
            assert forall|a: usize, b: usize|
                #[trigger] cur.fl().contains(a) && #[trigger] cur.fl().contains(b) implies ((
            suffix_len(cur.fl(), a) < suffix_len(cur.fl(), b)) <==> (suffix_len(s0.fl(), a)
                < suffix_len(s0.fl(), b))) by {
                assert(sp.fl().contains(a) && sp.fl().contains(b));
            }
        }
        assert(Self::scan_unvisited(s0, cur, p)) by {
            assert forall|a: usize|
                #[trigger] cur.fl().contains(a) && suffix_len(cur.fl(), a) < suffix_len(
                    cur.fl(),
                    p,
                ) implies free_block_of(cur.block_seq(), a) == free_block_of(
                s0.block_seq(),
                a,
            ) by {
                assert(cur.fl().contains(p));
                assert(sp.fl().contains(a));
                assert(a != p);
                assert(suffix_len(sp.fl(), a) < suffix_len(sp.fl(), p));
                assert(free_block_of(cur.block_seq(), a) == free_block_of(sp.block_seq(), a));
                assert(free_block_of(sp.block_seq(), a) == free_block_of(s0.block_seq(), a));
            }
        }
        assert forall|b: usize|
            #[trigger] s0.fl().contains(b) && suffix_len(s0.fl(), b) > suffix_len(
                s0.fl(),
                p,
            ) implies !placeable(Self::run_block_of(s0, b), osz, align) by {
            if sp.fl().contains(b) {
                assert(b != p);
                assert(suffix_len(sp.fl(), p) < suffix_len(sp.fl(), b));
                if placeable(Self::run_block_of(s0, b), osz, align) {
                    crate::freelist::Freelist::lemma_index_of(sp.fl(), b);
                    let j = sp.fl().index_of(b);
                    assert(placeable(Self::run_block_of(s0, sp.fl()[j]), osz, align));
                    assert(suffix_len(sp.fl(), b) <= suffix_len(sp.fl(), p));
                    assert(false);
                }
            }
        }
        if !placeable(Self::run_block_of(s0, p), osz, align) {
            assert forall|a: usize|
                #[trigger] s0.fl().contains(a) && !cur.fl().contains(a) implies !placeable(
                Self::run_block_of(s0, a),
                osz,
                align,
            ) by {
                if sp.fl().contains(a) {
                    assert(cur.fl().contains(p));
                    assert(a != p);
                    crate::freelist::Freelist::lemma_index_of(sp.fl(), a);
                    crate::freelist::Freelist::lemma_index_of(sp.fl(), p);
                    if suffix_len(sp.fl(), a) > suffix_len(sp.fl(), p) {
                        if placeable(Self::run_block_of(s0, a), osz, align) {
                            let j = sp.fl().index_of(a);
                            assert(placeable(Self::run_block_of(s0, sp.fl()[j]), osz, align));
                            assert(false);
                        }
                    } else {
                        assert(suffix_len(sp.fl(), a) < suffix_len(sp.fl(), p));
                        let m = free_block_of(cur.block_seq(), p);
                        let ob = free_block_of(sp.block_seq(), a);
                        assert(m.start + BLOCK_MIN_SIZE <= ob.start && ob.end() <= m.end());
                        assert(ob == free_block_of(s0.block_seq(), a));
                        assert(is_free_node(cur.block_seq(), p)) by {
                            reveal(RawMalloc::fl_matches);
                            let j = choose|j: int| 0 <= j < cur.fl().len() && cur.fl()[j] == p;
                        }
                        lemma_free_node_unique(
                            cur.block_seq(),
                            cur.heap_lo(),
                            cur.heap_hi(),
                            p,
                        );
                        let icp = free_node_idx(cur.block_seq(), p);
                        assert(m == cur.block_seq()[icp]);
                        lemma_free_run_end_bounds(
                            cur.block_seq(),
                            cur.heap_lo(),
                            cur.heap_hi(),
                            icp,
                        );
                        assert(m.end() <= free_run_end(cur.block_seq(), icp));
                        assert(is_free_node(s0.block_seq(), a)) by {
                            reveal(RawMalloc::fl_matches);
                        }
                        assert(s0.fl().contains(p));
                        assert(is_free_node(s0.block_seq(), p)) by {
                            reveal(RawMalloc::fl_matches);
                        }
                        lemma_free_node_unique(s0.block_seq(), s0.heap_lo(), s0.heap_hi(), a);
                        lemma_free_node_unique(s0.block_seq(), s0.heap_lo(), s0.heap_hi(), p);
                        let ia = free_node_idx(s0.block_seq(), a);
                        let ip = free_node_idx(s0.block_seq(), p);
                        let ba = s0.block_seq()[ia];
                        let bp = s0.block_seq()[ip];
                        assert(ba == ob);
                        assert(m.start == bp.start) by {
                            assert(free_block_of(cur.block_seq(), p).start == free_block_of(
                                sp.block_seq(),
                                p,
                            ).start);
                            assert(free_block_of(sp.block_seq(), p).start == free_block_of(
                                s0.block_seq(),
                                p,
                            ).start);
                        }
                        assert(free_run_end(cur.block_seq(), icp) == free_run_end(
                            s0.block_seq(),
                            ip,
                        )) by {
                            assert(free_run_end(
                                cur.block_seq(),
                                free_node_idx(cur.block_seq(), p),
                            ) == free_run_end(sp.block_seq(), free_node_idx(sp.block_seq(), p)));
                        }
                        assert(ba.end() <= free_run_end(s0.block_seq(), ip));
                        assert(ba.start >= bp.start + BLOCK_MIN_SIZE);
                        assert(ip < ia) by {
                            if ia == ip {
                                assert(ba == bp);
                                assert(false);
                            } else if ia < ip {
                                lemma_tiles_disjoint(
                                    s0.block_seq(),
                                    s0.heap_lo(),
                                    s0.heap_hi(),
                                    ia,
                                    ip,
                                );
                                assert(ba.end() <= bp.start);
                                assert(ba.wf());
                                assert(false);
                            }
                        }
                        lemma_free_run_end_inside(
                            s0.block_seq(),
                            s0.heap_lo(),
                            s0.heap_hi(),
                            ip,
                            ia,
                        );
                        assert(free_run_end(s0.block_seq(), ia) == free_run_end(
                            s0.block_seq(),
                            ip,
                        ));
                        if placeable(Self::run_block_of(s0, a), osz, align) {
                            lemma_placeable_superset(
                                Self::run_block_of(s0, a),
                                Self::run_block_of(s0, p),
                                osz,
                                align,
                            );
                            assert(false);
                        }
                    }
                }
            }
        }
    }

    /// The scan's progress: every listed node whose block could host the
    /// object lies at or after the scan position `p`; a null position means
    /// no listed block can host it.
    #[verifier::opaque]
    spec fn scan_clean(cur: Self, p: usize, osz: int, align: int) -> bool {
        forall|j: int|
            0 <= j < cur.fl().len() && placeable(
                free_block_of(cur.block_seq(), #[trigger] cur.fl()[j]),
                osz,
                align,
            ) ==> p != 0 && cur.fl().contains(p) && suffix_len(cur.fl(), cur.fl()[j])
                <= suffix_len(cur.fl(), p)
    }

    /// If some free block of `s0` could host the object, some listed block
    /// of the current state still can: coalescing only enlarges candidates.
    #[verifier::opaque]
    spec fn scan_fit(s0: Self, cur: Self, osz: int, align: int) -> bool {
        Self::fit_exists(s0, osz, align) ==> exists|j: int|
            0 <= j < cur.fl().len() && placeable(
                free_block_of(cur.block_seq(), #[trigger] cur.fl()[j]),
                osz,
                align,
            )
    }

    /// One coalescing pass at the scan position preserves the scan's
    /// progress and keeps a hosting candidate alive.
    #[verifier::rlimit(100)]
    #[verifier::spinoff_prover]
    proof fn lemma_scan_step_merge(s0: Self, sp: Self, cur: Self, p: usize, osz: int, align: int)
        requires
            sp.wf(),
            cur.wf(),
            sp.fl().contains(p),
            Self::merge_inv(sp, cur, p),
            Self::scan_clean(sp, p, osz, align),
            Self::scan_fit(s0, sp, osz, align),
        ensures
            Self::scan_clean(cur, p, osz, align),
            Self::scan_fit(s0, cur, osz, align),
    {
        reveal(RawMalloc::merge_inv);
        reveal(RawMalloc::scan_clean);
        reveal(RawMalloc::scan_fit);
        sp.freelist.lemma_wf_view();
        cur.freelist.lemma_wf_view();
        assert(sp.fl() == sp.freelist@ && cur.fl() == cur.freelist@);
        assert forall|j: int|
            0 <= j < cur.fl().len() && placeable(
                free_block_of(cur.block_seq(), #[trigger] cur.fl()[j]),
                osz,
                align,
            ) implies p != 0 && cur.fl().contains(p) && suffix_len(cur.fl(), cur.fl()[j])
            <= suffix_len(cur.fl(), p) by {
            let a = cur.fl()[j];
            assert(cur.fl().contains(a));
            assert(p != 0) by {
                crate::freelist::Freelist::lemma_index_of(sp.fl(), p);
            }
            if a != p {
                assert(free_block_of(cur.block_seq(), a) == free_block_of(sp.block_seq(), a));
                assert(sp.fl().contains(a));
                let js = choose|js: int| 0 <= js < sp.fl().len() && sp.fl()[js] == a;
                assert(placeable(free_block_of(sp.block_seq(), sp.fl()[js]), osz, align));
                assert(suffix_len(sp.fl(), a) <= suffix_len(sp.fl(), p));
                assert(suffix_len(sp.fl(), a) < suffix_len(sp.fl(), p)) by {
                    crate::freelist::Freelist::lemma_index_of(sp.fl(), a);
                    crate::freelist::Freelist::lemma_index_of(sp.fl(), p);
                }
                assert(suffix_len(cur.fl(), a) < suffix_len(cur.fl(), p));
            }
        }
        if Self::fit_exists(s0, osz, align) {
            let js = choose|js: int|
                0 <= js < sp.fl().len() && placeable(
                    free_block_of(sp.block_seq(), #[trigger] sp.fl()[js]),
                    osz,
                    align,
                );
            let a = sp.fl()[js];
            assert(sp.fl().contains(a));
            if cur.fl().contains(a) {
                let jc = choose|jc: int| 0 <= jc < cur.fl().len() && cur.fl()[jc] == a;
                if a == p {
                    let m0 = free_block_of(sp.block_seq(), p);
                    let m = free_block_of(cur.block_seq(), p);
                    lemma_placeable_superset(m0, m, osz, align);
                } else {
                    assert(free_block_of(cur.block_seq(), a) == free_block_of(
                        sp.block_seq(),
                        a,
                    ));
                }
                assert(placeable(free_block_of(cur.block_seq(), cur.fl()[jc]), osz, align));
            } else {
                let m = free_block_of(cur.block_seq(), p);
                let ob = free_block_of(sp.block_seq(), a);
                assert(m.start + BLOCK_MIN_SIZE <= ob.start && ob.end() <= m.end());
                lemma_placeable_superset(ob, m, osz, align);
                assert(cur.fl().contains(p));
                let jc = choose|jc: int| 0 <= jc < cur.fl().len() && cur.fl()[jc] == p;
                assert(placeable(free_block_of(cur.block_seq(), cur.fl()[jc]), osz, align));
            }
        }
    }

    /// After the block at the scan position is found not to host the
    /// object, the position may advance to the next listed node.
    #[verifier::rlimit(100)]
    #[verifier::spinoff_prover]
    proof fn lemma_scan_step_advance(cur: Self, p: usize, next: usize, osz: int, align: int)
        requires
            cur.wf(),
            cur.fl().contains(p),
            Self::scan_clean(cur, p, osz, align),
            !placeable(free_block_of(cur.block_seq(), p), osz, align),
            ({
                let jp = cur.fl().index_of(p);
                next == (if jp + 1 < cur.fl().len() {
                    cur.fl()[jp + 1]
                } else {
                    0
                })
            }),
        ensures
            Self::scan_clean(cur, next, osz, align),
    {
        reveal(RawMalloc::scan_clean);
        cur.freelist.lemma_wf_view();
        crate::freelist::Freelist::lemma_index_of(cur.fl(), p);
        let jp = cur.fl().index_of(p);
        assert forall|j: int|
            0 <= j < cur.fl().len() && placeable(
                free_block_of(cur.block_seq(), #[trigger] cur.fl()[j]),
                osz,
                align,
            ) implies next != 0 && cur.fl().contains(next) && suffix_len(cur.fl(), cur.fl()[j])
            <= suffix_len(cur.fl(), next) by {
            let a = cur.fl()[j];
            assert(cur.fl().contains(a));
            assert(a != p);
            crate::freelist::Freelist::lemma_index_of(cur.fl(), a);
            assert(suffix_len(cur.fl(), a) < suffix_len(cur.fl(), p));
            assert(cur.fl().index_of(a) > jp);
            assert(jp + 1 < cur.fl().len());
            assert(next == cur.fl()[jp + 1]);
            assert(cur.fl().contains(next));
            crate::freelist::Freelist::lemma_index_of(cur.fl(), next);
            assert(cur.fl().index_of(next) == jp + 1);
        }
    }

    /// Places the object with the given parameters into the first free
    /// block of the free list that can accommodate it, coalescing each
    /// visited block with its free successors first. Returns the address of
    /// the placed object, or `Err(())` if no free block fits.
    #[verifier::rlimit(100)]
    fn place_in_first_free_block(&mut self, obj_size: usize, obj_align: usize) -> (r: Result<
        usize,
        (),
    >)
        requires
            old(self).wf(),
            obj_size % HEADER_SIZE == 0,
            NODE_SIZE <= obj_size <= usize::MAX / 2,
            is_pow2(obj_align as int),
            obj_align >= HEADER_ALIGN,
        ensures
            final(self).wf(),
            final(self).heap_lo() == old(self).heap_lo(),
            final(self).heap_hi() == old(self).heap_hi(),
            final(self).heap_bytes() == old(self).heap_bytes(),
            final(self).grower == old(self).grower,
            forall|p: usize|
                #[trigger] old(self).is_obj(p) ==> final(self).is_obj(p) && final(self).obj_size(p)
                    == old(self).obj_size(p),
            r.is_err() ==> (forall|p: usize| #[trigger] final(self).is_obj(p) ==> old(self).is_obj(p)),
            Self::fit_exists(*old(self), obj_size as int, obj_align as int) ==> r.is_ok(),
            r.is_err() ==> (forall|i: int|
                0 <= i < final(self).block_seq().len() && (#[trigger] final(self).block_seq()[i]).free
                    ==> !placeable(final(self).block_seq()[i], obj_size as int, obj_align as int)),
            r.is_err() ==> (forall|a: usize|
                #[trigger] old(self).fl().contains(a) ==> !placeable(
                    Self::run_block_of(*old(self), a),
                    obj_size as int,
                    obj_align as int,
                )),
            r.is_ok() ==> (exists|a: usize|
                #[trigger] old(self).fl().contains(a) && placeable(
                    Self::run_block_of(*old(self), a),
                    obj_size as int,
                    obj_align as int,
                ) && Self::run_block_of(*old(self), a).start < r.unwrap() && r.unwrap()
                    + obj_size <= Self::run_block_of(*old(self), a).end() && (forall|x: usize|
                    Self::run_block_of(*old(self), a).start <= x < r.unwrap() && (x % obj_align)
                        == 0 ==> !(#[trigger] valid_prefix(
                        x - Self::run_block_of(*old(self), a).start,
                    ))) && (forall|b: usize|
                    #[trigger] old(self).fl().contains(b) && suffix_len(old(self).fl(), b)
                        > suffix_len(old(self).fl(), a) ==> !placeable(
                        Self::run_block_of(*old(self), b),
                        obj_size as int,
                        obj_align as int,
                    ))),
            Self::head_fit(*old(self), obj_size as int, obj_align as int) ==> r.is_ok()
                && free_block_of(old(self).block_seq(), old(self).fl()[0]).start < r.unwrap()
                && r.unwrap() + obj_size <= free_run_end(
                old(self).block_seq(),
                free_node_idx(old(self).block_seq(), old(self).fl()[0]),
            ) && (forall|x: usize|
                free_block_of(old(self).block_seq(), old(self).fl()[0]).start <= x < r.unwrap()
                    && (x % obj_align) == 0 ==> !(#[trigger] valid_prefix(
                    x - free_block_of(old(self).block_seq(), old(self).fl()[0]).start,
                ))),
            r.is_ok() ==> ({
                let obj = r.unwrap();
                &&& final(self).is_obj(obj)
                &&& obj % obj_align == 0
                &&& final(self).obj_size(obj) >= obj_size
                &&& final(self).obj_size(obj) < obj_size + BLOCK_MIN_SIZE
                &&& !old(self).is_obj(obj)
                &&& (forall|p: usize|
                    #[trigger] final(self).is_obj(p) && p != obj ==> old(self).is_obj(p))
            }),
    {
        let ghost s0 = *self;
        let mut p = match self.freelist.head() {
            Some(h) => h,
            None => 0,
        };
        proof {
            reveal(RawMalloc::scan_clean);
            reveal(RawMalloc::scan_fit);
            self.freelist.lemma_wf_view();
            if p != 0 {
                assert(self.fl().contains(p)) by {
                    assert(self.fl()[0] == p);
                }
                crate::freelist::Freelist::lemma_index_of(self.fl(), p);
                assert(self.fl().index_of(p) == 0);
                assert forall|j: int|
                    0 <= j < self.fl().len() && placeable(
                        free_block_of(self.block_seq(), #[trigger] self.fl()[j]),
                        obj_size as int,
                        obj_align as int,
                    ) implies p != 0 && self.fl().contains(p) && suffix_len(
                    self.fl(),
                    self.fl()[j],
                ) <= suffix_len(self.fl(), p) by {
                    assert(self.fl().contains(self.fl()[j]));
                    crate::freelist::Freelist::lemma_index_of(self.fl(), self.fl()[j]);
                }
            }
            assert(Self::scan_clean(*self, p, obj_size as int, obj_align as int));
            if Self::fit_exists(s0, obj_size as int, obj_align as int) {
                let i = choose|i: int|
                    0 <= i < s0.block_seq().len() && (#[trigger] s0.block_seq()[i]).free
                        && placeable(s0.block_seq()[i], obj_size as int, obj_align as int);
                lemma_tiles_block_in_range(s0.block_seq(), s0.heap_lo(), s0.heap_hi(), i);
                let a = (s0.block_seq()[i].start + HEADER_SIZE) as usize;
                assert(self.fl().contains(a)) by {
                    reveal(RawMalloc::fl_matches);
                }
                assert(is_free_node(self.block_seq(), a)) by {
                    assert(s0.block_seq()[i].free && a == s0.block_seq()[i].start + HEADER_SIZE);
                }
                lemma_free_node_unique(self.block_seq(), self.heap_lo(), self.heap_hi(), a);
                assert(free_block_of(self.block_seq(), a) == s0.block_seq()[i]);
                let j = choose|j: int| 0 <= j < self.fl().len() && self.fl()[j] == a;
                assert(placeable(
                    free_block_of(self.block_seq(), self.fl()[j]),
                    obj_size as int,
                    obj_align as int,
                ));
            }
            assert(Self::scan_fit(s0, *self, obj_size as int, obj_align as int));
            assert(Self::scan_stable(s0, *self)) by {
                reveal(RawMalloc::scan_stable);
            }
            assert(Self::scan_order(s0, *self)) by {
                reveal(RawMalloc::scan_order);
            }
            assert(Self::scan_unvisited(s0, *self, p)) by {
                reveal(RawMalloc::scan_unvisited);
            }
            assert(Self::scan_removed(s0, *self, obj_size as int, obj_align as int)) by {
                reveal(RawMalloc::scan_removed);
            }
            assert(Self::scan_run_clean(s0, *self, p, obj_size as int, obj_align as int)) by {
                reveal(RawMalloc::scan_run_clean);
                if p != 0 {
                    crate::freelist::Freelist::lemma_index_of(self.fl(), p);
                    assert forall|j: int|
                        0 <= j < self.fl().len() && placeable(
                            Self::run_block_of(s0, #[trigger] self.fl()[j]),
                            obj_size as int,
                            obj_align as int,
                        ) implies p != 0 && self.fl().contains(p) && suffix_len(
                        self.fl(),
                        self.fl()[j],
                    ) <= suffix_len(self.fl(), p) by {
                        assert(self.fl().contains(self.fl()[j]));
                        crate::freelist::Freelist::lemma_index_of(self.fl(), self.fl()[j]);
                    }
                }
            }
        }
        while p != 0
            invariant
                s0 == *old(self),
                s0.wf(),
                self.wf(),
                obj_size % HEADER_SIZE == 0,
                NODE_SIZE <= obj_size <= usize::MAX / 2,
                is_pow2(obj_align as int),
                obj_align >= HEADER_ALIGN,
                self.heap_lo() == s0.heap_lo(),
                self.heap_hi() == s0.heap_hi(),
                self.heap_bytes() == s0.heap_bytes(),
                self.grower == s0.grower,
                p != 0 ==> self.fl().contains(p),
                forall|a: usize| #[trigger] self.fl().contains(a) ==> s0.fl().contains(a),
                Self::scan_stable(s0, *self),
                Self::scan_order(s0, *self),
                p != 0 ==> Self::scan_unvisited(s0, *self, p),
                Self::scan_removed(s0, *self, obj_size as int, obj_align as int),
                Self::scan_run_clean(s0, *self, p, obj_size as int, obj_align as int),
                Self::head_fit(s0, obj_size as int, obj_align as int) ==> p == s0.fl()[0]
                    && *self == s0,
                Self::scan_clean(*self, p, obj_size as int, obj_align as int),
                Self::scan_fit(s0, *self, obj_size as int, obj_align as int),
                forall|q: usize|
                    #[trigger] s0.is_obj(q) ==> self.is_obj(q) && self.obj_size(q) == s0.obj_size(
                        q,
                    ),
                forall|q: usize| #[trigger] self.is_obj(q) ==> s0.is_obj(q),
            decreases (if p == 0 {
                0int
            } else {
                suffix_len(self.fl(), p)
            }),
        {
            let ghost sp = *self;
            self.merge_subsequent_nodes(p);
            proof {
                reveal(RawMalloc::merge_inv);
                self.freelist.lemma_wf_view();
                crate::freelist::Freelist::lemma_index_of(self.fl(), p);
                assert forall|q: usize|
                    #[trigger] s0.is_obj(q) implies self.is_obj(q) && self.obj_size(q)
                    == s0.obj_size(q) by {
                    assert(sp.is_obj(q) && sp.obj_size(q) == s0.obj_size(q));
                }
                assert forall|q: usize| #[trigger] self.is_obj(q) implies s0.is_obj(q) by {
                    assert(sp.is_obj(q));
                }
                Self::lemma_scan_step_merge(
                    s0,
                    sp,
                    *self,
                    p,
                    obj_size as int,
                    obj_align as int,
                );
                Self::lemma_scan_run_step_merge(
                    s0,
                    sp,
                    *self,
                    p,
                    obj_size as int,
                    obj_align as int,
                );
                Self::lemma_scan_first_step_merge(
                    s0,
                    sp,
                    *self,
                    p,
                    obj_size as int,
                    obj_align as int,
                );
                assert forall|a: usize|
                    #[trigger] self.fl().contains(a) implies s0.fl().contains(a) by {
                    assert(sp.fl().contains(a));
                }
            }
            let ghost fl_mid = self.fl();
            proof {
                assert(self.fl().contains(p));
                assert(is_free_node(self.block_seq(), p)) by {
                    reveal(RawMalloc::fl_matches);
                    let j = choose|j: int| 0 <= j < self.fl().len() && self.fl()[j] == p;
                }
                lemma_free_node_unique(self.block_seq(), self.heap_lo(), self.heap_hi(), p);
                lemma_tiles_block_in_range(
                    self.block_seq(),
                    self.heap_lo(),
                    self.heap_hi(),
                    free_node_idx(self.block_seq(), p),
                );
                assert(self.block_seq()[free_node_idx(self.block_seq(), p)]
                    == Self::run_block_of(s0, p)) by {
                    reveal(RawMalloc::scan_stable);
                    assert(is_free_node(sp.block_seq(), p)) by {
                        reveal(RawMalloc::fl_matches);
                        let j = choose|j: int| 0 <= j < sp.fl().len() && sp.fl()[j] == p;
                    }
                    lemma_free_node_unique(sp.block_seq(), sp.heap_lo(), sp.heap_hi(), p);
                    assert(free_block_of(sp.block_seq(), p)
                        == sp.block_seq()[free_node_idx(sp.block_seq(), p)]);
                    assert(free_block_of(sp.block_seq(), p).start == free_block_of(
                        s0.block_seq(),
                        p,
                    ).start);
                    assert(free_run_end(sp.block_seq(), free_node_idx(sp.block_seq(), p))
                        == free_run_end(s0.block_seq(), free_node_idx(s0.block_seq(), p)));
                }
            }
            let free_block_start = p - HEADER_SIZE;
            let ghost bi = free_node_idx(self.block_seq(), p);
            let ghost sm = *self;
            match self.try_place(free_block_start, obj_size, obj_align, Ghost(bi)) {
                Ok(obj_start) => {
                    proof {
                        assert(s0.fl().contains(p));
                        assert(sm.block_seq()[bi] == Self::run_block_of(s0, p));
                        assert(placeable(
                            Self::run_block_of(s0, p),
                            obj_size as int,
                            obj_align as int,
                        )) by {
                            assert(can_place_at(
                                sm.block_seq()[bi],
                                obj_size as int,
                                obj_align as int,
                                obj_start as int,
                            ));
                        }
                        assert(forall|b: usize|
                            #[trigger] s0.fl().contains(b) && suffix_len(s0.fl(), b) > suffix_len(
                                s0.fl(),
                                p,
                            ) ==> !placeable(
                                Self::run_block_of(s0, b),
                                obj_size as int,
                                obj_align as int,
                            ));
                        if Self::head_fit(s0, obj_size as int, obj_align as int) {
                            assert(p == s0.fl()[0] && sp == s0);
                            s0.freelist.lemma_wf_view();
                            assert(s0.fl().contains(p)) by {
                                assert(s0.fl()[0] == p);
                            }
                            assert(is_free_node(s0.block_seq(), p)) by {
                                reveal(RawMalloc::fl_matches);
                                let j = choose|j: int|
                                    0 <= j < s0.fl().len() && s0.fl()[j] == p;
                            }
                            lemma_free_node_unique(
                                s0.block_seq(),
                                s0.heap_lo(),
                                s0.heap_hi(),
                                p,
                            );
                            assert(sm.block_seq()[bi].start == free_block_of(
                                s0.block_seq(),
                                s0.fl()[0],
                            ).start);
                            assert(sm.block_seq()[bi].end() == free_run_end(
                                s0.block_seq(),
                                free_node_idx(s0.block_seq(), s0.fl()[0]),
                            ));
                        }
                    }
                    return Ok(obj_start);
                },
                Err(()) => {
                    proof {
                        assert(self.block_seq() == sm.block_seq());
                        assert(self.fl() == sm.fl());
                        assert forall|q: usize|
                            #[trigger] s0.is_obj(q) implies self.is_obj(q) && self.obj_size(q)
                            == s0.obj_size(q) by {
                            assert(sm.is_obj(q) && sm.obj_size(q) == s0.obj_size(q));
                            sm.lemma_obj_unique(q);
                            let ii = sm.obj_idx(q);
                            assert(sm.obj_at(q, ii));
                            assert(self.obj_at(q, ii));
                            self.lemma_obj_unique(q);
                        }
                        assert forall|q: usize| #[trigger] self.is_obj(q) implies s0.is_obj(q) by {
                            self.lemma_obj_unique(q);
                            let ii = self.obj_idx(q);
                            assert(self.obj_at(q, ii));
                            assert(sm.obj_at(q, ii));
                            assert(sm.is_obj(q));
                        }
                        assert(Self::scan_clean(*self, p, obj_size as int, obj_align as int)) by {
                            reveal(RawMalloc::scan_clean);
                        }
                        assert(Self::scan_fit(s0, *self, obj_size as int, obj_align as int)) by {
                            reveal(RawMalloc::scan_fit);
                        }
                        assert(!placeable(
                            free_block_of(self.block_seq(), p),
                            obj_size as int,
                            obj_align as int,
                        )) by {
                            assert(free_block_of(sm.block_seq(), p) == sm.block_seq()[bi]);
                        }
                        assert forall|a: usize|
                            #[trigger] self.fl().contains(a) implies s0.fl().contains(a) by {
                            assert(sm.fl().contains(a));
                        }
                        assert(Self::scan_stable(s0, *self)) by {
                            reveal(RawMalloc::scan_stable);
                        }
                        assert(Self::scan_run_clean(
                            s0,
                            *self,
                            p,
                            obj_size as int,
                            obj_align as int,
                        )) by {
                            reveal(RawMalloc::scan_run_clean);
                        }
                        assert(!placeable(
                            Self::run_block_of(s0, p),
                            obj_size as int,
                            obj_align as int,
                        )) by {
                            assert(sm.block_seq()[bi] == Self::run_block_of(s0, p));
                        }
                        assert(Self::scan_order(s0, *self)) by {
                            reveal(RawMalloc::scan_order);
                        }
                        assert(Self::scan_unvisited(s0, *self, p)) by {
                            reveal(RawMalloc::scan_unvisited);
                        }
                        assert(Self::scan_removed(
                            s0,
                            *self,
                            obj_size as int,
                            obj_align as int,
                        )) by {
                            reveal(RawMalloc::scan_removed);
                        }
                        if Self::head_fit(s0, obj_size as int, obj_align as int) {
                            assert(p == s0.fl()[0] && sp == s0);
                            s0.freelist.lemma_wf_view();
                            assert(s0.fl().contains(p)) by {
                                assert(s0.fl()[0] == p);
                            }
                            assert(is_free_node(s0.block_seq(), p)) by {
                                reveal(RawMalloc::fl_matches);
                                let j = choose|j: int|
                                    0 <= j < s0.fl().len() && s0.fl()[j] == p;
                            }
                            lemma_free_node_unique(
                                s0.block_seq(),
                                s0.heap_lo(),
                                s0.heap_hi(),
                                p,
                            );
                            let hb = free_block_of(s0.block_seq(), s0.fl()[0]);
                            let ce = free_run_end(
                                s0.block_seq(),
                                free_node_idx(s0.block_seq(), s0.fl()[0]),
                            );
                            assert(sm.block_seq()[bi].start == hb.start);
                            assert(sm.block_seq()[bi].end() == ce);
                            assert(sm.block_seq()[bi].free);
                            assert(sm.block_seq()[bi] == Block {
                                start: hb.start,
                                size: ce - hb.start - HEADER_SIZE,
                                free: true,
                            });
                            assert(false);
                        }
                    }
                },
            }
            let next = self.freelist.next_of(p);
            proof {
                self.freelist.lemma_wf_view();
                crate::freelist::Freelist::lemma_index_of(self.fl(), p);
                let j = self.fl().index_of(p);
                if next != 0 {
                    assert(next == self.fl()[j + 1]);
                    assert(self.fl().contains(next));
                    crate::freelist::Freelist::lemma_index_of(self.fl(), next);
                    assert(self.fl().index_of(next) == j + 1);
                    assert(suffix_len(self.fl(), next) < suffix_len(self.fl(), p));
                }
                assert(suffix_len(self.fl(), p) <= suffix_len(fl_mid, p));
                assert(suffix_len(self.fl(), p) >= 1);
                Self::lemma_scan_step_advance(
                    *self,
                    p,
                    next,
                    obj_size as int,
                    obj_align as int,
                );
                Self::lemma_scan_run_step_advance(
                    s0,
                    *self,
                    p,
                    next,
                    obj_size as int,
                    obj_align as int,
                );
                if next != 0 {
                    assert(Self::scan_unvisited(s0, *self, next)) by {
                        reveal(RawMalloc::scan_unvisited);
                        assert forall|a: usize|
                            #[trigger] self.fl().contains(a) && suffix_len(self.fl(), a)
                                < suffix_len(self.fl(), next) implies free_block_of(
                            self.block_seq(),
                            a,
                        ) == free_block_of(s0.block_seq(), a) by {
                            assert(suffix_len(self.fl(), a) < suffix_len(self.fl(), p));
                        }
                    }
                }
            }
            p = next;
        }
        proof {
            reveal(RawMalloc::scan_clean);
            reveal(RawMalloc::scan_fit);
            self.freelist.lemma_wf_view();
            assert forall|i: int|
                0 <= i < self.block_seq().len() && (#[trigger] self.block_seq()[i]).free
                implies !placeable(self.block_seq()[i], obj_size as int, obj_align as int) by {
                lemma_tiles_block_in_range(self.block_seq(), self.heap_lo(), self.heap_hi(), i);
                let a = (self.block_seq()[i].start + HEADER_SIZE) as usize;
                assert(self.fl().contains(a)) by {
                    reveal(RawMalloc::fl_matches);
                }
                assert(is_free_node(self.block_seq(), a)) by {
                    assert(self.block_seq()[i].free && a == self.block_seq()[i].start
                        + HEADER_SIZE);
                }
                lemma_free_node_unique(self.block_seq(), self.heap_lo(), self.heap_hi(), a);
                assert(free_block_of(self.block_seq(), a) == self.block_seq()[i]);
                let j = choose|j: int| 0 <= j < self.fl().len() && self.fl()[j] == a;
                if placeable(self.block_seq()[i], obj_size as int, obj_align as int) {
                    assert(placeable(
                        free_block_of(self.block_seq(), self.fl()[j]),
                        obj_size as int,
                        obj_align as int,
                    ));
                    assert(false);
                }
            }
            if Self::fit_exists(s0, obj_size as int, obj_align as int) {
                let j = choose|j: int|
                    0 <= j < self.fl().len() && placeable(
                        free_block_of(self.block_seq(), #[trigger] self.fl()[j]),
                        obj_size as int,
                        obj_align as int,
                    );
                assert(false);
            }
            assert forall|a: usize|
                #[trigger] self.fl().contains(a) implies !placeable(
                Self::run_block_of(s0, a),
                obj_size as int,
                obj_align as int,
            ) by {
                reveal(RawMalloc::scan_run_clean);
                let j = choose|j: int| 0 <= j < self.fl().len() && self.fl()[j] == a;
                if placeable(Self::run_block_of(s0, a), obj_size as int, obj_align as int) {
                    assert(placeable(
                        Self::run_block_of(s0, self.fl()[j]),
                        obj_size as int,
                        obj_align as int,
                    ));
                    assert(false);
                }
            }
            assert forall|a: usize|
                #[trigger] s0.fl().contains(a) implies !placeable(
                Self::run_block_of(s0, a),
                obj_size as int,
                obj_align as int,
            ) by {
                if !self.fl().contains(a) {
                    reveal(RawMalloc::scan_removed);
                }
            }
        }
        Err(())
    }

    /// Services an allocation request of `size` bytes aligned to `align`:
    /// the layout is augmented to the allocator's block requirements, the
    /// free list is scanned first-fit, and if no free block accommodates the
    /// object the heap is grown. Returns the address of the new object, or
    /// `Err(())` if the request cannot be satisfied.
    fn __alloc(&mut self, size: usize, align: usize) -> (r: Result<usize, ()>)
        requires
            old(self).wf(),
            is_pow2(align as int),
        ensures
            final(self).wf(),
            final(self).heap_hi() - final(self).heap_lo() >= old(self).heap_hi() - old(self).heap_lo(),
            forall|p: usize|
                #[trigger] old(self).is_obj(p) ==> final(self).is_obj(p) && final(self).obj_size(p)
                    == old(self).obj_size(p),
            old(self).mem@.len() > 0 && final(self).heap_lo() == old(self).heap_lo() ==> final(self).heap_bytes().subrange(0, old(self).mem@.len() as int) == old(self).heap_bytes(),
            old(self).mem@.len() > 0 ==> final(self).heap_lo() == old(self).heap_lo(),
            r.is_err() ==> (forall|p: usize|
                #[trigger] final(self).is_obj(p) ==> old(self).is_obj(p)),
            spec_augmented(size as int) > usize::MAX / 2 ==> r.is_err(),
            spec_augmented(size as int) <= usize::MAX / 2 && Self::fit_exists(
                *old(self),
                spec_augmented(size as int),
                (if align < BLOCK_CONTENT_MIN_ALIGN {
                    BLOCK_CONTENT_MIN_ALIGN
                } else {
                    align
                }) as int,
            ) ==> r.is_ok() && final(self).heap_hi() == old(self).heap_hi(),
            r.is_ok() && final(self).heap_hi() == old(self).heap_hi() && old(self).heap_bytes().len() > 0 ==> (exists|a: usize|
                #[trigger] old(self).fl().contains(a) && placeable(
                    Self::run_block_of(*old(self), a),
                    spec_augmented(size as int),
                    (if align < BLOCK_CONTENT_MIN_ALIGN {
                        BLOCK_CONTENT_MIN_ALIGN
                    } else {
                        align
                    }) as int,
                ) && Self::run_block_of(*old(self), a).start < r.unwrap() && r.unwrap()
                    + spec_augmented(size as int) <= Self::run_block_of(*old(self), a).end() && (
                forall|x: usize|
                    Self::run_block_of(*old(self), a).start <= x < r.unwrap() && (x % (
                    if align < BLOCK_CONTENT_MIN_ALIGN {
                        BLOCK_CONTENT_MIN_ALIGN
                    } else {
                        align
                    })) == 0 ==> !(#[trigger] valid_prefix(
                        x - Self::run_block_of(*old(self), a).start,
                    ))) && (forall|b: usize|
                    #[trigger] old(self).fl().contains(b) && suffix_len(old(self).fl(), b)
                        > suffix_len(old(self).fl(), a) ==> !placeable(
                        Self::run_block_of(*old(self), b),
                        spec_augmented(size as int),
                        (if align < BLOCK_CONTENT_MIN_ALIGN {
                            BLOCK_CONTENT_MIN_ALIGN
                        } else {
                            align
                        }) as int,
                    ))),
            spec_augmented(size as int) <= usize::MAX / 2 && Self::head_fit(
                *old(self),
                spec_augmented(size as int),
                (if align < BLOCK_CONTENT_MIN_ALIGN {
                    BLOCK_CONTENT_MIN_ALIGN
                } else {
                    align
                }) as int,
            ) ==> r.is_ok() && free_block_of(old(self).block_seq(), old(self).fl()[0]).start
                < r.unwrap() && r.unwrap() + spec_augmented(size as int) <= free_run_end(
                old(self).block_seq(),
                free_node_idx(old(self).block_seq(), old(self).fl()[0]),
            ) && (forall|x: usize|
                free_block_of(old(self).block_seq(), old(self).fl()[0]).start <= x < r.unwrap()
                    && (x % (if align < BLOCK_CONTENT_MIN_ALIGN {
                    BLOCK_CONTENT_MIN_ALIGN
                } else {
                    align
                })) == 0 ==> !(#[trigger] valid_prefix(
                    x - free_block_of(old(self).block_seq(), old(self).fl()[0]).start,
                ))),
            r.is_ok() && final(self).heap_hi() != old(self).heap_hi() ==> final(self).grower_of().end() > old(self).grower_of().end(),
            r.is_ok() && final(self).heap_hi() != old(self).heap_hi() && old(self).mem@.len() > 0
                ==> valid_prefix(r.unwrap() - old(self).heap_hi()) && (forall|x: usize|
                old(self).heap_hi() <= x < r.unwrap() && (x % (if align
                    < BLOCK_CONTENT_MIN_ALIGN {
                    BLOCK_CONTENT_MIN_ALIGN
                } else {
                    align
                })) == 0 ==> !(#[trigger] valid_prefix(x - old(self).heap_hi()))),
            r.is_ok() && old(self).mem@.len() == 0 ==> valid_prefix(
                r.unwrap() - final(self).heap_lo(),
            ) && (forall|x: usize|
                final(self).heap_lo() <= x < r.unwrap() && (x % (if align
                    < BLOCK_CONTENT_MIN_ALIGN {
                    BLOCK_CONTENT_MIN_ALIGN
                } else {
                    align
                })) == 0 ==> !(#[trigger] valid_prefix(x - final(self).heap_lo()))),
            r.is_ok() ==> ({
                let obj = r.unwrap();
                &&& final(self).is_obj(obj)
                &&& obj % align == 0
                &&& obj % (if align < BLOCK_CONTENT_MIN_ALIGN {
                    BLOCK_CONTENT_MIN_ALIGN
                } else {
                    align
                }) == 0
                &&& final(self).obj_size(obj) >= spec_augmented(size as int)
                &&& final(self).obj_size(obj) < spec_augmented(size as int) + BLOCK_MIN_SIZE
                &&& !old(self).is_obj(obj)
                &&& (forall|p: usize|
                    #[trigger] final(self).is_obj(p) && p != obj ==> old(self).is_obj(p))
            }),
    {
        let (obj_size, obj_align) = match augment_layout(size, align) {
            Ok(t) => t,
            Err(()) => {
                return Err(());
            },
        };
        proof {
            crate::util::lemma_pow2_constants();
            if align < BLOCK_CONTENT_MIN_ALIGN {
                assert(is_pow2(obj_align as int));
            }
        }
        match self.place_in_first_free_block(obj_size, obj_align) {
            Ok(o) => {
                proof {
                    crate::util::lemma_aligned_to_smaller_pow2(
                        o as int,
                        align as int,
                        obj_align as int,
                    );
                    if old(self).mem@.len() == 0 {
                        self.lemma_obj_unique(o);
                        lemma_tiles_block_in_range(
                            self.block_seq(),
                            self.heap_lo(),
                            self.heap_hi(),
                            self.obj_idx(o),
                        );
                        assert(false);
                    }
                }
                return Ok(o);
            },
            Err(()) => {},
        }
        let ghost smid = *self;
        let r2 = self.grow_and_place(obj_size, obj_align);
        match r2 {
            Ok(o) => {
                proof {
                    crate::util::lemma_aligned_to_smaller_pow2(
                        o as int,
                        align as int,
                        obj_align as int,
                    );
                    if self.heap_hi() != old(self).heap_hi() && old(self).mem@.len() > 0 {
                        assert(smid.heap_hi() == old(self).heap_hi());
                        assert(smid.mem@.len() == old(self).mem@.len());
                        assert(valid_prefix(o - old(self).heap_hi()));
                        assert forall|x: usize|
                            old(self).heap_hi() <= x < o && #[trigger] (x % obj_align) == 0
                            implies !valid_prefix(x - old(self).heap_hi()) by {}
                    }
                    if old(self).mem@.len() > 0 {
                        assert(self.heap_hi() > old(self).heap_hi()) by {
                            assert(smid.heap_hi() == old(self).heap_hi());
                            assert(smid.mem@.len() == old(self).mem@.len());
                            assert(valid_prefix(o - smid.heap_hi()));
                            self.lemma_obj_unique(o);
                            lemma_tiles_block_in_range(
                                self.block_seq(),
                                self.heap_lo(),
                                self.heap_hi(),
                                self.obj_idx(o),
                            );
                        }
                    }
                    assert forall|p: usize|
                        #[trigger] old(self).is_obj(p) implies self.is_obj(p) && self.obj_size(p)
                        == old(self).obj_size(p) by {
                        assert(smid.is_obj(p) && smid.obj_size(p) == old(self).obj_size(p));
                    }
                    if old(self).is_obj(o) {
                        assert(smid.is_obj(o));
                        assert(false);
                    }
                    assert forall|p: usize|
                        #[trigger] self.is_obj(p) && p != o implies old(self).is_obj(p) by {
                        assert(smid.is_obj(p));
                    }
                }
                Ok(o)
            },
            Err(()) => {
                proof {
                    assert(self.block_seq() == smid.block_seq());
                    assert forall|p: usize|
                        #[trigger] old(self).is_obj(p) implies self.is_obj(p) && self.obj_size(p)
                        == old(self).obj_size(p) by {
                        assert(smid.is_obj(p) && smid.obj_size(p) == old(self).obj_size(p));
                        smid.lemma_obj_unique(p);
                        let ii = smid.obj_idx(p);
                        assert(smid.obj_at(p, ii));
                        assert(self.obj_at(p, ii));
                        self.lemma_obj_unique(p);
                    }
                    assert forall|p: usize| #[trigger] self.is_obj(p) implies old(self).is_obj(
                        p,
                    ) by {
                        self.lemma_obj_unique(p);
                        let ii = self.obj_idx(p);
                        assert(self.obj_at(p, ii));
                        assert(smid.obj_at(p, ii));
                        assert(smid.is_obj(p));
                    }
                }
                Err(())
            },
        }
    }

    /// Allocates `size` bytes aligned to `align` and returns the address of
    /// the new object, or the null address when the request cannot be
    /// satisfied. The alignment must be a power of two. A request that some
    /// free block can host succeeds without growing the heap; one whose
    /// augmented size would exceed half the address space always fails.
    pub fn malloc(&mut self, size: usize, align: usize) -> (r: usize)
        requires
            old(self).wf(),
            is_pow2(align as int),
        ensures
            final(self).wf(),
            final(self).heap_hi() - final(self).heap_lo() >= old(self).heap_hi() - old(self).heap_lo(),
            forall|p: usize|
                #[trigger] old(self).is_obj(p) ==> final(self).is_obj(p) && final(self).obj_size(p)
                    == old(self).obj_size(p),
            old(self).heap_bytes().len() > 0 ==> final(self).heap_lo() == old(self).heap_lo()
                && final(self).heap_bytes().subrange(0, old(self).heap_bytes().len() as int)
                == old(self).heap_bytes(),
            r == 0 ==> (forall|p: usize| #[trigger] final(self).is_obj(p) ==> old(self).is_obj(p)),
            r != 0 ==> final(self).is_obj(r) && r % align == 0 && final(self).obj_size(r)
                >= spec_augmented(size as int) && final(self).obj_size(r) < spec_augmented(
                size as int,
            ) + BLOCK_MIN_SIZE && !old(self).is_obj(r) && (forall|p: usize|
                #[trigger] final(self).is_obj(p) && p != r ==> old(self).is_obj(p)),
            spec_augmented(size as int) > usize::MAX / 2 ==> r == 0,
            spec_augmented(size as int) <= usize::MAX / 2 && Self::fit_exists(
                *old(self),
                spec_augmented(size as int),
                (if align < BLOCK_CONTENT_MIN_ALIGN {
                    BLOCK_CONTENT_MIN_ALIGN
                } else {
                    align
                }) as int,
            ) ==> r != 0 && final(self).heap_hi() == old(self).heap_hi(),
            r != 0 && final(self).heap_hi() == old(self).heap_hi() && old(self).heap_bytes().len()
                > 0 ==> (exists|a: usize|
                #[trigger] old(self).fl().contains(a) && placeable(
                    Self::run_block_of(*old(self), a),
                    spec_augmented(size as int),
                    (if align < BLOCK_CONTENT_MIN_ALIGN {
                        BLOCK_CONTENT_MIN_ALIGN
                    } else {
                        align
                    }) as int,
                ) && Self::run_block_of(*old(self), a).start < r && r + spec_augmented(
                    size as int,
                ) <= Self::run_block_of(*old(self), a).end() && (forall|x: usize|
                    Self::run_block_of(*old(self), a).start <= x < r && (x % (if align
                        < BLOCK_CONTENT_MIN_ALIGN {
                        BLOCK_CONTENT_MIN_ALIGN
                    } else {
                        align
                    })) == 0 ==> !(#[trigger] valid_prefix(
                        x - Self::run_block_of(*old(self), a).start,
                    ))) && (forall|b: usize|
                    #[trigger] old(self).fl().contains(b) && suffix_len(old(self).fl(), b)
                        > suffix_len(old(self).fl(), a) ==> !placeable(
                        Self::run_block_of(*old(self), b),
                        spec_augmented(size as int),
                        (if align < BLOCK_CONTENT_MIN_ALIGN {
                            BLOCK_CONTENT_MIN_ALIGN
                        } else {
                            align
                        }) as int,
                    ))),
            spec_augmented(size as int) <= usize::MAX / 2 && Self::head_fit(
                *old(self),
                spec_augmented(size as int),
                (if align < BLOCK_CONTENT_MIN_ALIGN {
                    BLOCK_CONTENT_MIN_ALIGN
                } else {
                    align
                }) as int,
            ) ==> r != 0 && free_block_of(old(self).block_seq(), old(self).fl()[0]).start < r && r
                + spec_augmented(size as int) <= free_run_end(
                old(self).block_seq(),
                free_node_idx(old(self).block_seq(), old(self).fl()[0]),
            ) && (forall|x: usize|
                free_block_of(old(self).block_seq(), old(self).fl()[0]).start <= x < r && (x % (
                if align < BLOCK_CONTENT_MIN_ALIGN {
                    BLOCK_CONTENT_MIN_ALIGN
                } else {
                    align
                })) == 0 ==> !(#[trigger] valid_prefix(
                    x - free_block_of(old(self).block_seq(), old(self).fl()[0]).start,
                ))),
            r != 0 && final(self).heap_hi() != old(self).heap_hi() ==> final(self).grower_of().end() > old(self).grower_of().end(),
            r != 0 && final(self).heap_hi() != old(self).heap_hi() && old(self).heap_bytes().len()
                > 0 ==> valid_prefix(r - old(self).heap_hi()) && (forall|x: usize|
                old(self).heap_hi() <= x < r && (x % (if align < BLOCK_CONTENT_MIN_ALIGN {
                    BLOCK_CONTENT_MIN_ALIGN
                } else {
                    align
                })) == 0 ==> !(#[trigger] valid_prefix(x - old(self).heap_hi()))),
            r != 0 && old(self).heap_bytes().len() == 0 ==> valid_prefix(
                r - final(self).heap_lo(),
            ) && (forall|x: usize|
                final(self).heap_lo() <= x < r && (x % (if align < BLOCK_CONTENT_MIN_ALIGN {
                    BLOCK_CONTENT_MIN_ALIGN
                } else {
                    align
                })) == 0 ==> !(#[trigger] valid_prefix(x - final(self).heap_lo()))),
    {
        let r = match self.__alloc(size, align) {
            Ok(o) => Some(o),
            Err(()) => None,
        };
        proof {
            if r.is_some() {
                let o = r.unwrap();
                self.lemma_obj_unique(o);
                let i = self.obj_idx(o);
                lemma_tiles_block_in_range(self.block_seq(), self.heap_lo(), self.heap_hi(), i);
                assert(o != 0);
            }
        }
        crate::util::addr_or_null(r)
    }

    /// Allocates `size` bytes aligned to `align` and returns the address of
    /// the new object together with the object's full content size, which
    /// may exceed the request, or `None` when the request cannot be
    /// satisfied.
    pub fn allocate(&mut self, size: usize, align: usize) -> (r: Option<(usize, usize)>)
        requires
            old(self).wf(),
            is_pow2(align as int),
        ensures
            final(self).wf(),
            forall|p: usize|
                #[trigger] old(self).is_obj(p) ==> final(self).is_obj(p) && final(self).obj_size(p)
                    == old(self).obj_size(p),
            match r {
                Some((obj, sz)) => final(self).is_obj(obj) && obj % align == 0 && sz as int
                    == final(self).obj_size(obj) && sz >= spec_augmented(size as int) && (
                sz as int) < spec_augmented(size as int) + BLOCK_MIN_SIZE && !old(self).is_obj(
                    obj,
                ),
                None => forall|p: usize| #[trigger] final(self).is_obj(p) ==> old(self).is_obj(p),
            },
            spec_augmented(size as int) > usize::MAX / 2 ==> r.is_none(),
            spec_augmented(size as int) <= usize::MAX / 2 && Self::fit_exists(
                *old(self),
                spec_augmented(size as int),
                (if align < BLOCK_CONTENT_MIN_ALIGN {
                    BLOCK_CONTENT_MIN_ALIGN
                } else {
                    align
                }) as int,
            ) ==> r.is_some() && final(self).heap_hi() == old(self).heap_hi(),
            r.is_some() ==> r.unwrap().0 != 0,
            final(self).heap_hi() - final(self).heap_lo() >= old(self).heap_hi() - old(self).heap_lo(),
            old(self).heap_bytes().len() > 0 ==> final(self).heap_lo() == old(self).heap_lo()
                && final(self).heap_bytes().subrange(0, old(self).heap_bytes().len() as int)
                == old(self).heap_bytes(),
    {
        match self.__alloc(size, align) {
            Ok(obj_start) => {
                proof {
                    self.lemma_obj_unique(obj_start);
                    lemma_tiles_block_in_range(
                        self.block_seq(),
                        self.heap_lo(),
                        self.heap_hi(),
                        self.obj_idx(obj_start),
                    );
                }
                let ghost i = self.obj_idx(obj_start);
                let h = self.read_header(obj_start - HEADER_SIZE, Ghost(i));
                Some((obj_start, h.content_size()))
            },
            Err(()) => None,
        }
    }

    /// Deallocates the object at `obj_start` with the stated layout.
    pub fn deallocate(&mut self, obj_start: usize, size: usize, align: usize)
        requires
            old(self).wf(),
            old(self).is_obj(obj_start),
        ensures
            final(self).wf(),
            !final(self).is_obj(obj_start),
            final(self).block_seq() == old(self).block_seq().update(
                old(self).obj_idx(obj_start),
                Block {
                    start: obj_start - HEADER_SIZE,
                    size: old(self).obj_size(obj_start),
                    free: true,
                },
            ),
            final(self).fl() == seq![obj_start] + old(self).fl(),
            forall|p: usize|
                #[trigger] old(self).is_obj(p) && p != obj_start ==> final(self).is_obj(p)
                    && final(self).obj_size(p) == old(self).obj_size(p),
            final(self).heap_lo() == old(self).heap_lo(),
            final(self).heap_hi() == old(self).heap_hi(),
            final(self).heap_bytes() == old(self).heap_bytes(),
    {
        self.dealloc(obj_start, size, align)
    }

    /// Reads the header of the block at `block_start` while the free list
    /// is under repair: only the header cells need to be in step.
    fn read_header_cells(&self, block_start: usize, Ghost(i): Ghost<int>) -> (h: Header)
        requires
            self.cells_ok(),
            self.cells_match(),
            tiles(self.block_seq(), self.heap_lo(), self.heap_hi()),
            0 <= i < self.block_seq().len(),
            self.block_seq()[i].start == block_start,
        ensures
            h.spec_content_size() == self.block_seq()[i].size,
            h.spec_is_tagged() == self.block_seq()[i].free,
    {
        proof {
            reveal(RawMalloc::cells_match);
            lemma_tiles_block_in_range(self.blocks@, self.heap_lo(), self.heap_hi(), i);
        }
        let k = (block_start - self.base) / HEADER_SIZE;
        self.hdrs[k]
    }

    /// Tries to adjust the occupied block at `block_start` in place so that
    /// its content holds `new_obj_size` bytes, consuming subsequent free
    /// blocks as needed. Shrinks always succeed; growth fails if the heap
    /// end or an occupied block is reached first, in which case the free
    /// blocks already consumed stay merged into the block.
    #[verifier::rlimit(100)]
    #[verifier::spinoff_prover]
    fn try_adjust(&mut self, block_start: usize, new_obj_size: usize, Ghost(i): Ghost<
        int,
    >) -> (r: Result<(), ()>)
        requires
            old(self).wf(),
            0 <= i < old(self).block_seq().len(),
            old(self).block_seq()[i].start == block_start,
            !old(self).block_seq()[i].free,
            new_obj_size % HEADER_SIZE == 0,
            NODE_SIZE <= new_obj_size <= usize::MAX / 2,
        ensures
            final(self).wf(),
            final(self).heap_lo() == old(self).heap_lo(),
            final(self).heap_hi() == old(self).heap_hi(),
            final(self).heap_bytes() == old(self).heap_bytes(),
            final(self).grower == old(self).grower,
            final(self).is_obj((block_start + HEADER_SIZE) as usize),
            forall|p: usize|
                #[trigger] old(self).is_obj(p) && p != (block_start + HEADER_SIZE) as usize
                    ==> final(self).is_obj(p) && final(self).obj_size(p) == old(self).obj_size(p),
            forall|p: usize|
                #[trigger] final(self).is_obj(p) && p != (block_start + HEADER_SIZE) as usize
                    ==> old(self).is_obj(p),
            r.is_ok() ==> final(self).obj_size((block_start + HEADER_SIZE) as usize)
                >= new_obj_size,
            r.is_ok() ==> final(self).obj_size((block_start + HEADER_SIZE) as usize)
                < new_obj_size + BLOCK_MIN_SIZE,
            old(self).block_seq()[i].size >= new_obj_size + BLOCK_MIN_SIZE ==> r.is_ok()
                && final(self).obj_size((block_start + HEADER_SIZE) as usize) == new_obj_size,
            free_run_end(old(self).block_seq(), i) - (block_start + HEADER_SIZE) >= new_obj_size
                && block_start + HEADER_SIZE + new_obj_size <= usize::MAX ==> r.is_ok(),
            r.is_ok() ==> free_run_end(
                final(self).block_seq(),
                final(self).obj_idx((block_start + HEADER_SIZE) as usize),
            ) == free_run_end(old(self).block_seq(), i),
            r.is_err() ==> final(self).obj_size((block_start + HEADER_SIZE) as usize) >= old(self).obj_size((block_start + HEADER_SIZE) as usize),
            r.is_err() ==> final(self).obj_size((block_start + HEADER_SIZE) as usize)
                < new_obj_size,
            r.is_err() && block_start + HEADER_SIZE + new_obj_size <= usize::MAX ==> final(self).obj_size((block_start + HEADER_SIZE) as usize) as int == free_run_end(
                old(self).block_seq(),
                i,
            ) - (block_start + HEADER_SIZE),
            old(self).block_seq()[i].size >= new_obj_size ==> r.is_ok(),
    {
        let ghost s0 = *self;
        let ghost bs = self.blocks@;
        let ghost lo = self.base as int;
        let ghost hi = self.base + self.mem@.len();
        proof {
            lemma_tiles_block_in_range(bs, lo, hi, i);
            assert(s0.obj_at((block_start + HEADER_SIZE) as usize, i));
            s0.lemma_obj_unique((block_start + HEADER_SIZE) as usize);
        }
        let obj = block_start + HEADER_SIZE;
        let new_end = match checked_add(obj, new_obj_size) {
            Some(p) => p,
            None => {
                return Err(());
            },
        };
        let heap_end = self.base + self.mem.len();
        let h = self.read_header(block_start, Ghost(i));
        let csize = h.content_size();
        let mut e = obj + csize;
        let mut merged_any = false;
        let ghost mut k: int = 0;
        proof {
            reveal(RawMalloc::fl_matches);
            self.freelist.lemma_wf_view();
        }
        loop
            invariant
                self.cells_ok(),
                self.cells_match(),
                self.freelist.wf(),
                tiles(self.block_seq(), self.heap_lo(), self.heap_hi()),
                self.blocks@ == bs,
                self.base == s0.base,
                self.mem@ == s0.mem@,
                self.hdrs@ == s0.hdrs@,
                self.grower == s0.grower,
                lo == self.base as int,
                hi == self.base + self.mem@.len(),
                heap_end as int == hi,
                s0.wf(),
                s0.blocks@ == bs,
                s0.base == self.base,
                s0.mem@ == self.mem@,
                0 <= i,
                0 <= k,
                i + k < bs.len(),
                bs[i].start == block_start,
                !bs[i].free,
                e as int == bs[i + k].end(),
                e >= obj,
                e as int >= obj + bs[i].size,
                e as int <= hi,
                (e - obj) as int % (HEADER_SIZE as int) == 0,
                free_run_end(bs, i) == free_run_end(bs, i + k),
                obj == block_start + HEADER_SIZE,
                new_end == obj + new_obj_size,
                new_obj_size % HEADER_SIZE == 0,
                NODE_SIZE <= new_obj_size <= usize::MAX / 2,
                forall|j: int| 1 <= j <= k ==> (#[trigger] bs[i + j]).free,
                merged_any == (k != 0),
                k == 0 ==> self.freelist == s0.freelist,
                k > 0 ==> bs[i].size < new_obj_size,
                forall|a: usize|
                    #[trigger] self.fl().contains(a) <==> (s0.fl().contains(a)
                        && !Self::node_of_range(bs, i, k, a)),
            ensures
                e < new_end ==> e as int == free_run_end(bs, i),
            decreases bs.len() - (i + k),
        {
            if e >= new_end {
                break;
            }
            if e == heap_end {
                proof {
                    if i + k + 1 < bs.len() {
                        assert(bs[i + k].end() == bs[i + k + 1].start);
                        lemma_tiles_block_in_range(bs, lo, hi, i + k + 1);
                        assert(false);
                    }
                    assert(free_run_end(bs, i + k) == bs[i + k].end());
                }
                break;
            }
            proof {
                lemma_tiles_block_in_range(bs, lo, hi, i + k);
                if i + k == bs.len() - 1 {
                    assert(bs[i + k].end() == hi);
                    assert(false);
                }
                assert(bs[i + k].end() == bs[i + k + 1].start);
            }
            let nh = self.read_header_cells(e, Ghost(i + k + 1));
            if !nh.is_tagged() {
                proof {
                    assert(!bs[i + k + 1].free);
                    assert(free_run_end(bs, i + k) == bs[i + k].end());
                }
                break;
            }
            let node = e + HEADER_SIZE;
            proof {
                lemma_tiles_block_in_range(bs, lo, hi, i + k + 1);
                assert(s0.fl().contains(node)) by {
                    reveal(RawMalloc::fl_matches);
                    assert(s0.fl_matches());
                    assert(bs[i + k + 1].free);
                    assert(s0.fl() == s0.freelist@);
                }
                assert(!Self::node_of_range(bs, i, k, node)) by {
                    if Self::node_of_range(bs, i, k, node) {
                        let j = choose|j: int|
                            1 <= j <= k && node == (#[trigger] bs[i + j]).start + HEADER_SIZE;
                        lemma_tiles_block_in_range(bs, lo, hi, i + j);
                        lemma_tiles_disjoint(bs, lo, hi, i + j, i + k + 1);
                    }
                }
                assert(self.fl().contains(node));
                self.freelist.lemma_wf_view();
            }
            let ghost fl_pre = self.fl();
            let ghost spre = *self;
            self.freelist.remove(node);
            merged_any = true;
            proof {
                assert(self.cells_match()) by {
                    reveal(RawMalloc::cells_match);
                    assert(spre.cells_match()) by {
                        reveal(RawMalloc::cells_match);
                    }
                }
                k = k + 1;
                assert forall|a: usize|
                    #[trigger] self.fl().contains(a) <==> (s0.fl().contains(a)
                        && !Self::node_of_range(bs, i, k, a)) by {
                    if Self::node_of_range(bs, i, k, a) && a != node {
                        let j = choose|j: int|
                            1 <= j <= k && a == (#[trigger] bs[i + j]).start + HEADER_SIZE;
                        assert(j < k || a == node);
                        assert(Self::node_of_range(bs, i, k - 1, a));
                    }
                    if Self::node_of_range(bs, i, k - 1, a) {
                        let j = choose|j: int|
                            1 <= j <= k - 1 && a == (#[trigger] bs[i + j]).start + HEADER_SIZE;
                        assert(Self::node_of_range(bs, i, k, a));
                    }
                    if a == node {
                        assert(Self::node_of_range(bs, i, k, a)) by {
                            assert(node == bs[i + k].start + HEADER_SIZE);
                        }
                    }
                }
            }
            e = e + HEADER_SIZE + nh.content_size();
        }
        if e < new_end {
            // the object cannot grow to the requested size here; keep what
            // was merged
            if !merged_any {
                proof {
                    assert(self.fl_matches()) by {
                        reveal(RawMalloc::fl_matches);
                        assert(s0.fl_matches()) by {
                            reveal(RawMalloc::fl_matches);
                        }
                    }
                    assert(self.coupled()) by {
                        reveal(RawMalloc::coupled);
                        assert(s0.coupled()) by {
                            reveal(RawMalloc::coupled);
                        }
                    }
                    assert(self.wf());
                    assert(self.block_seq() == s0.block_seq());
                    assert forall|p: usize|
                        #[trigger] s0.is_obj(p) implies self.is_obj(p) && self.obj_size(p)
                        == s0.obj_size(p) by {
                        s0.lemma_obj_unique(p);
                        let ii = s0.obj_idx(p);
                        assert(s0.obj_at(p, ii));
                        assert(self.obj_at(p, ii));
                        self.lemma_obj_unique(p);
                    }
                    assert forall|p: usize| #[trigger] self.is_obj(p) implies s0.is_obj(p) by {
                        self.lemma_obj_unique(p);
                        let ii = self.obj_idx(p);
                        assert(self.obj_at(p, ii));
                        assert(s0.obj_at(p, ii));
                    }
                    assert(self.obj_at((block_start + HEADER_SIZE) as usize, i));
                    self.lemma_obj_unique((block_start + HEADER_SIZE) as usize);
                    assert(self.obj_size((block_start + HEADER_SIZE) as usize) == bs[i].size);
                    assert(s0.obj_size((block_start + HEADER_SIZE) as usize) == bs[i].size);
                }
                return Err(());
            }
            let ghost fl_end = self.fl();
            proof {
                crate::util::lemma_mod_divides_trans((e - obj) as int, 2, HEADER_SIZE as int);
            }
            self.set_header(block_start, e - obj, false);
            proof {
                assert(self.fl() == fl_end);
            }
            proof {
                let osz = e - obj;
                let pb = placed_blocks(block_start as int, e as int, obj as int, osz as int);
                self.blocks@ = bs.subrange(0, i) + pb + bs.subrange(i + k + 1, bs.len() as int);
                assert(pb =~= seq![
                    Block { start: block_start as int, size: osz as int, free: false },
                ]) by {
                    reveal(placed_blocks);
                }
                assert forall|a: usize|
                    #[trigger] self.fl().contains(a) <==> ((s0.fl().contains(a)
                        && !Self::node_of_range(bs, i, k, a)) || is_free_node(pb, a)) by {
                    assert(self.fl().contains(a) <==> fl_end.contains(a));
                    assert(fl_end.contains(a) <==> (s0.fl().contains(a) && !Self::node_of_range(
                        bs,
                        i,
                        k,
                        a,
                    )));
                    if is_free_node(pb, a) {
                        let j2 = choose|j2: int|
                            0 <= j2 < pb.len() && (#[trigger] pb[j2]).free && a == pb[j2].start
                                + HEADER_SIZE;
                        assert(false);
                    }
                }
                assert(Self::adjust_splice_shape(
                    s0,
                    *self,
                    i,
                    k,
                    block_start as int,
                    e as int,
                    obj,
                    osz as int,
                )) by {
                    reveal(RawMalloc::adjust_splice_shape);
                    Self::lemma_cell_addr(lo, block_start as int);
                }
                Self::lemma_adjust_splice_wf(
                    s0,
                    *self,
                    i,
                    k,
                    block_start as int,
                    e as int,
                    obj,
                    osz as int,
                );
                assert(s0.obj_at(obj, i));
                s0.lemma_obj_unique(obj);
                assert(s0.obj_size(obj) == bs[i].size);
                assert(self.obj_at(obj, i)) by {
                    assert(self.block_seq()[i] == pb[0]);
                }
                self.lemma_obj_unique(obj);
                assert(self.obj_size(obj) == osz);
            }
            return Err(());
        }
        proof {
            assert forall|j2: int|
                0 <= j2 < self.freelist@.len() implies !(block_start
                < #[trigger] self.freelist@[j2] && self.freelist@[j2] <= e) by {
                let a = self.freelist@[j2];
                assert(self.fl().contains(a));
                assert(s0.fl().contains(a) && !Self::node_of_range(bs, i, k, a));
                assert(is_free_node(bs, a)) by {
                    reveal(RawMalloc::fl_matches);
                }
                lemma_free_node_unique(bs, lo, hi, a);
                let i2 = free_node_idx(bs, a);
                assert(i2 != i);
                assert(!(i < i2 <= i + k)) by {
                    if i < i2 <= i + k {
                        assert(a == (#[trigger] bs[i + (i2 - i)]).start + HEADER_SIZE);
                        assert(Self::node_of_range(bs, i, k, a));
                    }
                }
                lemma_tiles_block_in_range(bs, lo, hi, i2);
                lemma_tiles_block_in_range(bs, lo, hi, i + k);
                if i2 < i {
                    lemma_tiles_disjoint(bs, lo, hi, i2, i);
                } else {
                    lemma_tiles_disjoint(bs, lo, hi, i + k, i2);
                }
            }
        }
        let ghost fl_preplace = self.fl();
        self.place_raw(block_start, e, obj, new_obj_size);
        proof {
            let pb = placed_blocks(block_start as int, e as int, obj as int, new_obj_size as int);
            self.blocks@ = bs.subrange(0, i) + pb + bs.subrange(i + k + 1, bs.len() as int);
            assert forall|a: usize|
                #[trigger] self.fl().contains(a) <==> ((s0.fl().contains(a)
                    && !Self::node_of_range(bs, i, k, a)) || is_free_node(pb, a)) by {
                assert(self.fl().contains(a) <==> (fl_preplace.contains(a) || is_free_node(
                    pb,
                    a,
                )));
            }
            assert(Self::adjust_splice_shape(
                s0,
                *self,
                i,
                k,
                block_start as int,
                e as int,
                obj,
                new_obj_size as int,
            )) by {
                reveal(RawMalloc::adjust_splice_shape);
            }
            Self::lemma_adjust_splice_wf(
                s0,
                *self,
                i,
                k,
                block_start as int,
                e as int,
                obj,
                new_obj_size as int,
            );
            let t = self.blocks@;
            lemma_placed_blocks(block_start as int, e as int, obj as int, new_obj_size as int);
            lemma_splice_index(bs, i, i + k + 1, pb);
            assert(self.obj_at(obj, i)) by {
                assert(t[i] == pb[0]);
                assert(placed_obj_idx(block_start as int, obj as int) == 0);
            }
            self.lemma_obj_unique(obj);
            assert(self.obj_idx(obj) == i);
            // the free run from the adjusted block keeps its end
            assert(free_run_end(t, i) == free_run_end(bs, i)) by {
                let pl = pb.len() as int;
                let off = k + 1 - pl;
                assert(1 <= pl <= 2) by {
                    reveal(placed_blocks);
                }
                assert forall|j2: int| i + pl <= j2 < t.len() implies #[trigger] t[j2] == bs[j2
                    + off] by {}
                assert(free_run_end(bs, i) == free_run_end(bs, i + k));
                if pl == 2 {
                    assert(t[i + 1] == pb[1]);
                    assert(pb[1].free && pb[1].end() == e) by {
                        reveal(placed_blocks);
                    }
                    if i + 2 < t.len() {
                        assert(t[i + 2] == bs[i + k + 1]);
                        if bs[i + k + 1].free {
                            lemma_free_run_end_shifted(bs, t, off, i + 2);
                            assert(free_run_end(t, i + 1) == free_run_end(t, i + 2));
                            assert(free_run_end(bs, i + k) == free_run_end(bs, i + k + 1));
                        } else {
                            assert(free_run_end(t, i + 1) == t[i + 1].end());
                            assert(free_run_end(bs, i + k) == bs[i + k].end());
                        }
                    } else {
                        assert(free_run_end(t, i + 1) == t[i + 1].end());
                        assert(i + k + 1 == bs.len());
                        assert(free_run_end(bs, i + k) == bs[i + k].end());
                    }
                    assert(free_run_end(t, i) == free_run_end(t, i + 1));
                } else {
                    assert(t[i].end() == e);
                    if i + 1 < t.len() {
                        assert(t[i + 1] == bs[i + k + 1]);
                        if bs[i + k + 1].free {
                            lemma_free_run_end_shifted(bs, t, off, i + 1);
                            assert(free_run_end(t, i) == free_run_end(t, i + 1));
                            assert(free_run_end(bs, i + k) == free_run_end(bs, i + k + 1));
                        } else {
                            assert(free_run_end(t, i) == t[i].end());
                            assert(free_run_end(bs, i + k) == bs[i + k].end());
                        }
                    } else {
                        assert(free_run_end(t, i) == t[i].end());
                        assert(i + k + 1 == bs.len());
                        assert(free_run_end(bs, i + k) == bs[i + k].end());
                    }
                }
            }
        }
        Ok(())
    }

    /// Copies `n` heap bytes from the object at `src` to the disjoint
    /// region at `dst`, leaving every other byte and all bookkeeping as it
    /// was.
    fn copy_payload(&mut self, src: usize, dst: usize, n: usize)
        requires
            old(self).cells_ok(),
            old(self).heap_lo() <= src,
            src + n <= old(self).heap_hi(),
            old(self).heap_lo() <= dst,
            dst + n <= old(self).heap_hi(),
            src + n <= dst || dst + n <= src,
        ensures
            final(self).base == old(self).base,
            final(self).hdrs == old(self).hdrs,
            final(self).freelist == old(self).freelist,
            final(self).grower == old(self).grower,
            final(self).blocks == old(self).blocks,
            final(self).mem@.len() == old(self).mem@.len(),
            forall|t: int|
                0 <= t < n ==> #[trigger] final(self).mem@[dst - final(self).base + t] == old(self).mem@[src - old(self).base + t],
            forall|x: int|
                0 <= x < final(self).mem@.len() && !(dst - final(self).base <= x < dst - final(self).base + n) ==> #[trigger] final(self).mem@[x] == old(self).mem@[x],
    {
        let mut t: usize = 0;
        while t < n
            invariant
                self.base == old(self).base,
                self.hdrs == old(self).hdrs,
                self.freelist == old(self).freelist,
                self.grower == old(self).grower,
                self.blocks == old(self).blocks,
                self.mem@.len() == old(self).mem@.len(),
                self.cells_ok(),
                t <= n,
                self.heap_lo() <= src,
                src + n <= self.heap_hi(),
                self.heap_lo() <= dst,
                dst + n <= self.heap_hi(),
                src + n <= dst || dst + n <= src,
                forall|x: int|
                    0 <= x < t ==> #[trigger] self.mem@[dst - self.base + x] == old(self).mem@[src - old(self).base + x],
                forall|x: int|
                    0 <= x < self.mem@.len() && !(dst - self.base <= x < dst - self.base + t)
                        ==> #[trigger] self.mem@[x] == old(self).mem@[x],
            decreases n - t,
        {
            let v = self.mem[src - self.base + t];
            self.mem.set(dst - self.base + t, v);
            t = t + 1;
        }
    }

    /// Reallocates the object at `obj_start` to hold `new_size` bytes.
    /// First the block is adjusted in place; when that fails, a new block is
    /// allocated, the old contents are copied over, and the old block is
    /// freed. Shrinks always succeed in place and hand back the same
    /// address.
    #[verifier::rlimit(100)]
    #[verifier::spinoff_prover]
    fn __realloc(&mut self, obj_start: usize, align: usize, new_size: usize) -> (r: Result<
        usize,
        (),
    >)
        requires
            old(self).wf(),
            old(self).is_obj(obj_start),
            is_pow2(align as int),
            obj_start % align == 0,
        ensures
            final(self).wf(),
            final(self).heap_lo() == old(self).heap_lo(),
            r.is_ok() ==> ({
                let q = r.unwrap();
                &&& final(self).is_obj(q)
                &&& final(self).obj_size(q) >= spec_augmented(new_size as int)
                &&& q % align == 0
                &&& (forall|p: usize|
                    #[trigger] old(self).is_obj(p) && p != obj_start ==> final(self).is_obj(p)
                        && final(self).obj_size(p) == old(self).obj_size(p))
            }),
            r.is_err() ==> final(self).is_obj(obj_start) && final(self).obj_size(obj_start) >= old(self).obj_size(obj_start) && (forall|p: usize|
                #[trigger] old(self).is_obj(p) && p != obj_start ==> final(self).is_obj(p)
                    && final(self).obj_size(p) == old(self).obj_size(p)),
            r.is_err() ==> (forall|t: int|
                0 <= t < old(self).obj_size(obj_start) ==> #[trigger] final(self).byte_at(
                    obj_start + t,
                ) == old(self).byte_at(obj_start + t)),
            spec_augmented(new_size as int) <= usize::MAX / 2 && spec_augmented(new_size as int)
                <= old(self).obj_size(obj_start) ==> r == Ok::<usize, ()>(obj_start),
            r == Ok::<usize, ()>(obj_start) ==> final(self).heap_bytes() == old(self).heap_bytes()
                && final(self).obj_size(obj_start) < spec_augmented(new_size as int)
                + BLOCK_MIN_SIZE,
            spec_augmented(new_size as int) <= usize::MAX / 2 && old(self).obj_size(obj_start)
                >= spec_augmented(new_size as int) + BLOCK_MIN_SIZE ==> r == Ok::<usize, ()>(obj_start) && final(self).obj_size(obj_start) == spec_augmented(new_size as int),
            spec_augmented(new_size as int) <= usize::MAX / 2 && free_run_end(
                old(self).block_seq(),
                old(self).obj_idx(obj_start),
            ) - obj_start >= spec_augmented(new_size as int) ==> r == Ok::<usize, ()>(obj_start),
            r == Ok::<usize, ()>(obj_start) ==> free_run_end(
                final(self).block_seq(),
                final(self).obj_idx(obj_start),
            ) == free_run_end(old(self).block_seq(), old(self).obj_idx(obj_start)),
            r.is_ok() && r != Ok::<usize, ()>(obj_start) ==> (forall|t: int|
                0 <= t < old(self).obj_size(obj_start) ==> #[trigger] final(self).byte_at(
                    r.unwrap() + t,
                ) == old(self).byte_at(obj_start + t)),
    {
        let ghost s0 = *self;
        let new_obj_size = match augment_size(new_size) {
            Ok(v) => v,
            Err(()) => {
                return Err(());
            },
        };
        proof {
            old(self).lemma_obj_unique(obj_start);
            lemma_tiles_block_in_range(
                self.block_seq(),
                self.heap_lo(),
                self.heap_hi(),
                old(self).obj_idx(obj_start),
            );
            assert(old(self).mem@.len() > 0);
        }
        let ghost i = old(self).obj_idx(obj_start);
        proof {
            lemma_free_run_end_bounds(
                self.blocks@,
                self.heap_lo(),
                self.heap_hi(),
                i,
            );
        }
        let block_start = obj_start - HEADER_SIZE;
        let h = self.read_header(block_start, Ghost(i));
        let obj_size = h.content_size();
        match self.try_adjust(block_start, new_obj_size, Ghost(i)) {
            Ok(()) => {
                return Ok(obj_start);
            },
            Err(()) => {},
        }
        let ghost s1 = *self;
        let q = match self.__alloc(new_obj_size, align) {
            Ok(q) => q,
            Err(()) => {
                proof {
                    assert(self.is_obj(obj_start) && self.obj_size(obj_start) >= s0.obj_size(
                        obj_start,
                    )) by {
                        assert(s1.is_obj(obj_start));
                    }
                    assert forall|t: int|
                        0 <= t < s0.obj_size(obj_start) implies #[trigger] self.byte_at(
                        obj_start + t,
                    ) == s0.byte_at(obj_start + t) by {
                        assert(s1.heap_bytes() == s0.heap_bytes());
                        assert(s1.mem@.len() > 0);
                        assert(self.heap_lo() == s1.heap_lo());
                        assert(s1.heap_lo() <= obj_start + t < s1.heap_hi()) by {
                            s1.lemma_obj_unique(obj_start);
                            lemma_tiles_block_in_range(
                                s1.block_seq(),
                                s1.heap_lo(),
                                s1.heap_hi(),
                                s1.obj_idx(obj_start),
                            );
                            assert(s1.obj_size(obj_start) >= s0.obj_size(obj_start));
                        }
                        assert(self.heap_bytes().subrange(0, s1.mem@.len() as int)
                            == s1.heap_bytes());
                        assert(self.heap_bytes().subrange(0, s1.mem@.len() as int)[obj_start + t
                            - s1.heap_lo()] == self.heap_bytes()[obj_start + t - s1.heap_lo()]);
                    }
                }
                return Err(());
            },
        };
        proof {
            assert(self.is_obj(obj_start) && self.obj_size(obj_start) >= s0.obj_size(obj_start)
                && self.obj_size(obj_start) < new_obj_size) by {
                assert(s1.is_obj(obj_start) && s1.obj_size(obj_start) < new_obj_size);
            }
            assert(q != obj_start) by {
                assert(!s1.is_obj(q));
            }
            self.lemma_obj_unique(obj_start);
            self.lemma_obj_unique(q);
            let io = self.obj_idx(obj_start);
            let iq = self.obj_idx(q);
            lemma_tiles_block_in_range(self.block_seq(), self.heap_lo(), self.heap_hi(), io);
            lemma_tiles_block_in_range(self.block_seq(), self.heap_lo(), self.heap_hi(), iq);
            assert(io != iq);
            if io < iq {
                lemma_tiles_disjoint(self.block_seq(), self.heap_lo(), self.heap_hi(), io, iq);
            } else {
                lemma_tiles_disjoint(self.block_seq(), self.heap_lo(), self.heap_hi(), iq, io);
            }
            assert(obj_size as int <= self.obj_size(obj_start));
            assert(obj_size as int <= self.obj_size(q));
        }
        let ghost s2 = *self;
        self.copy_payload(obj_start, q, obj_size);
        proof {
            assert(self.wf()) by {
                reveal(RawMalloc::cells_match);
                reveal(RawMalloc::fl_matches);
                reveal(RawMalloc::coupled);
                assert(s2.cells_match()) by {
                    reveal(RawMalloc::cells_match);
                }
                assert(s2.fl_matches()) by {
                    reveal(RawMalloc::fl_matches);
                }
                assert(s2.coupled()) by {
                    reveal(RawMalloc::coupled);
                }
            }
            assert(self.block_seq() == s2.block_seq());
            assert(self.is_obj(obj_start)) by {
                assert(s2.obj_at(obj_start, s2.obj_idx(obj_start)));
                assert(self.obj_at(obj_start, s2.obj_idx(obj_start)));
            }
        }
        let ghost s3 = *self;
        self.dealloc(obj_start, new_size, align);
        proof {
            assert forall|p: usize|
                #[trigger] s0.is_obj(p) && p != obj_start implies self.is_obj(p)
                && self.obj_size(p) == s0.obj_size(p) by {
                assert(s1.is_obj(p) && s1.obj_size(p) == s0.obj_size(p));
                assert(s2.is_obj(p) && s2.obj_size(p) == s1.obj_size(p));
                s2.lemma_obj_unique(p);
                let ii = s2.obj_idx(p);
                assert(s2.obj_at(p, ii));
                assert(s3.obj_at(p, ii));
                assert(s3.is_obj(p));
                s3.lemma_obj_unique(p);
                assert(s3.obj_size(p) == s2.obj_size(p));
            }
            assert(self.is_obj(q) && self.obj_size(q) >= spec_augmented(new_size as int)) by {
                s2.lemma_obj_unique(q);
                let ii = s2.obj_idx(q);
                assert(s2.obj_at(q, ii));
                assert(s3.obj_at(q, ii));
                assert(s3.is_obj(q));
                s3.lemma_obj_unique(q);
                assert(s3.obj_size(q) == s2.obj_size(q));
                assert(q != obj_start);
            }
            assert forall|t: int|
                0 <= t < s0.obj_size(obj_start) implies #[trigger] self.byte_at(q + t)
                == s0.byte_at(obj_start + t) by {
                assert(obj_size as int == s0.obj_size(obj_start));
                assert(self.byte_at(q + t) == s3.byte_at(q + t));
                assert(s3.mem@[q - s3.base + t] == s2.mem@[obj_start - s2.base + t]);
                assert(s3.byte_at(q + t) == s2.byte_at(obj_start + t));
                assert(s2.byte_at(obj_start + t) == s1.byte_at(obj_start + t)) by {
                    assert(s1.mem@.len() > 0);
                    assert(s2.heap_lo() == s1.heap_lo());
                    assert(s2.heap_bytes().subrange(0, s1.mem@.len() as int)
                        == s1.heap_bytes());
                    assert(s1.heap_lo() <= obj_start + t < s1.heap_hi());
                    assert(s2.heap_bytes().subrange(0, s1.mem@.len() as int)[obj_start + t
                        - s1.heap_lo()] == s2.heap_bytes()[obj_start + t - s1.heap_lo()]);
                }
                assert(s1.byte_at(obj_start + t) == s0.byte_at(obj_start + t));
            }
        }
        Ok(q)
    }

    /// Reallocates the object at `obj_start`, previously allocated with the
    /// given layout, to hold `new_size` bytes. Returns the address of the
    /// object afterwards, which is unchanged whenever the block could be
    /// adjusted in place, or the null address when the request cannot be
    /// satisfied, in which case the object is untouched and remains valid.
    /// A shrink always succeeds in place, trimming the block down to the
    /// augmented size, and when the object moves its old contents move with
    /// it.
    pub fn realloc(&mut self, obj_start: usize, _size: usize, align: usize, new_size: usize) -> (r:
        usize)
        requires
            old(self).wf(),
            old(self).is_obj(obj_start),
            is_pow2(align as int),
            obj_start % align == 0,
        ensures
            final(self).wf(),
            final(self).heap_lo() == old(self).heap_lo(),
            r != 0 ==> final(self).is_obj(r) && final(self).obj_size(r) >= spec_augmented(
                new_size as int,
            ) && r % align == 0 && (forall|p: usize|
                #[trigger] old(self).is_obj(p) && p != obj_start ==> final(self).is_obj(p)
                    && final(self).obj_size(p) == old(self).obj_size(p)),
            r == 0 ==> final(self).is_obj(obj_start) && final(self).obj_size(obj_start) >= old(self).obj_size(obj_start) && (forall|t: int|
                0 <= t < old(self).obj_size(obj_start) ==> #[trigger] final(self).byte_at(
                    obj_start + t,
                ) == old(self).byte_at(obj_start + t)),
            spec_augmented(new_size as int) <= usize::MAX / 2 && spec_augmented(new_size as int)
                <= old(self).obj_size(obj_start) ==> r == obj_start,
            r == obj_start ==> final(self).heap_bytes() == old(self).heap_bytes() && final(self).obj_size(obj_start) < spec_augmented(new_size as int) + BLOCK_MIN_SIZE,
            spec_augmented(new_size as int) <= usize::MAX / 2 && old(self).obj_size(obj_start)
                >= spec_augmented(new_size as int) + BLOCK_MIN_SIZE ==> r == obj_start && final(self).obj_size(obj_start) == spec_augmented(new_size as int),
            spec_augmented(new_size as int) <= usize::MAX / 2 && free_run_end(
                old(self).block_seq(),
                old(self).obj_idx(obj_start),
            ) - obj_start >= spec_augmented(new_size as int) ==> r == obj_start,
            r == obj_start ==> free_run_end(
                final(self).block_seq(),
                final(self).obj_idx(obj_start),
            ) == free_run_end(old(self).block_seq(), old(self).obj_idx(obj_start)),
            r != 0 && r != obj_start ==> (forall|t: int|
                0 <= t < old(self).obj_size(obj_start) ==> #[trigger] final(self).byte_at(r + t)
                    == old(self).byte_at(obj_start + t)),
    {
        proof {
            old(self).lemma_obj_unique(obj_start);
            lemma_tiles_block_in_range(
                old(self).block_seq(),
                old(self).heap_lo(),
                old(self).heap_hi(),
                old(self).obj_idx(obj_start),
            );
            assert(obj_start != 0);
        }
        let r = match self.__realloc(obj_start, align, new_size) {
            Ok(q) => Some(q),
            Err(()) => None,
        };
        proof {
            if r.is_some() {
                let q = r.unwrap();
                self.lemma_obj_unique(q);
                lemma_tiles_block_in_range(
                    self.block_seq(),
                    self.heap_lo(),
                    self.heap_hi(),
                    self.obj_idx(q),
                );
                assert(q != 0);
            }
        }
        crate::util::addr_or_null(r)
    }

    /// Writes the byte at offset `off` of the object at `obj_start`.
    pub fn write_byte(&mut self, obj_start: usize, off: usize, val: u8)
        requires
            old(self).wf(),
            old(self).is_obj(obj_start),
            off < old(self).obj_size(obj_start),
        ensures
            final(self).wf(),
            final(self).block_seq() == old(self).block_seq(),
            final(self).fl() == old(self).fl(),
            final(self).heap_lo() == old(self).heap_lo(),
            final(self).heap_hi() == old(self).heap_hi(),
            final(self).byte_at(obj_start + off) == val,
            forall|a: int|
                final(self).heap_lo() <= a < final(self).heap_hi() && a != obj_start + off
                    ==> #[trigger] final(self).byte_at(a) == old(self).byte_at(a),
    {
        proof {
            old(self).lemma_obj_unique(obj_start);
            lemma_tiles_block_in_range(
                self.block_seq(),
                self.heap_lo(),
                self.heap_hi(),
                old(self).obj_idx(obj_start),
            );
        }
        self.mem.set(obj_start - self.base + off, val);
        proof {
            assert(self.wf()) by {
                reveal(RawMalloc::cells_match);
                reveal(RawMalloc::fl_matches);
                reveal(RawMalloc::coupled);
                assert(old(self).cells_match()) by {
                    reveal(RawMalloc::cells_match);
                }
                assert(old(self).fl_matches()) by {
                    reveal(RawMalloc::fl_matches);
                }
                assert(old(self).coupled()) by {
                    reveal(RawMalloc::coupled);
                }
            }
        }
    }

    /// Returns the full content size of the object at `obj_start`, read
    /// from the object's header: the object's block may be larger than the
    /// size that was requested for it.
    pub fn object_size(&self, obj_start: usize) -> (r: usize)
        requires
            self.wf(),
            self.is_obj(obj_start),
        ensures
            r as int == self.obj_size(obj_start),
    {
        proof {
            self.lemma_obj_unique(obj_start);
            lemma_tiles_block_in_range(
                self.block_seq(),
                self.heap_lo(),
                self.heap_hi(),
                self.obj_idx(obj_start),
            );
        }
        let ghost i = self.obj_idx(obj_start);
        let h = self.read_header(obj_start - HEADER_SIZE, Ghost(i));
        h.content_size()
    }

    /// Reads the byte at offset `off` of the object at `obj_start`.
    pub fn read_byte(&self, obj_start: usize, off: usize) -> (r: u8)
        requires
            self.wf(),
            self.is_obj(obj_start),
            off < self.obj_size(obj_start),
        ensures
            r == self.byte_at(obj_start + off),
    {
        proof {
            self.lemma_obj_unique(obj_start);
            lemma_tiles_block_in_range(
                self.block_seq(),
                self.heap_lo(),
                self.heap_hi(),
                self.obj_idx(obj_start),
            );
        }
        self.mem[obj_start - self.base + off]
    }

    /// On a nonempty heap the grower's buffer ends at the heap end, up to
    /// the sub-granule remainder of an unaligned grant: the heap owns what
    /// the grower has handed out, and nothing more.
    pub proof fn lemma_grower_coupled(&self)
        requires
            self.wf(),
            self.heap_bytes().len() > 0,
        ensures
            self.heap_hi() <= self.grower_of().end() < self.heap_hi() + HEADER_SIZE,
    {
        reveal(RawMalloc::coupled);
    }

    /// A block is on the free list exactly when it is free: the free list
    /// holds the content address of every free block and of nothing else.
    pub proof fn lemma_free_list_matches_tags(&self)
        requires
            self.wf(),
        ensures
            forall|i: int|
                0 <= i < self.block_seq().len() && (#[trigger] self.block_seq()[i]).free
                    ==> self.fl().contains((self.block_seq()[i].start + HEADER_SIZE) as usize),
            forall|j: int|
                0 <= j < self.fl().len() ==> is_free_node(self.block_seq(), #[trigger] self.fl()[j]),
    {
        reveal(RawMalloc::cells_match);
        reveal(RawMalloc::fl_matches);
        reveal(RawMalloc::coupled);
    }
}

} // verus!
