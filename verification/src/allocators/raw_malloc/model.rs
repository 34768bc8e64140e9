//! The mathematical model of the heap: a sequence of blocks tiling the
//! address range the allocator owns, without gaps.

use crate::freelist::NODE_SIZE;
use crate::header::{HEADER_ALIGN, HEADER_SIZE};
use vstd::prelude::*;

verus! {

/// The model of one heap block: its start address, its content size, and
/// whether it is free.
pub ghost struct Block {
    pub start: int,
    pub size: int,
    pub free: bool,
}

impl Block {
    /// The address one past the block: start + header + content.
    pub open spec fn end(self) -> int {
        self.start + HEADER_SIZE + self.size
    }

    /// The address of the block's content, right after the header.
    pub open spec fn content(self) -> int {
        self.start + HEADER_SIZE
    }

    /// Block well-formedness: the start is header-aligned and the content
    /// size is a multiple of the header size, large enough for a free-list
    /// node.
    pub open spec fn wf(self) -> bool {
        &&& self.start % (HEADER_ALIGN as int) == 0
        &&& self.size % (HEADER_SIZE as int) == 0
        &&& self.size >= NODE_SIZE
    }
}

/// Whether an object may begin `d` bytes past the start of the block that
/// hosts it: either immediately after the block's header, or far enough that
/// a minimum-size padding block and the object's own header fit in between.
pub open spec fn valid_prefix(d: int) -> bool {
    d == HEADER_SIZE || d >= HEADER_SIZE + (HEADER_SIZE + NODE_SIZE)
}

/// The preconditions of a raw placement: the range `[b, e)` and the object
/// `[obj, obj + osz)` inside it are header-aligned, the object's size meets
/// the block minimum, and the prefix before the object is a valid prefix.
pub open spec fn place_ok(b: int, e: int, obj: int, osz: int) -> bool {
    &&& b % (HEADER_ALIGN as int) == 0
    &&& e % (HEADER_ALIGN as int) == 0
    &&& obj % (HEADER_ALIGN as int) == 0
    &&& osz % (HEADER_SIZE as int) == 0
    &&& osz >= NODE_SIZE
    &&& valid_prefix(obj - b)
    &&& obj + osz <= e
}

/// The blocks a raw placement writes over the range `[b, e)`: a free
/// left-padding block where the object does not sit immediately after the
/// range's first header, the occupied object block, and a free right-padding
/// block where at least a minimum-size block is left past the object;
/// otherwise the leftover tail is absorbed into the object.
#[verifier::opaque]
pub open spec fn placed_blocks(b: int, e: int, obj: int, osz: int) -> Seq<Block> {
    let left = if obj - b != HEADER_SIZE {
        seq![Block { start: b, size: obj - b - 2 * HEADER_SIZE, free: true }]
    } else {
        Seq::<Block>::empty()
    };
    let absorb = e - (obj + osz) < HEADER_SIZE + NODE_SIZE;
    let obj_block = Block {
        start: obj - HEADER_SIZE,
        size: if absorb {
            e - obj
        } else {
            osz
        },
        free: false,
    };
    let right = if absorb {
        Seq::<Block>::empty()
    } else {
        seq![Block { start: obj + osz, size: e - (obj + osz) - HEADER_SIZE, free: true }]
    };
    left + seq![obj_block] + right
}

/// A raw placement yields between one and three blocks.
pub proof fn lemma_placed_blocks_len(b: int, e: int, obj: int, osz: int)
    ensures
        1 <= placed_blocks(b, e, obj, osz).len() <= 3,
{
    reveal(placed_blocks);
}

/// The index of the object block among the placed blocks.
pub open spec fn placed_obj_idx(b: int, obj: int) -> int {
    if obj - b != HEADER_SIZE {
        1int
    } else {
        0int
    }
}

/// A raw placement under its preconditions yields well-formed blocks tiling
/// exactly `[b, e)`: one occupied block holding the object, every other
/// block free.
pub proof fn lemma_placed_blocks(b: int, e: int, obj: int, osz: int)
    requires
        place_ok(b, e, obj, osz),
    ensures
        ({
            let pb = placed_blocks(b, e, obj, osz);
            let oi = placed_obj_idx(b, obj);
            &&& tiles(pb, b, e)
            &&& 1 <= pb.len() <= 3
            &&& 0 <= oi < pb.len()
            &&& !pb[oi].free
            &&& pb[oi].start == obj - HEADER_SIZE
            &&& pb[oi].content() == obj
            &&& osz <= pb[oi].size
            &&& pb[oi].size == (if e - (obj + osz) < HEADER_SIZE + NODE_SIZE {
                e - obj
            } else {
                osz
            })
            &&& (forall|j: int| 0 <= j < pb.len() && j != oi ==> (#[trigger] pb[j]).free)
        }),
{
    reveal(placed_blocks);
    let pb = placed_blocks(b, e, obj, osz);
    let oi = placed_obj_idx(b, obj);
    let absorb = e - (obj + osz) < HEADER_SIZE + NODE_SIZE;
    assert(valid_prefix(obj - b));
    if obj - b != HEADER_SIZE {
        assert(obj - b >= 2 * HEADER_SIZE + NODE_SIZE);
        assert(pb[0] == Block { start: b, size: obj - b - 2 * HEADER_SIZE, free: true });
        assert(pb[0].wf());
    }
    let obj_block = pb[oi];
    assert(obj_block.start == obj - HEADER_SIZE);
    assert(obj_block.wf());
    if !absorb {
        let r = pb[oi + 1];
        assert(r == Block { start: obj + osz, size: e - (obj + osz) - HEADER_SIZE, free: true });
        assert(r.wf());
        assert(pb[pb.len() - 1].end() == e);
    } else {
        assert(obj_block.end() == e);
    }
    assert forall|i: int| 0 <= i < pb.len() implies (#[trigger] pb[i]).wf() by {}
    assert forall|i: int| 0 <= i < pb.len() - 1 implies (#[trigger] pb[i]).end() == pb[i + 1].start
        by {}
}

/// Whether `a` is the content address of some free block of `bs`: the
/// address where that block's free-list node lives.
pub open spec fn is_free_node(bs: Seq<Block>, a: usize) -> bool {
    exists|i: int| 0 <= i < bs.len() && (#[trigger] bs[i]).free && a == bs[i].start + HEADER_SIZE
}

/// The blocks of `bs` partition the address range `[lo, hi)`, in address
/// order, without gaps: each block begins where its predecessor ends.
pub open spec fn tiles(bs: Seq<Block>, lo: int, hi: int) -> bool {
    &&& (forall|i: int| 0 <= i < bs.len() ==> (#[trigger] bs[i]).wf())
    &&& (forall|i: int| 0 <= i < bs.len() - 1 ==> (#[trigger] bs[i].end()) == bs[i + 1].start)
    &&& (if bs.len() == 0 {
        lo == hi
    } else {
        bs[0].start == lo && bs[bs.len() - 1].end() == hi
    })
}

/// How the indices of a sequence map across the replacement of the
/// consecutive elements `[k1, k2)` by the elements of `mid`.
pub proof fn lemma_splice_index(bs: Seq<Block>, k1: int, k2: int, mid: Seq<Block>)
    requires
        0 <= k1 <= k2 <= bs.len(),
    ensures
        ({
            let new = bs.subrange(0, k1) + mid + bs.subrange(k2, bs.len() as int);
            &&& new.len() == bs.len() - (k2 - k1) + mid.len()
            &&& (forall|j: int| 0 <= j < k1 ==> #[trigger] new[j] == bs[j])
            &&& (forall|j: int| 0 <= j < mid.len() ==> #[trigger] new[k1 + j] == mid[j])
            &&& (forall|j: int|
                k2 <= j < bs.len() ==> #[trigger] new[j - (k2 - k1) + mid.len()] == bs[j])
        }),
{
    let new = bs.subrange(0, k1) + mid + bs.subrange(k2, bs.len() as int);
    assert forall|j: int| 0 <= j < k1 implies #[trigger] new[j] == bs[j] by {
        assert(new[j] == bs.subrange(0, k1)[j]);
    }
    assert forall|j: int| 0 <= j < mid.len() implies #[trigger] new[k1 + j] == mid[j] by {
        assert(new[k1 + j] == (bs.subrange(0, k1) + mid)[k1 + j]);
    }
    assert forall|j: int|
        k2 <= j < bs.len() implies #[trigger] new[j - (k2 - k1) + mid.len()] == bs[j] by {
        assert(new[j - (k2 - k1) + mid.len()] == bs.subrange(k2, bs.len() as int)[j - k2]);
    }
}

/// Whether an object of size `osz` and alignment `align` fits at address
/// `addr` inside the block `b`: the address is aligned, its distance from
/// the block's start is a valid prefix, and the object ends within the
/// block.
pub open spec fn can_place_at(b: Block, osz: int, align: int, addr: int) -> bool {
    addr % align == 0 && valid_prefix(addr - b.start) && addr + osz <= b.end()
}

/// Whether an object of size `osz` and alignment `align` can be placed
/// somewhere in the free block `b`.
pub open spec fn placeable(b: Block, osz: int, align: int) -> bool {
    exists|addr: int| #[trigger] can_place_at(b, osz, align, addr)
}

/// A block that covers a placeable block, starting at the same address or a
/// whole minimum block earlier, is itself placeable.
pub proof fn lemma_placeable_superset(b: Block, b2: Block, osz: int, align: int)
    requires
        placeable(b, osz, align),
        b2.start == b.start || b2.start + (HEADER_SIZE + NODE_SIZE) <= b.start,
        b.end() <= b2.end(),
    ensures
        placeable(b2, osz, align),
{
    let addr = choose|addr: int| #[trigger] can_place_at(b, osz, align, addr);
    assert(can_place_at(b2, osz, align, addr));
}

/// Removing an entry other than `a` and `b` keeps the order of `a` and `b`
/// in the list, seen through the number of entries at or after each.
pub proof fn lemma_suffix_order_remove(s: Seq<usize>, a: usize, b: usize, j: int)
    requires
        s.no_duplicates(),
        s.contains(a),
        s.contains(b),
        0 <= j < s.len(),
        s[j] != a,
        s[j] != b,
    ensures
        ({
            let t = s.remove(j);
            &&& t.contains(a)
            &&& t.contains(b)
            &&& ((suffix_len(t, a) < suffix_len(t, b)) <==> (suffix_len(s, a) < suffix_len(s, b)))
        }),
{
    let t = s.remove(j);
    crate::freelist::Freelist::lemma_index_of(s, a);
    crate::freelist::Freelist::lemma_index_of(s, b);
    let ja = s.index_of(a);
    let jb = s.index_of(b);
    if ja < j {
        assert(t[ja] == a);
    } else {
        assert(t[ja - 1] == a);
    }
    assert(t.contains(a));
    if jb < j {
        assert(t[jb] == b);
    } else {
        assert(t[jb - 1] == b);
    }
    assert(t.contains(b));
    let ka = t.index_of(a);
    assert(0 <= ka < t.len() && t[ka] == a);
    let srca = if ka < j {
        ka
    } else {
        ka + 1
    };
    assert(s[srca] == a);
    assert(srca == ja);
    let kb = t.index_of(b);
    assert(0 <= kb < t.len() && t[kb] == b);
    let srcb = if kb < j {
        kb
    } else {
        kb + 1
    };
    assert(s[srcb] == b);
    assert(srcb == jb);
}

/// The end address of the maximal run of free blocks beginning at block
/// `i`: where coalescing a free block forward must stop.
pub open spec fn free_run_end(bs: Seq<Block>, i: int) -> int
    decreases bs.len() - i,
    when 0 <= i < bs.len()
{
    if i + 1 < bs.len() && bs[i + 1].free {
        free_run_end(bs, i + 1)
    } else {
        bs[i].end()
    }
}

/// The free run beginning at a block of a tiling ends after the block and
/// within the tiled range.
pub proof fn lemma_free_run_end_bounds(bs: Seq<Block>, lo: int, hi: int, i: int)
    requires
        tiles(bs, lo, hi),
        0 <= i < bs.len(),
    ensures
        bs[i].end() <= free_run_end(bs, i),
        free_run_end(bs, i) <= hi,
    decreases bs.len() - i,
{
    lemma_tiles_block_in_range(bs, lo, hi, i);
    if i + 1 < bs.len() && bs[i + 1].free {
        assert(bs[i].end() == bs[i + 1].start);
        lemma_free_run_end_bounds(bs, lo, hi, i + 1);
    }
}

/// Removing block `i + 1` of a tiling and extending block `i` over it moves
/// every later block one index down and keeps the free run that begins at
/// block `i` ending where it ended.
pub proof fn lemma_free_run_end_absorb(bs: Seq<Block>, t: Seq<Block>, i: int, j: int)
    requires
        t.len() + 1 == bs.len(),
        0 <= i < t.len(),
        i < bs.len() - 1,
        bs[i + 1].free,
        t[i].start == bs[i].start,
        t[i].end() == bs[i + 1].end(),
        t[i].free == bs[i].free,
        forall|j2: int| i + 1 <= j2 < t.len() ==> #[trigger] t[j2] == bs[j2 + 1],
        i <= j < t.len(),
    ensures
        i < j ==> free_run_end(t, j) == free_run_end(bs, j + 1),
        j == i ==> free_run_end(t, i) == free_run_end(bs, i),
    decreases t.len() - j,
{
    if j == i {
        if i + 1 < t.len() && t[i + 1].free {
            assert(t[i + 1] == bs[i + 2]);
            lemma_free_run_end_absorb(bs, t, i, i + 1);
            assert(free_run_end(t, i + 1) == free_run_end(bs, i + 2));
            assert(free_run_end(bs, i + 1) == free_run_end(bs, i + 2));
            assert(free_run_end(bs, i) == free_run_end(bs, i + 1));
        } else {
            assert(free_run_end(t, i) == t[i].end());
            if i + 2 < bs.len() {
                assert(t[i + 1] == bs[i + 2]);
                assert(!bs[i + 2].free);
            }
            assert(free_run_end(bs, i + 1) == bs[i + 1].end());
            assert(free_run_end(bs, i) == free_run_end(bs, i + 1));
        }
    } else {
        assert(t[j] == bs[j + 1]);
        if j + 1 < t.len() && t[j + 1].free {
            assert(t[j + 1] == bs[j + 2]);
            lemma_free_run_end_absorb(bs, t, i, j + 1);
            assert(free_run_end(t, j + 1) == free_run_end(bs, j + 2));
        } else {
            if j + 2 < bs.len() {
                assert(t[j + 1] == bs[j + 2]);
            }
        }
    }
}

/// Where two block sequences agree from position `j` on, up to an index
/// shift, the free runs beginning there end at the same address.
pub proof fn lemma_free_run_end_shifted(bs: Seq<Block>, t: Seq<Block>, off: int, j: int)
    requires
        t.len() + off == bs.len(),
        0 <= j < t.len(),
        0 <= j + off < bs.len(),
        forall|j2: int| j <= j2 < t.len() ==> #[trigger] t[j2] == bs[j2 + off],
    ensures
        free_run_end(t, j) == free_run_end(bs, j + off),
    decreases t.len() - j,
{
    assert(t[j] == bs[j + off]);
    if j + 1 < t.len() && t[j + 1].free {
        assert(t[j + 1] == bs[j + 1 + off]);
        lemma_free_run_end_shifted(bs, t, off, j + 1);
    } else {
        if j + 1 + off < bs.len() {
            assert(t[j + 1] == bs[j + 1 + off] || j + 1 >= t.len());
        }
    }
}

/// Where two block sequences agree strictly before a position whose runs
/// end alike, the free runs beginning at any earlier shared position end
/// alike too.
pub proof fn lemma_free_run_end_prefix_eq(bs: Seq<Block>, t: Seq<Block>, i2: int, i: int)
    requires
        0 <= i2 <= i,
        i < bs.len(),
        i < t.len(),
        forall|j: int| i2 <= j < i ==> #[trigger] t[j] == bs[j],
        t[i].free == bs[i].free,
        free_run_end(t, i) == free_run_end(bs, i),
    ensures
        free_run_end(t, i2) == free_run_end(bs, i2),
    decreases i - i2,
{
    if i2 < i {
        assert(t[i2] == bs[i2]);
        lemma_free_run_end_prefix_eq(bs, t, i2 + 1, i);
        if i2 + 1 < i {
            assert(t[i2 + 1] == bs[i2 + 1]);
        }
    }
}

/// A block that ends within the free run beginning at an earlier block
/// belongs to that run: the free run beginning at it ends at the same
/// address.
pub proof fn lemma_free_run_end_inside(bs: Seq<Block>, lo: int, hi: int, iv: int, ia: int)
    requires
        tiles(bs, lo, hi),
        0 <= iv <= ia < bs.len(),
        bs[ia].end() <= free_run_end(bs, iv),
    ensures
        free_run_end(bs, ia) == free_run_end(bs, iv),
    decreases ia - iv,
{
    if iv < ia {
        lemma_tiles_block_in_range(bs, lo, hi, iv);
        lemma_tiles_block_in_range(bs, lo, hi, ia);
        lemma_tiles_disjoint(bs, lo, hi, iv, ia);
        assert(bs[iv].end() <= bs[ia].start);
        assert(free_run_end(bs, iv) >= bs[ia].end() > bs[iv].end());
        assert(iv + 1 < bs.len() && bs[iv + 1].free) by {
            if !(iv + 1 < bs.len() && bs[iv + 1].free) {
                assert(free_run_end(bs, iv) == bs[iv].end());
            }
        }
        assert(free_run_end(bs, iv) == free_run_end(bs, iv + 1));
        lemma_free_run_end_inside(bs, lo, hi, iv + 1, ia);
    }
}

/// The index of the free block whose content address is `a`.
pub open spec fn free_node_idx(bs: Seq<Block>, a: usize) -> int {
    choose|i: int| 0 <= i < bs.len() && (#[trigger] bs[i]).free && a == bs[i].start + HEADER_SIZE
}

/// The free block whose content address is `a`.
pub open spec fn free_block_of(bs: Seq<Block>, a: usize) -> Block {
    bs[free_node_idx(bs, a)]
}

/// Within a tiling, the content address of a free block determines the
/// block.
pub proof fn lemma_free_node_unique(bs: Seq<Block>, lo: int, hi: int, a: usize)
    requires
        tiles(bs, lo, hi),
        is_free_node(bs, a),
    ensures
        ({
            let i = free_node_idx(bs, a);
            &&& 0 <= i < bs.len()
            &&& bs[i].free
            &&& a == bs[i].start + HEADER_SIZE
            &&& free_block_of(bs, a) == bs[i]
            &&& forall|i2: int|
                0 <= i2 < bs.len() && (#[trigger] bs[i2]).free && a == bs[i2].start + HEADER_SIZE
                    ==> i2 == i
        }),
{
    lemma_tiles_bounds(bs, lo, hi);
    let i = free_node_idx(bs, a);
    assert(0 <= i < bs.len() && bs[i].free && a == bs[i].start + HEADER_SIZE);
    assert forall|i2: int|
        0 <= i2 < bs.len() && (#[trigger] bs[i2]).free && a == bs[i2].start + HEADER_SIZE
            implies i2 == i by {
        if i2 != i {
            if i2 < i {
                lemma_tiles_disjoint(bs, lo, hi, i2, i);
            } else {
                lemma_tiles_disjoint(bs, lo, hi, i, i2);
            }
        }
    }
}

/// How many list entries lie at or after `a` in the list `s`.
pub open spec fn suffix_len(s: Seq<usize>, a: usize) -> int {
    s.len() - s.index_of(a)
}

/// Removing an entry other than `a` never moves `a` later in the list: the
/// number of entries at or after `a` does not grow.
pub proof fn lemma_suffix_len_remove(s: Seq<usize>, a: usize, j: int)
    requires
        s.no_duplicates(),
        0 <= j < s.len(),
        s.contains(a),
        s[j] != a,
    ensures
        s.remove(j).contains(a),
        suffix_len(s.remove(j), a) <= suffix_len(s, a),
{
    let t = s.remove(j);
    crate::freelist::Freelist::lemma_index_of(s, a);
    let ja = s.index_of(a);
    assert(ja != j);
    if ja < j {
        assert(t[ja] == a);
    } else {
        assert(t[ja - 1] == a);
    }
    assert(t.contains(a));
    let ka = t.index_of(a);
    assert(0 <= ka < t.len() && t[ka] == a);
    let src = if ka < j {
        ka
    } else {
        ka + 1
    };
    assert(s[src] == a);
    assert(src == ja);
}

/// Membership in a sequence extended at the front by one element.
pub proof fn lemma_contains_push(s: Seq<usize>, x: usize, a: usize)
    ensures
        (seq![x] + s).contains(a) <==> (a == x || s.contains(a)),
{
    let t = seq![x] + s;
    if t.contains(a) {
        let k = choose|k: int| 0 <= k < t.len() && t[k] == a;
        if k > 0 {
            assert(s[k - 1] == a);
            assert(s.contains(a));
        }
    }
    if a == x {
        assert(t[0] == a);
        assert(t.contains(a));
    }
    if s.contains(a) {
        let k = choose|k: int| 0 <= k < s.len() && s[k] == a;
        assert(t[k + 1] == a);
        assert(t.contains(a));
    }
}

/// Within a tiling, every block lies between the range bounds and is
/// non-empty.
pub proof fn lemma_tiles_bounds(bs: Seq<Block>, lo: int, hi: int)
    requires
        tiles(bs, lo, hi),
    ensures
        lo <= hi,
        forall|i: int|
            0 <= i < bs.len() ==> lo <= (#[trigger] bs[i]).start && bs[i].start < bs[i].end()
                && bs[i].end() <= hi,
    decreases bs.len(),
{
    if bs.len() == 0 {
    } else {
        let rest = bs.subrange(1, bs.len() as int);
        assert(tiles(rest, bs[0].end(), hi)) by {
            assert forall|i: int| 0 <= i < rest.len() implies (#[trigger] rest[i]).wf() by {
                assert(rest[i] == bs[i + 1]);
            }
            assert forall|i: int|
                0 <= i < rest.len() - 1 implies (#[trigger] rest[i].end()) == rest[i + 1].start by {
                assert(rest[i] == bs[i + 1] && rest[i + 1] == bs[i + 2]);
                assert(bs[i + 1].end() == bs[i + 2].start);
            }
            if rest.len() > 0 {
                assert(rest[0] == bs[1]);
                assert(rest[rest.len() - 1] == bs[bs.len() - 1]);
                assert(bs[0].end() == bs[1].start);
            }
        }
        lemma_tiles_bounds(rest, bs[0].end(), hi);
        assert forall|i: int|
            0 <= i < bs.len() implies lo <= (#[trigger] bs[i]).start && bs[i].start < bs[i].end()
            && bs[i].end() <= hi by {
            if i > 0 {
                assert(bs[i] == rest[i - 1]);
            } else {
                assert(bs[0].end() == (if bs.len() > 1 {
                    bs[1].start
                } else {
                    hi
                }));
            }
        }
    }
}

/// Within a tiling, one given block lies between the range bounds.
pub proof fn lemma_tiles_block_in_range(bs: Seq<Block>, lo: int, hi: int, i: int)
    requires
        tiles(bs, lo, hi),
        0 <= i < bs.len(),
    ensures
        lo <= bs[i].start,
        bs[i].start < bs[i].end(),
        bs[i].end() <= hi,
{
    lemma_tiles_bounds(bs, lo, hi);
}

/// Within a tiling, an earlier block ends no later than a later block
/// starts: distinct blocks are disjoint.
pub proof fn lemma_tiles_disjoint(bs: Seq<Block>, lo: int, hi: int, i: int, j: int)
    requires
        tiles(bs, lo, hi),
        0 <= i < j < bs.len(),
    ensures
        bs[i].end() <= bs[j].start,
    decreases j - i,
{
    if j == i + 1 {
        assert(bs[i].end() == bs[i + 1].start);
    } else {
        lemma_tiles_disjoint(bs, lo, hi, i, j - 1);
        assert(bs[j - 1].end() == bs[j].start);
        lemma_tiles_bounds(bs, lo, hi);
    }
}

/// Two adjacent tilings concatenate to a tiling of the joint range.
pub proof fn lemma_tiles_concat(a: Seq<Block>, b: Seq<Block>, lo: int, mid: int, hi: int)
    requires
        tiles(a, lo, mid),
        tiles(b, mid, hi),
    ensures
        tiles(a + b, lo, hi),
{
    let c = a + b;
    assert forall|i: int| 0 <= i < c.len() implies (#[trigger] c[i]).wf() by {
        if i < a.len() {
            assert(c[i] == a[i]);
        } else {
            assert(c[i] == b[i - a.len()]);
        }
    }
    assert forall|i: int| 0 <= i < c.len() - 1 implies (#[trigger] c[i]).end() == c[i + 1].start by {
        if i + 1 < a.len() {
            assert(c[i] == a[i] && c[i + 1] == a[i + 1]);
        } else if i + 1 == a.len() {
            assert(c[i] == a[i] && c[i + 1] == b[0]);
            assert(a[a.len() - 1].end() == mid);
        } else {
            assert(c[i] == b[i - a.len()] && c[i + 1] == b[i + 1 - a.len()]);
        }
    }
    if a.len() == 0 && b.len() == 0 {
    } else if a.len() == 0 {
        assert(c[0] == b[0]);
        assert(c[c.len() - 1] == b[b.len() - 1]);
    } else if b.len() == 0 {
        assert(c[0] == a[0]);
        assert(c[c.len() - 1] == a[a.len() - 1]);
    } else {
        assert(c[0] == a[0]);
        assert(c[c.len() - 1] == b[b.len() - 1]);
    }
}

/// A tiling splits at any block index into two adjacent tilings.
pub proof fn lemma_tiles_split(bs: Seq<Block>, lo: int, hi: int, k: int)
    requires
        tiles(bs, lo, hi),
        0 <= k < bs.len(),
    ensures
        tiles(bs.subrange(0, k), lo, bs[k].start),
        tiles(bs.subrange(k, bs.len() as int), bs[k].start, hi),
{
    let a = bs.subrange(0, k);
    let b = bs.subrange(k, bs.len() as int);
    assert forall|i: int| 0 <= i < a.len() implies (#[trigger] a[i]).wf() by {
        assert(a[i] == bs[i]);
    }
    assert forall|i: int| 0 <= i < a.len() - 1 implies (#[trigger] a[i]).end() == a[i + 1].start by {
        assert(a[i] == bs[i] && a[i + 1] == bs[i + 1]);
    }
    if k > 0 {
        assert(a[0] == bs[0]);
        assert(a[k - 1] == bs[k - 1]);
        assert(bs[k - 1].end() == bs[k].start);
    }
    assert forall|i: int| 0 <= i < b.len() implies (#[trigger] b[i]).wf() by {
        assert(b[i] == bs[k + i]);
    }
    assert forall|i: int| 0 <= i < b.len() - 1 implies (#[trigger] b[i]).end() == b[i + 1].start by {
        assert(b[i] == bs[k + i] && b[i + 1] == bs[k + i + 1]);
    }
    assert(b[0] == bs[k]);
    assert(b[b.len() - 1] == bs[bs.len() - 1]);
}

/// Replacing the consecutive blocks `[k1, k2)` of a tiling by new blocks
/// that tile exactly the same address range yields a tiling again.
#[verifier::rlimit(100)]
pub proof fn lemma_tiles_splice(bs: Seq<Block>, lo: int, hi: int, k1: int, k2: int, mid: Seq<Block>)
    requires
        tiles(bs, lo, hi),
        0 <= k1 < k2 <= bs.len(),
        tiles(mid, bs[k1].start, bs[k2 - 1].end()),
    ensures
        tiles(bs.subrange(0, k1) + mid + bs.subrange(k2, bs.len() as int), lo, hi),
{
    lemma_tiles_split(bs, lo, hi, k1);
    let tail = bs.subrange(k1, bs.len() as int);
    lemma_tiles_bounds(bs, lo, hi);
    if k2 < bs.len() {
        lemma_tiles_split(bs, lo, hi, k2);
        assert(bs[k2 - 1].end() == bs[k2].start);
        lemma_tiles_concat(mid, bs.subrange(k2, bs.len() as int), bs[k1].start, bs[k2].start, hi);
        lemma_tiles_concat(
            bs.subrange(0, k1),
            mid + bs.subrange(k2, bs.len() as int),
            lo,
            bs[k1].start,
            hi,
        );
        assert(bs.subrange(0, k1) + (mid + bs.subrange(k2, bs.len() as int)) =~= bs.subrange(0, k1)
            + mid + bs.subrange(k2, bs.len() as int));
    } else {
        assert(bs[k2 - 1] == tail[tail.len() - 1]);
        assert(bs[k2 - 1].end() == hi);
        assert(bs.subrange(k2, bs.len() as int) =~= Seq::<Block>::empty());
        lemma_tiles_concat(mid, bs.subrange(k2, bs.len() as int), bs[k1].start, hi, hi);
        lemma_tiles_concat(
            bs.subrange(0, k1),
            mid + bs.subrange(k2, bs.len() as int),
            lo,
            bs[k1].start,
            hi,
        );
        assert(bs.subrange(0, k1) + (mid + bs.subrange(k2, bs.len() as int)) =~= bs.subrange(0, k1)
            + mid + bs.subrange(k2, bs.len() as int));
    }
}

} // verus!
