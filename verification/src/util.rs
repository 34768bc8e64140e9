//! Utility functions.

use vstd::arithmetic::div_mod::{lemma_add_mod_noop, lemma_small_mod};
use vstd::prelude::*;

verus! {

/// Whether `a` is a power of two.
pub open spec fn is_pow2(a: int) -> bool {
    exists|k: nat| a == vstd::arithmetic::power2::pow2(k)
}

/// The smallest `align`-aligned value no smaller than `addr`.
pub open spec fn spec_align_up(addr: int, align: int) -> int
    recommends
        align > 0,
{
    addr + ((align - addr % align) % align)
}

/// The small powers of two that the allocator's alignment arithmetic uses.
pub proof fn lemma_pow2_constants()
    ensures
        is_pow2(1),
        is_pow2(2),
        is_pow2(4),
        is_pow2(8),
{
    vstd::arithmetic::power2::lemma2_to64();
    assert(1 == vstd::arithmetic::power2::pow2(0));
    assert(2 == vstd::arithmetic::power2::pow2(1));
    assert(4 == vstd::arithmetic::power2::pow2(2));
    assert(8 == vstd::arithmetic::power2::pow2(3));
}

/// A power of two is positive.
pub proof fn lemma_pow2_pos(a: int)
    requires
        is_pow2(a),
    ensures
        a >= 1,
{
    let k = choose|k: nat| a == vstd::arithmetic::power2::pow2(k);
    vstd::arithmetic::power2::lemma_pow2_pos(k);
}

/// A smaller power of two divides a larger one.
pub proof fn lemma_pow2_divides(a: int, b: int)
    requires
        is_pow2(a),
        is_pow2(b),
        a <= b,
    ensures
        b % a == 0,
{
    let j = choose|k: nat| a == vstd::arithmetic::power2::pow2(k);
    let k = choose|k: nat| b == vstd::arithmetic::power2::pow2(k);
    vstd::arithmetic::power2::lemma_pow2_pos(j);
    vstd::arithmetic::power2::lemma_pow2_pos(k);
    if k < j {
        vstd::arithmetic::power2::lemma_pow2_strictly_increases(k, j);
        assert(false);
    }
    vstd::arithmetic::power2::lemma_pow2_adds(j, (k - j) as nat);
    assert(b == a * vstd::arithmetic::power2::pow2((k - j) as nat));
    vstd::arithmetic::mul::lemma_mul_is_commutative(
        a,
        vstd::arithmetic::power2::pow2((k - j) as nat) as int,
    );
    vstd::arithmetic::div_mod::lemma_mod_multiples_basic(
        vstd::arithmetic::power2::pow2((k - j) as nat) as int,
        a,
    );
}

/// A multiple of `b` is a multiple of any divisor `a` of `b`.
pub proof fn lemma_mod_divides_trans(x: int, a: int, b: int)
    requires
        a >= 1,
        b >= 1,
        x % b == 0,
        b % a == 0,
    ensures
        x % a == 0,
{
    vstd::arithmetic::div_mod::lemma_fundamental_div_mod(x, b);
    vstd::arithmetic::div_mod::lemma_fundamental_div_mod(b, a);
    assert(x == (a * (b / a)) * (x / b));
    vstd::arithmetic::mul::lemma_mul_is_associative(a, b / a, x / b);
    assert(x == a * ((b / a) * (x / b)));
    vstd::arithmetic::mul::lemma_mul_is_commutative(a, (b / a) * (x / b));
    vstd::arithmetic::div_mod::lemma_mod_multiples_basic((b / a) * (x / b), a);
}

/// A multiple of a power of two `b` is also a multiple of any smaller power
/// of two `a`.
pub proof fn lemma_aligned_to_smaller_pow2(x: int, a: int, b: int)
    requires
        is_pow2(a),
        is_pow2(b),
        a <= b,
        x % b == 0,
    ensures
        x % a == 0,
{
    lemma_pow2_pos(a);
    lemma_pow2_pos(b);
    lemma_pow2_divides(a, b);
    lemma_mod_divides_trans(x, a, b);
}

/// Rounding up to a multiple of `align` yields the smallest aligned value
/// that is no smaller than `addr`.
pub proof fn lemma_align_up(addr: int, align: int)
    requires
        align >= 1,
    ensures
        spec_align_up(addr, align) % align == 0,
        addr <= spec_align_up(addr, align) < addr + align,
        addr % align == 0 ==> spec_align_up(addr, align) == addr,
        addr % align != 0 ==> spec_align_up(addr, align) == addr + align - (addr % align),
        forall|x: int| x >= addr && #[trigger] (x % align) == 0 ==> x >= spec_align_up(addr, align),
{
    let rem = addr % align;
    vstd::arithmetic::div_mod::lemma_mod_bound(addr, align);
    let q = spec_align_up(addr, align);
    if rem == 0 {
        vstd::arithmetic::div_mod::lemma_mod_self_0(align);
        assert(q == addr);
    } else {
        lemma_small_mod((align - rem) as nat, align as nat);
        assert(q == addr + align - rem);
        lemma_add_mod_noop(addr, align - rem, align);
        vstd::arithmetic::div_mod::lemma_mod_self_0(align);
        assert(q % align == 0);
    }
    assert forall|x: int| x >= addr && #[trigger] (x % align) == 0 implies x >= q by {
        let d = x - addr;
        vstd::arithmetic::div_mod::lemma_sub_mod_noop(x, addr, align);
        assert((0 - rem) % align == d % align);
        if rem == 0 {
            assert(x >= q);
        } else {
            vstd::arithmetic::div_mod::lemma_mod_bound(0 - rem, align);
            assert((0 - rem) % align == align - rem) by {
                vstd::arithmetic::div_mod::lemma_fundamental_div_mod_converse_mod(
                    0 - rem,
                    align,
                    -1,
                    align - rem,
                );
            }
            assert(d % align == align - rem);
            vstd::arithmetic::div_mod::lemma_mod_bound(d, align);
            if d < align {
                lemma_small_mod(d as nat, align as nat);
            }
            assert(d >= align - rem);
        }
    }
}

/// Returns the smallest `align`-aligned value greater than or equal to
/// `ptr`, or `None` if no such value fits in a `usize`. In the allocator
/// `ptr` plays the role of an address and `align` is a power of two.
pub fn find_aligned(ptr: usize, align: usize) -> (r: Option<usize>)
    requires
        is_pow2(align as int),
    ensures
        match r {
            Some(q) => q == spec_align_up(ptr as int, align as int) && q % align == 0 && ptr <= q
                < ptr + align && (forall|x: usize| ptr <= x < q ==> #[trigger] (x % align) != 0),
            None => spec_align_up(ptr as int, align as int) > usize::MAX && (forall|x: usize|
                x >= ptr ==> #[trigger] (x % align) != 0),
        },
{
    proof {
        lemma_pow2_pos(align as int);
        lemma_align_up(ptr as int, align as int);
    }
    let rem = ptr % align;
    let r = if rem == 0 {
        Some(ptr)
    } else {
        let add = align - rem;
        if ptr <= usize::MAX - add {
            Some(ptr + add)
        } else {
            None
        }
    };
    proof {
        let q = spec_align_up(ptr as int, align as int);
        assert forall|x: usize| ptr <= x < q implies #[trigger] (x % align) != 0 by {
            if x % align == 0 {
                assert(x as int % align as int == 0) by {
                    assert(x % align == (x as int % align as int));
                }
                assert(x as int >= q);
            }
        }
        if r.is_none() {
            assert forall|x: usize| x >= ptr implies #[trigger] (x % align) != 0 by {
                if x % align == 0 {
                    assert(x as int % align as int == 0);
                    assert(x as int >= q);
                    assert(q > usize::MAX);
                }
            }
        }
    }
    r
}

/// Returns the address in `p`, or the null address if `p` is `None`.
pub fn addr_or_null(p: Option<usize>) -> (r: usize)
    ensures
        r == (match p {
            Some(q) => q,
            None => 0usize,
        }),
{
    match p {
        Some(q) => q,
        None => 0,
    }
}

/// Returns `ptr + offset`, or `None` if the sum does not fit in a `usize`.
pub fn checked_add(ptr: usize, offset: usize) -> (r: Option<usize>)
    ensures
        match r {
            Some(q) => q == ptr + offset,
            None => ptr + offset > usize::MAX,
        },
{
    if ptr <= usize::MAX - offset {
        Some(ptr + offset)
    } else {
        None
    }
}

} // verus!
