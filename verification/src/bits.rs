//! Single-bit operations on 32-bit words.

use vstd::prelude::*;
use crate::md5::{lemma_w32_absorb, lemma_w32_id, lemma_wrapping_add_is_w32, lemma_wrapping_sub_is_w32, w32};

verus! {

broadcast use lemma_wrapping_add_is_w32, lemma_wrapping_sub_is_w32, lemma_w32_absorb, lemma_w32_id;

/// Bit `i` of `x`, as 0 or 1.
pub open spec fn bit_of(x: u32, i: u32) -> u32 {
    (x >> i) & 1
}

/// `x` with bit `i` set when `b == 1` and cleared otherwise.
pub open spec fn with_bit(x: u32, i: u32, b: i32) -> u32 {
    if b == 1 {
        x | (1u32 << i)
    } else {
        x & !(1u32 << i)
    }
}

/// `x + b * 2^i` modulo 2^32; `x` itself once `2^i` no longer fits in a word.
pub open spec fn addsub(x: u32, i: i32, b: i32) -> u32 {
    if i >= 32 {
        x
    } else {
        w32(x + b * (1u32 << (i as u32)))
    }
}

/// Bit `i` of `x`, for `0 <= i < 32`.
pub fn get_bit(x: u32, i: i32) -> (r: u32)
    requires
        0 <= i < 32,
    ensures
        r == bit_of(x, i as u32),
        r <= 1,
{
    let k = i as u32;
    let r = (x >> k) & 1;
    assert(r <= 1) by (bit_vector)
        requires
            r == (x >> k) & 1,
    ;
    r
}

/// `x` with bit `i` set when `b == 1` and cleared otherwise, for `0 <= i < 32`.
pub fn set_bit(x: u32, i: i32, b: i32) -> (r: u32)
    requires
        0 <= i < 32,
    ensures
        r == with_bit(x, i as u32, b),
{
    let k = i as u32;
    if b == 1 {
        return x | (1 << k);
    } else {
        if get_bit(x, i) == 0 {
            assert(x & !(1u32 << k) == x) by (bit_vector)
                requires
                    (x >> k) & 1 == 0,
                    k < 32,
            ;
            return x;
        } else {
            assert(x - (1u32 << k) == x & !(1u32 << k) && x >= (1u32 << k)) by (bit_vector)
                requires
                    (x >> k) & 1 != 0,
                    k < 32,
            ;
            return x - (1 << k);
        }
    }
}

/// Adds `b * 2^i` to `x` modulo 2^32, `b` being 1 or -1 and `i` non-negative;
/// from `i = 32` on the addend is zero.
pub fn addsub_bit(x: u32, i: i32, b: i32) -> (r: u32)
    requires
        b == 1 || b == -1,
        i >= 0,
    ensures
        r == addsub(x, i, b),
{
    let t: u32 = if i >= 32 {
        0
    } else {
        1u32 << (i as u32)
    };
    if b == 1 {
        x.wrapping_add(t)
    } else {
        x.wrapping_sub(t)
    }
}

/// The next candidate for `Q[19]` after a step of the counter: bits 12 and 26
/// are skipped by carrying past them.
#[verifier::opaque]
pub open spec fn fixed_n19(x: u32) -> u32 {
    let y = if bit_of(x, 12) == 1 {
        addsub(x, 12, 1)
    } else {
        x
    };
    if bit_of(y, 26) == 1 {
        addsub(y, 26, 1)
    } else {
        y
    }
}

/// Carries the counter past bits 12 and 26 where they are set.
pub fn fix_n19(g_n19: &mut u32)
    ensures
        *final(g_n19) == fixed_n19(*old(g_n19)),
{
    reveal(fixed_n19);
    if get_bit(*g_n19, 12) == 1 {
        *g_n19 = addsub_bit(*g_n19, 12, 1);
    }
    if get_bit(*g_n19, 26) == 1 {
        *g_n19 = addsub_bit(*g_n19, 26, 1);
    }
}

/// The counter after `fixed_n19` has bits 12 and 26 clear, keeps bits 0 .. 11,
/// and is left alone when those two bits already are clear.
pub proof fn lemma_fixed_n19(x: u32)
    ensures
        bit_of(fixed_n19(x), 12) == 0,
        bit_of(fixed_n19(x), 26) == 0,
        fixed_n19(x) & 0xfff == x & 0xfff,
        (bit_of(x, 12) == 0 && bit_of(x, 26) == 0) ==> fixed_n19(x) == x,
{
    reveal(fixed_n19);
    assert((1u32 << 12u32) == 0x1000u32 && (1u32 << 26u32) == 0x4000000u32) by (bit_vector);
    let y = if bit_of(x, 12) == 1 {
        addsub(x, 12, 1)
    } else {
        x
    };
    let z = if bit_of(y, 26) == 1 {
        addsub(y, 26, 1)
    } else {
        y
    };
    assert(fixed_n19(x) == z);
    let y1 = ((x as int + 0x1000) % 0x1_0000_0000) as u32;
    assert(y == if (x >> 12) & 1 == 1 { y1 } else { x });
    let z1 = ((y as int + 0x4000000) % 0x1_0000_0000) as u32;
    assert(z == if (y >> 26) & 1 == 1 { z1 } else { y });
    assert((y >> 12) & 1 == 0 && y & 0xfff == x & 0xfff && ((x >> 12) & 1 == 0 ==> y == x)) by (bit_vector)
        requires
            y1 == ((x as int + 0x1000) % 0x1_0000_0000) as u32,
            y == if (x >> 12) & 1 == 1 { y1 } else { x },
    ;
    assert((z >> 12) & 1 == 0 && (z >> 26) & 1 == 0 && z & 0xfff == y & 0xfff && ((y >> 26) & 1 == 0 ==> z == y))
        by (bit_vector)
        requires
            (y >> 12) & 1 == 0,
            z1 == ((y as int + 0x4000000) % 0x1_0000_0000) as u32,
            z == if (y >> 26) & 1 == 1 { z1 } else { y },
    ;
    if (x >> 12) & 1 == 0 && (x >> 26) & 1 == 0 {
        assert(y == x);
    }
}

/// Adding and then taking away `2^i` gives back the word.
pub proof fn lemma_addsub_inverse(x: u32, i: i32)
    requires
        i >= 0,
    ensures
        addsub(addsub(x, i, 1i32), i, -1i32) == x,
        addsub(addsub(x, i, -1i32), i, 1i32) == x,
{
}

/// Setting a bit leaves it at the requested value and all other bits alone.
pub proof fn lemma_with_bit(x: u32, i: u32, b: i32, j: u32)
    requires
        i < 32,
        j < 32,
    ensures
        bit_of(with_bit(x, i, b), i) == (if b == 1 { 1u32 } else { 0u32 }),
        j != i ==> bit_of(with_bit(x, i, b), j) == bit_of(x, j),
{
    if b == 1 {
        assert(bit_of(x | (1u32 << i), i) == 1u32) by (bit_vector)
            requires
                i < 32,
        ;
        assert(j != i ==> bit_of(x | (1u32 << i), j) == bit_of(x, j)) by (bit_vector)
            requires
                i < 32,
                j < 32,
        ;
    } else {
        assert(bit_of(x & !(1u32 << i), i) == 0u32) by (bit_vector)
            requires
                i < 32,
        ;
        assert(j != i ==> bit_of(x & !(1u32 << i), j) == bit_of(x, j)) by (bit_vector)
            requires
                i < 32,
                j < 32,
        ;
    }
}

/// After the counter is carried past bits 12 and 26, both are zero.
pub proof fn lemma_fixed_n19_clears(x: u32)
    ensures
        bit_of(fixed_n19(x), 12) == 0,
        bit_of(fixed_n19(x), 26) == 0,
{
    reveal(fixed_n19);
    let y = if bit_of(x, 12) == 1 {
        addsub(x, 12, 1)
    } else {
        x
    };
    assert((1u32 << 12u32) == 4096u32) by (bit_vector);
    assert(forall|w: u32, k: u32| #[trigger] ((w >> k) & 1) <= 1u32) by (bit_vector);
    assert((1u32 << 26u32) == 0x4000000u32) by (bit_vector);
    if bit_of(x, 12) == 1 {
        assert(x.wrapping_add(4096) == addsub(x, 12, 1));
        let y1 = x.wrapping_add(4096);
        assert(bit_of(y1, 12) == 0) by (bit_vector)
            requires
                (x >> 12u32) & 1 == 1,
                y1 == x.wrapping_add(4096),
        ;
    }
    assert(bit_of(y, 12) == 0);
    if bit_of(y, 26) == 1 {
        assert(y.wrapping_add(0x4000000) == addsub(y, 26i32, 1i32));
        let z = y.wrapping_add(0x4000000);
        assert(bit_of(z, 12) == 0 && bit_of(z, 26) == 0) by (bit_vector)
            requires
                (y >> 12u32) & 1 == 0,
                (y >> 26u32) & 1 == 1,
                z == y.wrapping_add(0x4000000),
        ;
    }
}

/// The bit values the searches add and take away.
pub proof fn lemma_bit_values()
    ensures
        (1u32 << 31u32) == 0x80000000u32,
        (1u32 << 15u32) == 0x8000u32,
        (1u32 << 25u32) == 0x2000000u32,
{
    assert((1u32 << 31u32) == 0x80000000u32) by (bit_vector);
    assert((1u32 << 15u32) == 0x8000u32) by (bit_vector);
    assert((1u32 << 25u32) == 0x2000000u32) by (bit_vector);
}

} // verus!
