//! Search for the second block: a message pair `(M, M')` whose compressions
//! from the chaining values `cv` and `cv ^ (2^31, 2^31 + 2^25, 2^31 + 2^26 + 2^25, 2^31 + 2^25)`
//! meet.

use vstd::prelude::*;
use crate::search::{random_word, SEARCH_LIMIT};
use crate::bits::bit_of;
use crate::md5::f_fn;
use crate::md5::{
    init_cv, lemma_init_cv, md5_compress, md5_rl, q_init,
    get_md5_round_func, lemma_rot_forms, lemma_smap_range, md5_q, md5_step, lemma_w32_absorb, lemma_wrapping_add_is_w32,
    lemma_wrapping_sub_is_w32, md5_rr, round_fn, shifting, unstep, w32, MMAP, SMAP, TMAP,
};

verus! {

broadcast use lemma_wrapping_add_is_w32, lemma_wrapping_sub_is_w32, lemma_w32_absorb;

/// The round function of the step that produces `q_cond_nodes[i]`.
pub fn phi(q_cond_nodes: &mut [u32; 68], i: usize) -> (r: u32)
    requires
        4 <= i <= 68,
    ensures
        r == round_fn(i - 4, old(q_cond_nodes)[i - 1], old(q_cond_nodes)[i - 2], old(q_cond_nodes)[i - 3]),
        *final(q_cond_nodes) == *old(q_cond_nodes),
{
    get_md5_round_func(q_cond_nodes[i - 1], q_cond_nodes[i - 2], q_cond_nodes[i - 3], i - 4)
}

/// The second message of a pair: `m` with `2^31` added to word 4 and 14 and
/// `2^15` taken from word 11.
pub open spec fn second_block_prime(m: Seq<u32>) -> Seq<u32> {
    m.update(4, w32(m[4] - 0x80000000)).update(11, w32(m[11] - 0x8000)).update(
        14,
        w32(m[14] - 0x80000000),
    )
}

/// The second message of a second-block pair differs from the first in words
/// 4 and 14 by `-2^31` and in word 11 by `-2^15` (mod `2^32`), and nowhere else.
pub proof fn lemma_second_block_prime(m: Seq<u32>)
    requires
        m.len() == 16,
    ensures
        second_block_prime(m).len() == 16,
        forall|k: int| 0 <= k < 16 && k != 4 && k != 11 && k != 14 ==> #[trigger] second_block_prime(m)[k] == m[k],
        w32(m[4] - second_block_prime(m)[4]) == 0x80000000,
        w32(m[11] - second_block_prime(m)[11]) == 0x8000,
        w32(m[14] - second_block_prime(m)[14]) == 0x80000000,
{
    lemma_w32_absorb(m[4] - 0x80000000, m[4] as int);
    lemma_w32_absorb(m[11] - 0x8000, m[11] as int);
    lemma_w32_absorb(m[14] - 0x80000000, m[14] as int);
}

/// Recomputes the message words `0 .. 16` from `Q[0] .. Q[15]`, so that the
/// steps map them back onto the same `Q` values, and derives the second message.
#[verifier::spinoff_prover]
#[verifier::rlimit(30)]
pub fn recalc_0_15(q_cond_nodes: &mut [u32; 68], m_block: &mut [u32; 16], m_prime_block: &mut [u32; 16])
    ensures
        *final(q_cond_nodes) == *old(q_cond_nodes),
        forall|k: int|
            0 <= k < 16 ==> #[trigger] final(m_block)[k] == unstep(
                k,
                old(q_cond_nodes)[k + 4],
                old(q_cond_nodes)[k + 3],
                old(q_cond_nodes)[k + 2],
                old(q_cond_nodes)[k + 1],
                old(q_cond_nodes)[k],
            ),
        final(m_prime_block)@ == second_block_prime(final(m_block)@),
{
    let ghost q0 = *q_cond_nodes;
    for i in 4..20
        invariant
            *q_cond_nodes == q0,
            forall|k: int|
                0 <= k < i - 4 ==> #[trigger] m_block[k] == unstep(k, q0[k + 4], q0[k + 3], q0[k + 2], q0[k + 1], q0[k])
                    && m_prime_block[k] == m_block[k],
    {
        proof {
            lemma_smap_range(i - 4);
            reveal(unstep);
        }
        let w = md5_rr(q_cond_nodes[i].wrapping_sub(q_cond_nodes[i - 1]), SMAP[i - 4]).wrapping_sub(
            TMAP[i - 4],
        ).wrapping_sub(q_cond_nodes[i - 4]).wrapping_sub(phi(q_cond_nodes, i));
        m_block[i - 4] = w;
        m_prime_block[i - 4] = m_block[i - 4];
    }
    m_prime_block[4] = m_prime_block[4].wrapping_sub(0x80000000);
    m_prime_block[11] = m_prime_block[11].wrapping_sub(0x8000);
    m_prime_block[14] = m_prime_block[14].wrapping_sub(0x80000000);
    assert(m_prime_block@ == second_block_prime(m_block@));
}

/// `vals[k + 4]` holds `Q[k]` of the compression of `m` from `init` for
/// every `k` in `lo .. hi`.
pub open spec fn holds_steps(vals: Seq<u32>, init: Seq<u32>, m: Seq<u32>, lo: int, hi: int) -> bool {
    forall|k: int| lo <= k < hi ==> #[trigger] vals[k + 4] == md5_q(init, m, k)
}

/// `vals` and `old` agree outside the positions `lo + 4 .. hi + 4`.
pub open spec fn same_outside(vals: Seq<u32>, old: Seq<u32>, lo: int, hi: int) -> bool {
    vals.len() == old.len() && forall|k: int|
        0 <= k < old.len() && !(lo + 4 <= k < hi + 4) ==> #[trigger] vals[k] == old[k]
}

/// The words that `recalc_0_15` derives from `Q[0] .. Q[15]` (the values
/// `q[4 .. 20]` over `q[0 .. 4]`) make the steps give those values back: the
/// values that `md5_20_steps` then computes from `q[0 .. 4]` are `q[4 .. 20]`.
pub proof fn lemma_words_reproduce_values(q: Seq<u32>, m: Seq<u32>, v: Seq<u32>)
    requires
        q.len() == 68,
        m.len() == 16,
        forall|k: int| 0 <= k < 16 ==> #[trigger] m[k] == unstep(k, q[k + 4], q[k + 3], q[k + 2], q[k + 1], q[k]),
        holds_steps(v, q.subrange(0, 4), m, 0, 16),
    ensures
        forall|k: int| 4 <= k < 20 ==> #[trigger] v[k] == q[k],
{
    assert forall|k: int| 4 <= k < 20 implies #[trigger] v[k] == q[k] by {
        lemma_q_of_words(q, m, k - 4);
        assert(v[(k - 4) + 4] == md5_q(q.subrange(0, 4), m, k - 4));
    }
}

proof fn lemma_q_of_words(q: Seq<u32>, m: Seq<u32>, k: int)
    requires
        q.len() == 68,
        m.len() == 16,
        forall|j: int| 0 <= j < 16 ==> #[trigger] m[j] == unstep(j, q[j + 4], q[j + 3], q[j + 2], q[j + 1], q[j]),
        -4 <= k < 16,
    ensures
        md5_q(q.subrange(0, 4), m, k) == q[k + 4],
    decreases k + 4,
{
    if k >= 0 {
        lemma_q_of_words(q, m, k - 1);
        lemma_q_of_words(q, m, k - 2);
        lemma_q_of_words(q, m, k - 3);
        lemma_q_of_words(q, m, k - 4);
        lemma_smap_range(k);
        crate::md5::lemma_unstep(k, q[k + 4], q[k + 3], q[k + 2], q[k + 1], q[k], m[k]);
    }
}

/// One MD5 step computed the way the step loops do it: `a + phi + m + t`,
/// rotated and added to `b`.
proof fn lemma_step_form(j: int, a: u32, b: u32, c: u32, d: u32, w: u32, t: u32, s: u32)
    requires
        0 <= j < 64,
        t == w32(a + round_fn(j, b, c, d) + w + crate::md5::t_of(j)),
        s == crate::md5::s_of(j),
    ensures
        (t << s) + (t >> ((32 - s) as u32)) == crate::md5::rotl(t, s),
        b.wrapping_add((t << s).wrapping_add(t >> ((32 - s) as u32))) == md5_step(j, b, c, d, a, w),
{
    reveal(md5_step);
    lemma_smap_range(j);
    lemma_rot_forms(t, s);
}

/// The values after the single steps `0 .. k`, applied in order to `v` the
/// way `md5_1_step` applies one.
pub open spec fn single_steps(v: Seq<u32>, m: Seq<u32>, k: int) -> Seq<u32>
    decreases k,
{
    if k <= 0 {
        v
    } else {
        let p = single_steps(v, m, k - 1);
        p.update(k + 3, md5_step(k - 1, p[k + 2], p[k + 1], p[k], p[k - 1], m[crate::md5::w_of(k - 1)]))
    }
}

proof fn lemma_single_steps(v: Seq<u32>, m: Seq<u32>, k: int)
    requires
        v.len() == 68,
        0 <= k <= 64,
    ensures
        single_steps(v, m, k).len() == 68,
        forall|j: int| 0 <= j < k ==> #[trigger] single_steps(v, m, k)[j + 4] == md5_q(v.subrange(0, 4), m, j),
        forall|i: int| 0 <= i < 68 && !(4 <= i < k + 4) ==> #[trigger] single_steps(v, m, k)[i] == v[i],
    decreases k,
{
    if k > 0 {
        lemma_single_steps(v, m, k - 1);
        let p = single_steps(v, m, k - 1);
        let init = v.subrange(0, 4);
        let j = k - 1;
        assert forall|i: int| 0 <= i < j + 4 implies #[trigger] p[i] == md5_q(init, m, i - 4) by {
            if i < 4 {
                assert(p[i] == v[i]);
                assert(init[i] == v[i]);
            } else {
                assert(p[(i - 4) + 4] == md5_q(init, m, i - 4));
            }
        }
        assert(p[j + 3] == md5_q(init, m, j - 1));
        assert(p[j + 2] == md5_q(init, m, j - 2));
        assert(p[j + 1] == md5_q(init, m, j - 3));
        assert(p[j] == md5_q(init, m, j - 4));
    }
}

/// `md5_20_steps` leaves the values as the 21 single steps `md5_1_step(.., 0)`
/// to `md5_1_step(.., 20)` do, for each of the two computations.
pub proof fn lemma_twenty_steps_are_single_steps(v: Seq<u32>, v2: Seq<u32>, m: Seq<u32>)
    requires
        v.len() == 68,
        holds_steps(v2, v.subrange(0, 4), m, 0, 21),
        same_outside(v2, v, 0, 21),
    ensures
        v2 == single_steps(v, m, 21),
{
    lemma_single_steps(v, m, 21);
    let s = single_steps(v, m, 21);
    assert forall|i: int| 0 <= i < 68 implies #[trigger] v2[i] == s[i] by {
        if 4 <= i < 25 {
            assert(v2[(i - 4) + 4] == md5_q(v.subrange(0, 4), m, i - 4));
            assert(s[(i - 4) + 4] == md5_q(v.subrange(0, 4), m, i - 4));
        }
    }
    assert(v2 =~= s);
}

/// Steps `0 .. 21` of both computations: `Q[0] .. Q[20]` of `m_block` from
/// `vals[0 .. 4]` into `vals[4 .. 25]`, and of `m_prime_block` from
/// `vals1[0 .. 4]` into `vals1[4 .. 25]`.
#[verifier::rlimit(40)]
pub fn md5_20_steps(
    m_block: &mut [u32; 16],
    vals: &mut [u32; 68],
    m_prime_block: &mut [u32; 16],
    vals1: &mut [u32; 68],
)
    ensures
        *final(m_block) == *old(m_block),
        *final(m_prime_block) == *old(m_prime_block),
        holds_steps(final(vals)@, old(vals)@.subrange(0, 4), old(m_block)@, 0, 21),
        same_outside(final(vals)@, old(vals)@, 0, 21),
        holds_steps(final(vals1)@, old(vals1)@.subrange(0, 4), old(m_prime_block)@, 0, 21),
        same_outside(final(vals1)@, old(vals1)@, 0, 21),
{
    let ghost v0 = vals@;
    let ghost init = vals@.subrange(0, 4);
    let ghost mm = m_block@;
    let mut a = vals[0];
    let mut b = vals[3];
    let mut c = vals[2];
    let mut d = vals[1];
    let mut t: u32;
    let mut t1: u32;
    for j in 0..16
        invariant
            m_block@ == mm,
            holds_steps(vals@, init, mm, 0, j as int),
            same_outside(vals@, v0, 0, j as int),
            init == v0.subrange(0, 4),
            a == md5_q(init, mm, j - 4),
            b == md5_q(init, mm, j - 1),
            c == md5_q(init, mm, j - 2),
            d == md5_q(init, mm, j - 3),
    {
        proof {
            lemma_smap_range(j as int);
        }
        t = a.wrapping_add(((b & c) | ((!b) & d)).wrapping_add(m_block[MMAP[j]]).wrapping_add(TMAP[j]));
        let s = SMAP[j] as u32;
        proof {
            lemma_step_form(j as int, a, b, c, d, mm[MMAP@[j as int] as int], t, s);
        }
        let temp = d;
        d = c;
        c = b;
        a = temp;
        t1 = t >> (32 - s);
        b = b.wrapping_add((t << s).wrapping_add(t1));
        vals[j + 4] = b;
    }
    for j in 16..21
        invariant
            m_block@ == mm,
            holds_steps(vals@, init, mm, 0, j as int),
            same_outside(vals@, v0, 0, j as int),
            init == v0.subrange(0, 4),
            a == md5_q(init, mm, j - 4),
            b == md5_q(init, mm, j - 1),
            c == md5_q(init, mm, j - 2),
            d == md5_q(init, mm, j - 3),
    {
        proof {
            lemma_smap_range(j as int);
        }
        t = a.wrapping_add((b & d) | (c & !d)).wrapping_add(m_block[MMAP[j]]).wrapping_add(TMAP[j]);
        let s = SMAP[j] as u32;
        proof {
            lemma_step_form(j as int, a, b, c, d, mm[MMAP@[j as int] as int], t, s);
        }
        let temp = d;
        d = c;
        c = b;
        a = temp;
        t1 = t >> (32 - s);
        b = b.wrapping_add((t << s).wrapping_add(t1));
        vals[j + 4] = b;
    }
    let ghost w0 = vals1@;
    let ghost init1 = vals1@.subrange(0, 4);
    let ghost mp = m_prime_block@;
    a = vals1[0];
    b = vals1[3];
    c = vals1[2];
    d = vals1[1];
    for j in 0..16
        invariant
            m_prime_block@ == mp,
            holds_steps(vals1@, init1, mp, 0, j as int),
            same_outside(vals1@, w0, 0, j as int),
            init1 == w0.subrange(0, 4),
            a == md5_q(init1, mp, j - 4),
            b == md5_q(init1, mp, j - 1),
            c == md5_q(init1, mp, j - 2),
            d == md5_q(init1, mp, j - 3),
    {
        proof {
            lemma_smap_range(j as int);
        }
        t = a.wrapping_add((b & c) | ((!b) & d)).wrapping_add(m_prime_block[MMAP[j]]).wrapping_add(
            TMAP[j],
        );
        let s = SMAP[j] as u32;
        proof {
            lemma_step_form(j as int, a, b, c, d, mp[MMAP@[j as int] as int], t, s);
        }
        let temp = d;
        d = c;
        c = b;
        a = temp;
        t1 = t >> (32 - s);
        assert((t << s) + t1 <= u32::MAX);
        b = b.wrapping_add((t << s) + t1);
        vals1[j + 4] = b;
    }
    for j in 16..21
        invariant
            m_prime_block@ == mp,
            holds_steps(vals1@, init1, mp, 0, j as int),
            same_outside(vals1@, w0, 0, j as int),
            init1 == w0.subrange(0, 4),
            a == md5_q(init1, mp, j - 4),
            b == md5_q(init1, mp, j - 1),
            c == md5_q(init1, mp, j - 2),
            d == md5_q(init1, mp, j - 3),
    {
        proof {
            lemma_smap_range(j as int);
        }
        t = a.wrapping_add((b & d) | (c & !d)).wrapping_add(m_prime_block[MMAP[j]]).wrapping_add(
            TMAP[j],
        );
        let s = SMAP[j] as u32;
        proof {
            lemma_step_form(j as int, a, b, c, d, mp[MMAP@[j as int] as int], t, s);
        }
        let temp = d;
        d = c;
        c = b;
        a = temp;
        t1 = t >> (32 - s);
        b = b.wrapping_add((t << s).wrapping_add(t1));
        vals1[j + 4] = b;
    }
}

/// One step of both computations: `Q[j]` of `m_block` into `out[j + 4]` and
/// `Q[j]` of `m_prime_block` into `out1[j + 4]`, from the four values before.
#[verifier::rlimit(30)]
pub fn md5_1_step(
    m_block: &mut [u32; 16],
    out: &mut [u32; 68],
    m_prime_block: &mut [u32; 16],
    out1: &mut [u32; 68],
    j: usize,
)
    requires
        j < 64,
    ensures
        *final(m_block) == *old(m_block),
        *final(m_prime_block) == *old(m_prime_block),
        final(out)@ == old(out)@.update(
            j + 4,
            md5_step(
                j as int,
                old(out)[j + 3],
                old(out)[j + 2],
                old(out)[j + 1],
                old(out)[j as int],
                old(m_block)[crate::md5::w_of(j as int)],
            ),
        ),
        final(out1)@ == old(out1)@.update(
            j + 4,
            md5_step(
                j as int,
                old(out1)[j + 3],
                old(out1)[j + 2],
                old(out1)[j + 1],
                old(out1)[j as int],
                old(m_prime_block)[crate::md5::w_of(j as int)],
            ),
        ),
{
    proof {
        lemma_smap_range(j as int);
    }
    let s = SMAP[j] as u32;
    let mut t;
    let mut t1;
    t = out[j].wrapping_add(get_md5_round_func(out[j + 3], out[j + 2], out[j + 1], j)).wrapping_add(
        m_block[MMAP[j]],
    ).wrapping_add(TMAP[j]);
    proof {
        lemma_step_form(j as int, out[j as int], out[j + 3], out[j + 2], out[j + 1], m_block[MMAP@[j as int] as int], t, s);
    }
    t1 = t >> (32 - s);
    t1 = out[j + 3].wrapping_add((t << s).wrapping_add(t1));
    out[j + 4] = t1;
    t = out1[j].wrapping_add(get_md5_round_func(out1[j + 3], out1[j + 2], out1[j + 1], j)).wrapping_add(
        m_prime_block[MMAP[j]],
    ).wrapping_add(TMAP[j]);
    proof {
        lemma_step_form(j as int, out1[j as int], out1[j + 3], out1[j + 2], out1[j + 1], m_prime_block[MMAP@[j as int] as int], t, s);
    }
    t1 = t >> (32 - s);
    t1 = out1[j + 3].wrapping_add((t << s).wrapping_add(t1));
    out1[j + 4] = t1;
}

// ---------------------------------------------------------------------------
// Bit conditions on the Q values.
//
// A condition entry `[g, bit, kind]` constrains bit `bit - 1` of `Q[g]`, which
// sits at `q_cond_nodes[g + 4]`: kind 0 asks for a zero, kind 1 for a one,
// kind 2 for the bit of `Q[g - 1]`, kind 3 for the bit of `Q[g - 2]`, kind 4
// for the complement of the bit of `Q[g - 1]`; other kinds ask for nothing.
// Consecutive entries with the same `g` form a run, which is handled as one.
// ---------------------------------------------------------------------------

/// An entry that the condition code can act on without leaving the arrays.
pub open spec fn entry_valid(e: [u32; 3]) -> bool {
    e[0] < 64 && (e[2] <= 4 ==> 1 <= e[1] <= 32)
}

/// One past the last entry of the run that contains entry `i` and starts no
/// earlier than `i` (309 when the run reaches the end of the table).
pub open spec fn run_end(cond: [[u32; 3]; 309], i: int) -> int
    decreases 309 - i,
{
    if i + 1 >= 309 {
        309
    } else if cond[i + 1][0] == cond[i][0] {
        run_end(cond, i + 1)
    } else {
        i + 1
    }
}

/// The entries `start .. end` and the rest of the run of `end - 1` can be
/// handled: that run ends inside the table and every entry touched is valid.
pub open spec fn cond_usable(cond: [[u32; 3]; 309], start: int, end: int) -> bool {
    start < end ==> {
        &&& 0 <= start
        &&& run_end(cond, end - 1) < 309
        &&& forall|k: int| start <= k < run_end(cond, end - 1) ==> #[trigger] entry_valid(cond[k])
    }
}

/// The masks of bits that must be one and that may be one, after the entry `e`
/// of a run for the value at `q[j]`.
pub open spec fn entry_masks(e: [u32; 3], q: Seq<u32>, j: int, one: u32, zero: u32) -> (u32, u32) {
    let m = 1u32 << ((e[1] - 1) as u32);
    if e[2] == 0 {
        (one, zero & !m)
    } else if e[2] == 1 {
        (one | m, zero)
    } else if e[2] == 2 {
        if q[j - 1] & m != 0 {
            (one | m, zero)
        } else {
            (one, zero & !m)
        }
    } else if e[2] == 3 {
        if q[j - 2] & m != 0 {
            (one | m, zero)
        } else {
            (one, zero & !m)
        }
    } else if e[2] == 4 {
        if q[j - 1] & m == 0 {
            (one | m, zero)
        } else {
            (one, zero & !m)
        }
    } else {
        (one, zero)
    }
}

/// The masks of the entries `i .. k` of the run that starts at `i`.
pub open spec fn run_masks(cond: [[u32; 3]; 309], q: Seq<u32>, i: int, k: int) -> (u32, u32)
    decreases k - i,
{
    if k <= i {
        (0u32, 0xffff_ffffu32)
    } else {
        let prev = run_masks(cond, q, i, k - 1);
        entry_masks(cond[k - 1], q, cond[i][0] + 4, prev.0, prev.1)
    }
}

/// The value at `q[j]` meets the masks of the run from entry `i`.
pub open spec fn run_ok(cond: [[u32; 3]; 309], q: Seq<u32>, i: int) -> bool {
    let mk = run_masks(cond, q, i, run_end(cond, i));
    let j = cond[i][0] + 4;
    q[j] == (q[j] | mk.0) && q[j] == (q[j] & mk.1)
}

/// The runs from every entry in `start .. end` are met.
pub open spec fn conditions_hold(cond: [[u32; 3]; 309], q: Seq<u32>, start: int, end: int) -> bool {
    forall|i: int| start <= i < end ==> #[trigger] run_ok(cond, q, i)
}

/// `q` after forcing the runs from the entries `start .. i` in order.
pub open spec fn forced(q: Seq<u32>, cond: [[u32; 3]; 309], start: int, i: int) -> Seq<u32>
    decreases i - start,
{
    if i <= start {
        q
    } else {
        let p = forced(q, cond, start, i - 1);
        let j = cond[i - 1][0] + 4;
        let mk = run_masks(cond, p, i - 1, run_end(cond, i - 1));
        p.update(j, (p[j] | mk.0) & mk.1)
    }
}

pub proof fn lemma_run_end(cond: [[u32; 3]; 309], i: int)
    requires
        0 <= i < 309,
    ensures
        i < run_end(cond, i) <= 309,
        forall|k: int| i <= k < run_end(cond, i) ==> #[trigger] cond[k][0] == cond[i][0],
        run_end(cond, i) < 309 ==> cond[run_end(cond, i)][0] != cond[i][0],
    decreases 309 - i,
{
    if i + 1 < 309 && cond[i + 1][0] == cond[i][0] {
        lemma_run_end(cond, i + 1);
    }
}

pub proof fn lemma_run_end_monotone(cond: [[u32; 3]; 309], i: int, i2: int)
    requires
        0 <= i <= i2 < 309,
    ensures
        run_end(cond, i) <= run_end(cond, i2),
    decreases i2 - i,
{
    lemma_run_end(cond, i2);
    if i < i2 && i + 1 < 309 && cond[i + 1][0] == cond[i][0] {
        lemma_run_end_monotone(cond, i + 1, i2);
    }
}

/// Computes the masks of the run from entry `i` and returns them with the
/// index of the value they constrain.
fn run_masks_at(q_cond_nodes: &[u32; 68], i: usize, cond: &[[u32; 3]; 309]) -> (r: (usize, u32, u32))
    requires
        i < 309,
        run_end(*cond, i as int) < 309,
        forall|k: int| i <= k < run_end(*cond, i as int) ==> #[trigger] entry_valid(cond[k]),
    ensures
        r.0 == cond[i as int][0] + 4,
        r.0 < 68,
        (r.1, r.2) == run_masks(*cond, q_cond_nodes@, i as int, run_end(*cond, i as int)),
{
    proof {
        lemma_run_end(*cond, i as int);
        assert(entry_valid(cond[i as int]));
    }
    let j = cond[i][0] + 4;
    let mut zero_bit: u32 = 0xffffffff;
    let mut one_bit: u32 = 0;
    let mut k = i;
    while cond[k][0] == j - 4
        invariant
            i <= k <= run_end(*cond, i as int) < 309,
            j == cond[i as int][0] + 4,
            j < 68,
            forall|x: int| i <= x < run_end(*cond, i as int) ==> #[trigger] entry_valid(cond[x]),
            forall|x: int| i <= x < run_end(*cond, i as int) ==> #[trigger] cond[x][0] == cond[i as int][0],
            run_end(*cond, i as int) < 309 ==> cond[run_end(*cond, i as int)][0] != cond[i as int][0],
            (one_bit, zero_bit) == run_masks(*cond, q_cond_nodes@, i as int, k as int),
        decreases run_end(*cond, i as int) - k,
    {
        assert(entry_valid(cond[k as int]));
        let bit = cond[k][1];
        match cond[k][2] {
            0 => {
                zero_bit &= !shifting(bit);
            },
            1 => {
                one_bit |= shifting(bit);
            },
            2 => {
                if (q_cond_nodes[j as usize - 1] & shifting(bit)) != 0 {
                    one_bit |= shifting(bit);
                } else {
                    zero_bit &= !shifting(bit);
                }
            },
            3 => {
                if (q_cond_nodes[j as usize - 2] & shifting(bit)) != 0 {
                    one_bit |= shifting(bit);
                } else {
                    zero_bit &= !shifting(bit);
                }
            },
            4 => {
                if (q_cond_nodes[j as usize - 1] & shifting(bit)) == 0 {
                    one_bit |= shifting(bit);
                } else {
                    zero_bit &= !shifting(bit);
                }
            },
            _ => {},
        }
        k += 1;
    }
    (j as usize, one_bit, zero_bit)
}

/// The entries that `modif_for_cond` forces for each of its three uses.
pub open spec fn modif_range(q_index: i32) -> (int, int) {
    if q_index == 0 {
        (145, 211)
    } else if q_index == 2 {
        (0, 52)
    } else {
        (0, 274)
    }
}

/// Forces the runs of the entries in the range chosen by `q_index` onto the
/// values, in order: each value gets the ones and zeros its run asks for.
pub fn modif_for_cond(q_cond_nodes: &mut [u32; 68], q_index: i32, cond: [[u32; 3]; 309])
    requires
        cond_usable(cond, modif_range(q_index).0, modif_range(q_index).1),
    ensures
        final(q_cond_nodes)@ == forced(old(q_cond_nodes)@, cond, modif_range(q_index).0, modif_range(q_index).1),
        final(q_cond_nodes)@.subrange(0, 4) == old(q_cond_nodes)@.subrange(0, 4),
{
    let start: usize;
    let end: usize;
    match q_index {
        0 => {
            start = 145;
            end = 211;
        },
        2 => {
            start = 0;
            end = 52;
        },
        _ => {
            start = 0;
            end = 274;
        },
    }
    let ghost q0 = q_cond_nodes@;
    for i in start..end
        invariant
            start == modif_range(q_index).0,
            end == modif_range(q_index).1,
            cond_usable(cond, start as int, end as int),
            q_cond_nodes@ == forced(q0, cond, start as int, i as int),
            q_cond_nodes@.subrange(0, 4) == q0.subrange(0, 4),
    {
        proof {
            lemma_run_end_monotone(cond, i as int, end - 1);
            lemma_run_end(cond, i as int);
        }
        let (j, one_bit, zero_bit) = run_masks_at(q_cond_nodes, i, &cond);
        q_cond_nodes[j] |= one_bit;
        q_cond_nodes[j] &= zero_bit;
        assert(q_cond_nodes@.subrange(0, 4) =~= q0.subrange(0, 4));
    }
}

/// Whether the runs of the entries `start .. end` all hold of the values.
pub fn verify_conditions(q_cond_nodes: [u32; 68], start: i32, end: i32, cond: [[u32; 3]; 309]) -> (r: bool)
    requires
        0 <= start,
        cond_usable(cond, start as int, end as int),
    ensures
        r == conditions_hold(cond, q_cond_nodes@, start as int, end as int),
{
    let mut i = start;
    while i < end
        invariant
            start <= i,
            start < end ==> i <= end,
            cond_usable(cond, start as int, end as int),
            conditions_hold(cond, q_cond_nodes@, start as int, i as int),
        decreases end - i,
    {
        proof {
            lemma_run_end_monotone(cond, i as int, end - 1);
            lemma_run_end(cond, i as int);
        }
        let (j, one_bit, zero_bit) = run_masks_at(&q_cond_nodes, i as usize, &cond);
        if (q_cond_nodes[j] != (q_cond_nodes[j] | one_bit)) || (q_cond_nodes[j] != (q_cond_nodes[j] & zero_bit)) {
            assert(!run_ok(cond, q_cond_nodes@, i as int));
            return false;
        }
        i += 1;
    }
    true
}

/// The computations of `m` from `init` and of `mp` from `initp` show the XOR
/// differences `DIFFERENCES[k]` at the steps `lo .. hi`.
pub open spec fn xor_path(init: Seq<u32>, initp: Seq<u32>, m: Seq<u32>, mp: Seq<u32>, lo: int, hi: int) -> bool {
    forall|k: int| lo <= k < hi ==> (#[trigger] md5_q(init, m, k) ^ md5_q(initp, mp, k)) == DIFFERENCES@[k]
}

/// The XOR differences between the two computations that steps `21 .. 64`
/// must show (checked from step 21 on).
pub const DIFFERENCES: [u32; 64] = [
    0x82000000, 0x82000020, 0xfe3f18e0, 0x8600003e, 0x80001fc1, 0x80330000, 0x980003c0, 0x87838000,
    0x800003c3, 0x80001000, 0x80000000, 0x800fe080, 0xff000000, 0x80000000, 0x80008008, 0xa0000000,
    0x80000000, 0x80000000, 0x80020000, 0x80000000, 0x80000000, 0x80000000, 0, 0, 0, 0, 0, 0, 0, 0,
    0, 0, 0, 0, 0x80000000, 0x80000000, 0x80000000, 0x80000000, 0x80000000, 0x80000000, 0x80000000,
    0x80000000, 0x80000000, 0x80000000, 0x80000000, 0x80000000, 0x80000000, 0x80000000, 0x80000000,
    0x80000000, 0x80000000, 0x80000000, 0x80000000, 0x80000000, 0x80000000, 0x80000000, 0x80000000,
    0x80000000, 0x80000000, 0x80000000, 0x80000000, 0x82000000, 0x82000000, 0x86000000,
];

/// The message words `m_block[from .. 16]` recomputed from the values, each
/// the word that maps `Q[k-1] .. Q[k-4]` onto `Q[k]`; `m_prime_block` follows,
/// with `2^15` taken from word 11 and, when `from <= 14`, `2^31` from word 14.
#[verifier::spinoff_prover]
#[verifier::rlimit(30)]
fn recompute_words(
    m_block: &mut [u32; 16],
    m_prime_block: &mut [u32; 16],
    q_cond_nodes: &mut [u32; 68],
    from: usize,
    to: usize,
)
    requires
        7 <= from <= 11,
        to == 14 || to == 16,
        old(m_prime_block)@ == second_block_prime(old(m_block)@),
    ensures
        *final(q_cond_nodes) == *old(q_cond_nodes),
        final(m_prime_block)@ == second_block_prime(final(m_block)@),
        forall|k: int| (0 <= k < from || to <= k < 16) ==> #[trigger] final(m_block)[k] == old(m_block)[k],
        forall|k: int|
            from <= k < to ==> #[trigger] final(m_block)[k] == unstep(
                k,
                old(q_cond_nodes)[k + 4],
                old(q_cond_nodes)[k + 3],
                old(q_cond_nodes)[k + 2],
                old(q_cond_nodes)[k + 1],
                old(q_cond_nodes)[k],
            ),
{
    let ghost m0 = m_block@;
    let ghost mp0 = m_prime_block@;
    let ghost q0 = *q_cond_nodes;
    for i in from..to
        invariant
            *q_cond_nodes == q0,
            from <= i <= to,
            7 <= from <= 11,
            to == 14 || to == 16,
            mp0 == second_block_prime(m0),
            forall|k: int| 0 <= k < 16 && !(from <= k < i) ==> #[trigger] m_block[k] == m0[k],
            forall|k: int| 0 <= k < 16 && !(from <= k < i) ==> #[trigger] m_prime_block[k] == mp0[k],
            forall|k: int| from <= k < i ==> #[trigger] m_prime_block[k] == m_block[k],
            forall|k: int|
                from <= k < i ==> #[trigger] m_block[k] == unstep(k, q0[k + 4], q0[k + 3], q0[k + 2], q0[k + 1], q0[k]),
    {
        proof {
            lemma_smap_range(i as int);
            reveal(unstep);
        }
        m_block[i] = md5_rr(q_cond_nodes[i + 4].wrapping_sub(q_cond_nodes[i + 3]), SMAP[i]).wrapping_sub(TMAP[i]).wrapping_sub(
            q_cond_nodes[i],
        ).wrapping_sub(phi(q_cond_nodes, i + 4));
        m_prime_block[i] = m_block[i];
    }
    m_prime_block[11] = m_prime_block[11].wrapping_sub(0x8000);
    if to == 16 {
        m_prime_block[14] = m_prime_block[14].wrapping_sub(0x80000000);
    }
    assert(m_prime_block@ =~= second_block_prime(m_block@));
}

/// Runs steps `21 .. 64` of both computations for as long as the XOR
/// differences of `DIFFERENCES` show up; whether they all did.
fn finish_steps(
    m_block: &mut [u32; 16],
    m_prime_block: &mut [u32; 16],
    q_cond_nodes: &mut [u32; 68],
    q_prime: &mut [u32; 68],
) -> (truth: bool)
    requires
        holds_steps(old(q_cond_nodes)@, old(q_cond_nodes)@.subrange(0, 4), old(m_block)@, 0, 21),
        holds_steps(old(q_prime)@, old(q_prime)@.subrange(0, 4), old(m_prime_block)@, 0, 21),
    ensures
        *final(m_block) == *old(m_block),
        *final(m_prime_block) == *old(m_prime_block),
        final(q_cond_nodes)@.subrange(0, 4) == old(q_cond_nodes)@.subrange(0, 4),
        final(q_prime)@.subrange(0, 4) == old(q_prime)@.subrange(0, 4),
        truth ==> holds_steps(final(q_cond_nodes)@, old(q_cond_nodes)@.subrange(0, 4), old(m_block)@, 0, 64),
        truth ==> holds_steps(final(q_prime)@, old(q_prime)@.subrange(0, 4), old(m_prime_block)@, 0, 64),
        truth == xor_path(
            old(q_cond_nodes)@.subrange(0, 4),
            old(q_prime)@.subrange(0, 4),
            old(m_block)@,
            old(m_prime_block)@,
            21,
            64,
        ),
{
    let ghost init = q_cond_nodes@.subrange(0, 4);
    let ghost initp = q_prime@.subrange(0, 4);
    let ghost m0 = m_block@;
    let ghost mp0 = m_prime_block@;
    let mut truth = true;
    let mut k: usize = 21;
    while k < 64 && truth
        invariant
            21 <= k <= 64,
            m_block@ == m0,
            m_prime_block@ == mp0,
            q_cond_nodes@.subrange(0, 4) == init,
            q_prime@.subrange(0, 4) == initp,
            holds_steps(q_cond_nodes@, init, m0, 0, k as int),
            holds_steps(q_prime@, initp, mp0, 0, k as int),
            xor_path(init, initp, m0, mp0, 21, k as int),
            !truth ==> !xor_path(init, initp, m0, mp0, 21, 64),
        decreases 2 * (64 - k) + (if truth { 1int } else { 0int }),
    {
        proof {
            let kk = k as int;
            assert(q_cond_nodes@[(kk - 1) + 4] == md5_q(init, m0, kk - 1));
            assert(q_cond_nodes@[(kk - 2) + 4] == md5_q(init, m0, kk - 2));
            assert(q_cond_nodes@[(kk - 3) + 4] == md5_q(init, m0, kk - 3));
            assert(q_cond_nodes@[(kk - 4) + 4] == md5_q(init, m0, kk - 4));
            assert(q_prime@[(kk - 1) + 4] == md5_q(initp, mp0, kk - 1));
            assert(q_prime@[(kk - 2) + 4] == md5_q(initp, mp0, kk - 2));
            assert(q_prime@[(kk - 3) + 4] == md5_q(initp, mp0, kk - 3));
            assert(q_prime@[(kk - 4) + 4] == md5_q(initp, mp0, kk - 4));
        }
        md5_1_step(m_block, q_cond_nodes, m_prime_block, q_prime, k);
        assert(q_cond_nodes@.subrange(0, 4) =~= init);
        assert(q_prime@.subrange(0, 4) =~= initp);
        if (q_cond_nodes[k + 4] ^ q_prime[k + 4]) != DIFFERENCES[k] {
            proof {
                assert(q_cond_nodes@[k + 4] == md5_q(init, m0, k as int));
                assert(q_prime@[k + 4] == md5_q(initp, mp0, k as int));
                assert((md5_q(init, m0, k as int) ^ md5_q(initp, mp0, k as int)) != DIFFERENCES@[k as int]);
            }
            truth = false;
        } else {
            proof {
                assert(q_cond_nodes@[k + 4] == md5_q(init, m0, k as int));
                assert(q_prime@[k + 4] == md5_q(initp, mp0, k as int));
            }
            k += 1;
        }
    }
    truth
}

/// The bit each tunnel of the second block works on, by the position of the
/// lowest set bit of the candidate number.
pub const TUNNEL_BITS: [u32; 17] = [
    0x4, 0x8, 0x10, 0x20, 0x400, 0x800, 0x100000, 0x200000, 0x400000, 0x20000000, 0x40000000,
    0x4000, 0x80000, 0x40000, 0x8000000, 0x10000000, 0x2000,
];

/// The position of the lowest set bit of `j` among bits 0 .. 16; 17 when
/// none of them is set.
pub open spec fn tunnel_index(j: u32) -> int {
    if j & 0x1 != 0 {
        0
    } else if j & 0x2 != 0 {
        1
    } else if j & 0x4 != 0 {
        2
    } else if j & 0x8 != 0 {
        3
    } else if j & 0x10 != 0 {
        4
    } else if j & 0x20 != 0 {
        5
    } else if j & 0x40 != 0 {
        6
    } else if j & 0x80 != 0 {
        7
    } else if j & 0x100 != 0 {
        8
    } else if j & 0x200 != 0 {
        9
    } else if j & 0x400 != 0 {
        10
    } else if j & 0x800 != 0 {
        11
    } else if j & 0x1000 != 0 {
        12
    } else if j & 0x2000 != 0 {
        13
    } else if j & 0x4000 != 0 {
        14
    } else if j & 0x8000 != 0 {
        15
    } else if j & 0x10000 != 0 {
        16
    } else {
        17
    }
}

/// The values after candidate `j` of the tunnels: with `b` the tunnel's bit,
/// tunnels 0 .. 10 flip `b` of `Q[9]` when `Q[10]` has it clear and of `Q[8]`
/// otherwise; tunnels 14 and 15 flip it in `Q[9]` only when `Q[10]` has it
/// clear; tunnels 11, 12, 13 and 16 flip it in `Q[8]` only when `Q[10]` has it
/// set; no tunnel, no change.
pub open spec fn tunnel_flipped(q: Seq<u32>, j: u32) -> Seq<u32> {
    let t = tunnel_index(j);
    if t >= 17 {
        q
    } else {
        let b = TUNNEL_BITS@[t];
        let set = q[14] & b != 0;
        if t <= 10 {
            if set {
                q.update(12, q[12] ^ b)
            } else {
                q.update(13, q[13] ^ b)
            }
        } else if t == 14 || t == 15 {
            if set {
                q
            } else {
                q.update(13, q[13] ^ b)
            }
        } else if set {
            q.update(12, q[12] ^ b)
        } else {
            q
        }
    }
}

/// Flipping bit `b` of `y` where `x` has it clear, or of `z` where `x` has it
/// set, leaves the round function `F(x, y, z)` alone.
proof fn lemma_f_flip(x: u32, y: u32, z: u32, b: u32)
    by (bit_vector)
    ensures
        x & b == 0 ==> f_fn(x, y ^ b, z) == f_fn(x, y, z),
        x & b == b ==> f_fn(x, y, z ^ b) == f_fn(x, y, z),
{
}

proof fn lemma_one_bit(x: u32, b: u32)
    by (bit_vector)
    requires
        b == 0x4 || b == 0x8 || b == 0x10 || b == 0x20 || b == 0x400 || b == 0x800 || b == 0x100000 || b == 0x200000
            || b == 0x400000 || b == 0x20000000 || b == 0x40000000 || b == 0x4000 || b == 0x80000 || b == 0x40000
            || b == 0x8000000 || b == 0x10000000 || b == 0x2000,
    ensures
        (x & b != 0) == (x & b == b),
        b != 0,
{
}

/// A tunnel step changes only `Q[8]` and `Q[9]`, in the tunnel's bit alone,
/// and keeps the round function `F(Q[10], Q[9], Q[8])` of the step that
/// produces `Q[11]`: the bit is flipped in `Q[9]` where `Q[10]` has it clear
/// and in `Q[8]` where `Q[10]` has it set. Tunnels 0 .. 10 always flip it;
/// tunnels 14 and 15 only in `Q[9]`, tunnels 11, 12, 13 and 16 only in `Q[8]`;
/// a candidate with none of bits 0 .. 16 set changes nothing.
pub proof fn lemma_tunnel_keeps_round_value(q: Seq<u32>, j: u32)
    requires
        q.len() == 68,
    ensures
        ({
            let f = tunnel_flipped(q, j);
            let t = tunnel_index(j);
            let b = TUNNEL_BITS@[t];
            let d8 = f[12] ^ q[12];
            let d9 = f[13] ^ q[13];
            &&& f.len() == 68
            &&& forall|k: int| 0 <= k < 68 && k != 12 && k != 13 ==> #[trigger] f[k] == q[k]
            &&& f_fn(f[14], f[13], f[12]) == f_fn(q[14], q[13], q[12])
            &&& d8 & d9 == 0
            &&& t < 17 ==> (d8 | d9) & !b == 0
            &&& t <= 10 ==> (d8 | d9) == b
            &&& (t == 14 || t == 15) ==> ((d8 | d9) == b) == (q[14] & b == 0)
            &&& (t == 11 || t == 12 || t == 13 || t == 16) ==> ((d8 | d9) == b) == (q[14] & b != 0)
            &&& (t == 11 || t == 12 || t == 13 || t == 14 || t == 15 || t == 16) ==> (d8 | d9 == 0 || d8 | d9 == b)
            &&& t >= 17 ==> f == q
        }),
{
    let f = tunnel_flipped(q, j);
    let t = tunnel_index(j);
    let (y12, y13) = (q[12], q[13]);
    assert(y12 ^ y12 == 0 && y13 ^ y13 == 0 && 0u32 & 0u32 == 0 && (0u32 | 0u32) == 0) by (bit_vector);
    if t < 17 {
        let b = TUNNEL_BITS@[t];
        assert(b == 0x4 || b == 0x8 || b == 0x10 || b == 0x20 || b == 0x400 || b == 0x800 || b == 0x100000 || b == 0x200000
            || b == 0x400000 || b == 0x20000000 || b == 0x40000000 || b == 0x4000 || b == 0x80000 || b == 0x40000
            || b == 0x8000000 || b == 0x10000000 || b == 0x2000) by {
            assert(TUNNEL_BITS@ == seq![
                0x4u32, 0x8, 0x10, 0x20, 0x400, 0x800, 0x100000, 0x200000, 0x400000, 0x20000000, 0x40000000,
                0x4000, 0x80000, 0x40000, 0x8000000, 0x10000000, 0x2000,
            ]);
        }
        lemma_one_bit(q[14], b);
        lemma_f_flip(q[14], q[13], q[12], b);
        let (x12, x13) = (q[12], q[13]);
        assert((x12 ^ b) ^ x12 == b && x12 ^ x12 == 0 && b & 0 == 0 && 0 & b == 0 && (b | 0) == b && (0 | b) == b
            && (b | 0) & !b == 0 && (0u32 | 0u32) & !b == 0 && (0u32 | 0u32) == 0 && b & !b == 0 && (0u32 | 0u32) != b) by (bit_vector)
            requires b != 0;
        assert((x13 ^ b) ^ x13 == b && x13 ^ x13 == 0) by (bit_vector);
    }
}

/// Flips one bit of `Q[8]` or `Q[9]` chosen by the lowest set bit of `j`,
/// the walk through the tunnels of the second block.
fn tunnel_flip(q_cond_nodes: &mut [u32; 68], j: u32)
    ensures
        final(q_cond_nodes)@ == tunnel_flipped(old(q_cond_nodes)@, j),
{
    if (j & 0x1) != 0 {
        if (q_cond_nodes[14] & 0x4) == 0 {
            q_cond_nodes[13] = q_cond_nodes[13] ^ 0x4;
        } else {
            q_cond_nodes[12] = q_cond_nodes[12] ^ 0x4;
        }
    } else if (j & 0x2) != 0 {
        if (q_cond_nodes[14] & 0x8) == 0 {
            q_cond_nodes[13] = q_cond_nodes[13] ^ 0x8;
        } else {
            q_cond_nodes[12] = q_cond_nodes[12] ^ 0x8;
        }
    } else if (j & 0x4) != 0 {
        if (q_cond_nodes[14] & 0x10) == 0 {
            q_cond_nodes[13] = q_cond_nodes[13] ^ 0x10;
        } else {
            q_cond_nodes[12] = q_cond_nodes[12] ^ 0x10;
        }
    } else if (j & 0x8) != 0 {
        if (q_cond_nodes[14] & 0x20) == 0 {
            q_cond_nodes[13] = q_cond_nodes[13] ^ 0x20;
        } else {
            q_cond_nodes[12] = q_cond_nodes[12] ^ 0x20;
        }
    } else if (j & 0x10) != 0 {
        if (q_cond_nodes[14] & 0x400) == 0 {
            q_cond_nodes[13] = q_cond_nodes[13] ^ 0x400;
        } else {
            q_cond_nodes[12] = q_cond_nodes[12] ^ 0x400;
        }
    } else if (j & 0x20) != 0 {
        if (q_cond_nodes[14] & 0x800) == 0 {
            q_cond_nodes[13] = q_cond_nodes[13] ^ 0x800;
        } else {
            q_cond_nodes[12] = q_cond_nodes[12] ^ 0x800;
        }
    } else if (j & 0x40) != 0 {
        if (q_cond_nodes[14] & 0x100000) == 0 {
            q_cond_nodes[13] = q_cond_nodes[13] ^ 0x100000;
        } else {
            q_cond_nodes[12] = q_cond_nodes[12] ^ 0x100000;
        }
    } else if (j & 0x80) != 0 {
        if (q_cond_nodes[14] & 0x200000) == 0 {
            q_cond_nodes[13] = q_cond_nodes[13] ^ 0x200000;
        } else {
            q_cond_nodes[12] = q_cond_nodes[12] ^ 0x200000;
        }
    } else if (j & 0x100) != 0 {
        if (q_cond_nodes[14] & 0x400000) == 0 {
            q_cond_nodes[13] = q_cond_nodes[13] ^ 0x400000;
        } else {
            q_cond_nodes[12] = q_cond_nodes[12] ^ 0x400000;
        }
    } else if (j & 0x200) != 0 {
        if (q_cond_nodes[14] & 0x20000000) == 0 {
            q_cond_nodes[13] = q_cond_nodes[13] ^ 0x20000000;
        } else {
            q_cond_nodes[12] = q_cond_nodes[12] ^ 0x20000000;
        }
    } else if (j & 0x400) != 0 {
        if (q_cond_nodes[14] & 0x40000000) == 0 {
            q_cond_nodes[13] = q_cond_nodes[13] ^ 0x40000000;
        } else {
            q_cond_nodes[12] = q_cond_nodes[12] ^ 0x40000000;
        }
    } else if (j & 0x800) != 0 {
        if (q_cond_nodes[14] & 0x4000) != 0 {
            q_cond_nodes[12] = q_cond_nodes[12] ^ 0x4000;
        }
    } else if (j & 0x1000) != 0 {
        if (q_cond_nodes[14] & 0x80000) != 0 {
            q_cond_nodes[12] = q_cond_nodes[12] ^ 0x80000;
        }
    } else if (j & 0x2000) != 0 {
        if (q_cond_nodes[14] & 0x40000) != 0 {
            q_cond_nodes[12] = q_cond_nodes[12] ^ 0x40000;
        }
    } else if (j & 0x4000) != 0 {
        if (q_cond_nodes[14] & 0x8000000) == 0 {
            q_cond_nodes[13] = q_cond_nodes[13] ^ 0x8000000;
        }
    } else if (j & 0x8000) != 0 {
        if (q_cond_nodes[14] & 0x10000000) == 0 {
            q_cond_nodes[13] = q_cond_nodes[13] ^ 0x10000000;
        }
    } else if (j & 0x10000) != 0 {
        if (q_cond_nodes[14] & 0x2000) != 0 {
            q_cond_nodes[12] = q_cond_nodes[12] ^ 0x2000;
        }
    }
}

/// `x` with the bit `mask` set as it is in `src` (`clear` is the complement of `mask`).
pub open spec fn copy_bit(x: u32, src: u32, mask: u32, clear: u32) -> u32 {
    if src & mask == 0 {
        x & clear
    } else {
        x | mask
    }
}

/// The values `Q[7] .. Q[10]` that a draw makes of the words `w0 .. w3`
/// under their conditions, given `Q[6] = q6`.
pub open spec fn drawn_q7_q10(q6: u32, w0: u32, w1: u32, w2: u32, w3: u32) -> (u32, u32, u32, u32) {
    let a = copy_bit((w0 & 0xe47efffe) | 0x843283c0, q6, 0x2, 0xfffffffd);
    let b = copy_bit((w1 & 0xfc7d7dfd) | 0x9c0101c1, a, 0x1000, 0xffffefff);
    let c = (w2 & 0xfffbeffc) | 0x878383c0;
    let d = copy_bit(
        copy_bit(copy_bit((w3 & 0xfffdefff) | 0x800583c3, c, 0x80000, 0xfff7ffff), c, 0x4000, 0xffffbfff),
        c,
        0x2000,
        0xffffdfff,
    );
    if q6 & 0x80000000 == 0 {
        (a & 0x7fffffff, b & 0x7fffffff, c & 0x7fffffff, d & 0x7fffffff)
    } else {
        (a, b, c, d)
    }
}

/// `Q[11]` (computed from a draw) meets its conditions.
pub open spec fn q11_fits(q11: u32, q10: u32) -> bool {
    (q11 & 0xfff81fff) == q11 && (q11 | 0x00081080) == q11 && ((q10 ^ q11) & 0xff000000) == 0
}

/// Whatever words are drawn, the values `Q[7] .. Q[10]` a draw makes meet
/// their bit conditions: `Q[7]` takes bit 1 of `Q[6]`, `Q[8]` bit 12 of `Q[7]`,
/// `Q[10]` bits 19, 14 and 13 of `Q[9]`; all four take bit 31 of `Q[6]`; the
/// bits the conditions fix are set or clear as they ask, and every other bit
/// is the drawn word's.
pub proof fn lemma_drawn_q7_q10_conditions(q6: u32, w0: u32, w1: u32, w2: u32, w3: u32)
    ensures
        ({
            let d = drawn_q7_q10(q6, w0, w1, w2, w3);
            &&& bit_of(d.0, 1) == bit_of(q6, 1)
            &&& bit_of(d.1, 12) == bit_of(d.0, 12)
            &&& bit_of(d.3, 19) == bit_of(d.2, 19)
            &&& bit_of(d.3, 14) == bit_of(d.2, 14)
            &&& bit_of(d.3, 13) == bit_of(d.2, 13)
            &&& bit_of(d.0, 31) == bit_of(q6, 31) && bit_of(d.1, 31) == bit_of(q6, 31)
            &&& bit_of(d.2, 31) == bit_of(q6, 31) && bit_of(d.3, 31) == bit_of(q6, 31)
            &&& d.0 & 0x043283c0 == 0x043283c0 && d.0 & !0xe47efffeu32 & !0x843283c0u32 == 0
            &&& d.1 & 0x1c0101c1 == 0x1c0101c1 && d.1 & !0xfc7d7dfdu32 & !0x9c0101c1u32 == 0
            &&& d.2 & 0x078383c0 == 0x078383c0 && d.2 & !0xfffbeffcu32 & !0x878383c0u32 == 0
            &&& d.3 & 0x000583c3 == 0x000583c3 && d.3 & !0xfffdefffu32 & !0x800583c3u32 == 0
            &&& (d.0 ^ w0) & 0x604c7c3c == 0
            &&& (d.1 ^ w1) & 0x607c6c3c == 0
            &&& (d.2 ^ w2) & 0x78786c3c == 0
            &&& (d.3 ^ w3) & 0x7ff00c3c == 0
        }),
{
    let a1 = (w0 & 0xe47efffe) | 0x843283c0;
    let a2 = if q6 & 0x2 == 0 { a1 & 0xfffffffd } else { a1 | 0x2 };
    let b1 = (w1 & 0xfc7d7dfd) | 0x9c0101c1;
    let b2 = if a2 & 0x1000 == 0 { b1 & 0xffffefff } else { b1 | 0x1000 };
    let c1 = (w2 & 0xfffbeffc) | 0x878383c0;
    let e1 = (w3 & 0xfffdefff) | 0x800583c3;
    let e2 = if c1 & 0x80000 == 0 { e1 & 0xfff7ffff } else { e1 | 0x80000 };
    let e3 = if c1 & 0x4000 == 0 { e2 & 0xffffbfff } else { e2 | 0x4000 };
    let e4 = if c1 & 0x2000 == 0 { e3 & 0xffffdfff } else { e3 | 0x2000 };
    let d = drawn_q7_q10(q6, w0, w1, w2, w3);
    let lo = q6 & 0x80000000 == 0;
    let (a, b, c, e) = if lo {
        (a2 & 0x7fffffff, b2 & 0x7fffffff, c1 & 0x7fffffff, e4 & 0x7fffffff)
    } else {
        (a2, b2, c1, e4)
    };
    assert(d == (a, b, c, e));
    assert({
        &&& (a >> 1) & 1 == (q6 >> 1) & 1
        &&& (b >> 12) & 1 == (a >> 12) & 1
        &&& (e >> 19) & 1 == (c >> 19) & 1
        &&& (e >> 14) & 1 == (c >> 14) & 1
        &&& (e >> 13) & 1 == (c >> 13) & 1
        &&& (a >> 31) & 1 == (q6 >> 31) & 1 && (b >> 31) & 1 == (q6 >> 31) & 1
        &&& (c >> 31) & 1 == (q6 >> 31) & 1 && (e >> 31) & 1 == (q6 >> 31) & 1
        &&& a & 0x043283c0 == 0x043283c0 && a & !0xe47efffeu32 & !0x843283c0u32 == 0
        &&& b & 0x1c0101c1 == 0x1c0101c1 && b & !0xfc7d7dfdu32 & !0x9c0101c1u32 == 0
        &&& c & 0x078383c0 == 0x078383c0 && c & !0xfffbeffcu32 & !0x878383c0u32 == 0
        &&& e & 0x000583c3 == 0x000583c3 && e & !0xfffdefffu32 & !0x800583c3u32 == 0
        &&& (a ^ w0) & 0x604c7c3c == 0
        &&& (b ^ w1) & 0x607c6c3c == 0
        &&& (c ^ w2) & 0x78786c3c == 0
        &&& (e ^ w3) & 0x7ff00c3c == 0
    }) by (bit_vector)
        requires
            a1 == (w0 & 0xe47efffe) | 0x843283c0,
            a2 == if q6 & 0x2 == 0 { a1 & 0xfffffffd } else { a1 | 0x2 },
            b1 == (w1 & 0xfc7d7dfd) | 0x9c0101c1,
            b2 == if a2 & 0x1000 == 0 { b1 & 0xffffefff } else { b1 | 0x1000 },
            c1 == (w2 & 0xfffbeffc) | 0x878383c0,
            e1 == (w3 & 0xfffdefff) | 0x800583c3,
            e2 == if c1 & 0x80000 == 0 { e1 & 0xfff7ffff } else { e1 | 0x80000 },
            e3 == if c1 & 0x4000 == 0 { e2 & 0xffffbfff } else { e2 | 0x4000 },
            e4 == if c1 & 0x2000 == 0 { e3 & 0xffffdfff } else { e3 | 0x2000 },
            a == if q6 & 0x80000000 == 0 { a2 & 0x7fffffff } else { a2 },
            b == if q6 & 0x80000000 == 0 { b2 & 0x7fffffff } else { b2 },
            c == if q6 & 0x80000000 == 0 { c1 & 0x7fffffff } else { c1 },
            e == if q6 & 0x80000000 == 0 { e4 & 0x7fffffff } else { e4 },
    ;
}

/// `Q[11]` meets its conditions exactly when bits 13 .. 18 are clear, bits 7,
/// 12 and 19 are set, and bits 24 .. 31 equal those of `Q[10]`.
pub proof fn lemma_q11_fits(q11: u32, q10: u32)
    ensures
        q11_fits(q11, q10) == ((forall|k: u32| 13 <= k <= 18 ==> #[trigger] bit_of(q11, k) == 0) && bit_of(q11, 7) == 1
            && bit_of(q11, 12) == 1 && bit_of(q11, 19) == 1 && (forall|k: u32|
            24 <= k < 32 ==> #[trigger] bit_of(q11, k) == bit_of(q10, k))),
{
    let lhs = q11_fits(q11, q10);
    assert(lhs == ((q11 & 0xfff81fff) == q11 && (q11 | 0x00081080) == q11 && ((q10 ^ q11) & 0xff000000) == 0));
    assert(((q11 & 0xfff81fff) == q11) == ((q11 >> 13) & 1 == 0 && (q11 >> 14) & 1 == 0 && (q11 >> 15) & 1 == 0
        && (q11 >> 16) & 1 == 0 && (q11 >> 17) & 1 == 0 && (q11 >> 18) & 1 == 0)) by (bit_vector);
    assert(((q11 | 0x00081080) == q11) == ((q11 >> 7) & 1 == 1 && (q11 >> 12) & 1 == 1 && (q11 >> 19) & 1 == 1))
        by (bit_vector);
    assert((((q10 ^ q11) & 0xff000000) == 0) == ((q11 >> 24) & 1 == (q10 >> 24) & 1 && (q11 >> 25) & 1 == (q10 >> 25)
        & 1 && (q11 >> 26) & 1 == (q10 >> 26) & 1 && (q11 >> 27) & 1 == (q10 >> 27) & 1 && (q11 >> 28) & 1 == (q10
        >> 28) & 1 && (q11 >> 29) & 1 == (q10 >> 29) & 1 && (q11 >> 30) & 1 == (q10 >> 30) & 1 && (q11 >> 31) & 1
        == (q10 >> 31) & 1)) by (bit_vector);
    if forall|k: u32| 13 <= k <= 18 ==> #[trigger] bit_of(q11, k) == 0 {
        assert(bit_of(q11, 13) == 0 && bit_of(q11, 14) == 0 && bit_of(q11, 15) == 0 && bit_of(q11, 16) == 0
            && bit_of(q11, 17) == 0 && bit_of(q11, 18) == 0);
    }
    if forall|k: u32| 24 <= k < 32 ==> #[trigger] bit_of(q11, k) == bit_of(q10, k) {
        assert(bit_of(q11, 24) == bit_of(q10, 24) && bit_of(q11, 25) == bit_of(q10, 25) && bit_of(q11, 26) == bit_of(
            q10,
            26,
        ) && bit_of(q11, 27) == bit_of(q10, 27) && bit_of(q11, 28) == bit_of(q10, 28) && bit_of(q11, 29) == bit_of(
            q10,
            29,
        ) && bit_of(q11, 30) == bit_of(q10, 30) && bit_of(q11, 31) == bit_of(q10, 31));
    }
    if (q11 & 0xfff81fff) == q11 {
        assert forall|k: u32| 13 <= k <= 18 implies #[trigger] bit_of(q11, k) == 0 by {
            assert(k == 13 || k == 14 || k == 15 || k == 16 || k == 17 || k == 18);
        }
    }
    if ((q10 ^ q11) & 0xff000000) == 0 {
        assert forall|k: u32| 24 <= k < 32 implies #[trigger] bit_of(q11, k) == bit_of(q10, k) by {
            assert(k == 24 || k == 25 || k == 26 || k == 27 || k == 28 || k == 29 || k == 30 || k == 31);
        }
    }
}

/// The table after a draw of `Q[7] .. Q[10]` from the words `w`, with
/// `Q[11]` computed from them.
pub open spec fn after_draw(q: Seq<u32>, m: Seq<u32>, w: Seq<u32>) -> Seq<u32> {
    let d = drawn_q7_q10(q[10], w[0], w[1], w[2], w[3]);
    q.update(11, d.0).update(12, d.1).update(13, d.2).update(14, d.3).update(
        15,
        md5_step(11, d.3, d.2, d.1, d.0, m[11]),
    )
}

/// One draw of `Q[7] .. Q[10]` from the words `w`: `Q[11]` is computed from
/// them, and where it meets its conditions (the result) words 7 .. 16 are
/// recomputed to produce the values and steps 0 .. 21 of both computations
/// are run again.
pub fn q7_q10_attempt(
    m_block: &mut [u32; 16],
    m_prime_block: &mut [u32; 16],
    q_cond_nodes: &mut [u32; 68],
    q_prime: &mut [u32; 68],
    w: [u32; 4],
) -> (hit: bool)
    requires
        old(m_prime_block)@ == second_block_prime(old(m_block)@),
    ensures
        ({
            let q1 = after_draw(old(q_cond_nodes)@, old(m_block)@, w@);
            &&& hit == q11_fits(q1[15], q1[14])
            &&& final(m_prime_block)@ == second_block_prime(final(m_block)@)
            &&& !hit ==> final(q_cond_nodes)@ == q1 && *final(q_prime) == *old(q_prime) && *final(m_block) == *old(m_block)
            &&& hit ==> forall|k: int| 0 <= k < 7 ==> #[trigger] final(m_block)[k] == old(m_block)[k]
            &&& hit ==> forall|k: int|
                7 <= k < 16 ==> #[trigger] final(m_block)[k] == unstep(k, q1[k + 4], q1[k + 3], q1[k + 2], q1[k + 1], q1[k])
            &&& hit ==> holds_steps(final(q_cond_nodes)@, q1.subrange(0, 4), final(m_block)@, 0, 21)
                && same_outside(final(q_cond_nodes)@, q1, 0, 21)
            &&& hit ==> holds_steps(final(q_prime)@, old(q_prime)@.subrange(0, 4), final(m_prime_block)@, 0, 21)
                && same_outside(final(q_prime)@, old(q_prime)@, 0, 21)
        }),
{
    let ghost q0 = q_cond_nodes@;
    q_cond_nodes[11] = (w[0] & 0xe47efffe) | 0x843283c0;
    if (q_cond_nodes[10] & 0x2) == 0 {
        q_cond_nodes[11] = q_cond_nodes[11] & 0xfffffffd;
    } else {
        q_cond_nodes[11] = q_cond_nodes[11] | 0x2;
    }
    q_cond_nodes[12] = (w[1] & 0xfc7d7dfd) | 0x9c0101c1;
    if (q_cond_nodes[11] & 0x1000) == 0 {
        q_cond_nodes[12] = q_cond_nodes[12] & 0xffffefff;
    } else {
        q_cond_nodes[12] = q_cond_nodes[12] | 0x1000;
    }
    q_cond_nodes[13] = (w[2] & 0xfffbeffc) | 0x878383c0;
    q_cond_nodes[14] = (w[3] & 0xfffdefff) | 0x800583c3;
    if (q_cond_nodes[13] & 0x80000) == 0 {
        q_cond_nodes[14] = q_cond_nodes[14] & 0xfff7ffff;
    } else {
        q_cond_nodes[14] = q_cond_nodes[14] | 0x80000;
    }
    if (q_cond_nodes[13] & 0x4000) == 0 {
        q_cond_nodes[14] = q_cond_nodes[14] & 0xffffbfff;
    } else {
        q_cond_nodes[14] = q_cond_nodes[14] | 0x4000;
    }
    if (q_cond_nodes[13] & 0x2000) == 0 {
        q_cond_nodes[14] = q_cond_nodes[14] & 0xffffdfff;
    } else {
        q_cond_nodes[14] = q_cond_nodes[14] | 0x2000;
    }
    if (q_cond_nodes[10] & 0x80000000) == 0 {
        q_cond_nodes[11] = q_cond_nodes[11] & 0x7fffffff;
        q_cond_nodes[12] = q_cond_nodes[12] & 0x7fffffff;
        q_cond_nodes[13] = q_cond_nodes[13] & 0x7fffffff;
        q_cond_nodes[14] = q_cond_nodes[14] & 0x7fffffff;
    }
    let f = phi(q_cond_nodes, 15);
    let t = f.wrapping_add(0x895cd7be).wrapping_add(m_block[11]).wrapping_add(q_cond_nodes[11]);
    q_cond_nodes[15] = q_cond_nodes[14].wrapping_add(md5_rl(t, 22));
    let ghost q1 = after_draw(q0, m_block@, w@);
    proof {
        let d = drawn_q7_q10(q0[10], w[0], w[1], w[2], w[3]);
        assert(q_cond_nodes[11] == d.0 && q_cond_nodes[12] == d.1 && q_cond_nodes[13] == d.2 && q_cond_nodes[14] == d.3);
        assert(crate::md5::t_of(11) == 0x895cd7be && crate::md5::s_of(11) == 22);
        reveal(md5_step);
        assert(q_cond_nodes[15] == md5_step(11, d.3, d.2, d.1, d.0, m_block[11]));
        assert(q_cond_nodes@ =~= q1);
    }
    let hit = (q_cond_nodes[15] & 0xfff81fff) == q_cond_nodes[15] && (q_cond_nodes[15] | 0x00081080) == q_cond_nodes[15]
        && ((q_cond_nodes[14] ^ q_cond_nodes[15]) & 0xff000000) == 0;
    if hit {
        recompute_words(m_block, m_prime_block, q_cond_nodes, 7, 16);
        md5_20_steps(m_block, q_cond_nodes, m_prime_block, q_prime);
    }
    hit
}

/// Draws `Q[7] .. Q[10]` under their conditions until `Q[15]` and `Q[20]`
/// come out right, recomputing words 7 .. 16 and steps 0 .. 21 on each hit.
/// `false` only when `SEARCH_LIMIT` draws were not enough.
pub fn draw_q7_q10(
    m_block: &mut [u32; 16],
    m_prime_block: &mut [u32; 16],
    q_cond_nodes: &mut [u32; 68],
    q_prime: &mut [u32; 68],
) -> (found: bool)
    requires
        old(m_prime_block)@ == second_block_prime(old(m_block)@),
    ensures
        final(q_cond_nodes)@.subrange(0, 4) == old(q_cond_nodes)@.subrange(0, 4),
        final(q_prime)@.subrange(0, 4) == old(q_prime)@.subrange(0, 4),
        final(m_prime_block)@ == second_block_prime(final(m_block)@),
        forall|k: int| 0 <= k < 7 ==> #[trigger] final(m_block)[k] == old(m_block)[k],
        found ==> (final(q_cond_nodes)[24] ^ final(q_prime)[24]) == 0x80000000u32,
        found ==> (final(q_cond_nodes)[19] ^ final(q_prime)[19]) == 0xa0000000u32,
{
    let ghost init = q_cond_nodes@.subrange(0, 4);
    let ghost initp = q_prime@.subrange(0, 4);
    let mut tries: u64 = 0;
    while ((q_cond_nodes[24] ^ q_prime[24]) != 0x80000000) || ((q_cond_nodes[19] ^ q_prime[19]) != 0xa0000000)
        invariant
            init == old(q_cond_nodes)@.subrange(0, 4),
            initp == old(q_prime)@.subrange(0, 4),
            q_cond_nodes@.subrange(0, 4) == init,
            q_prime@.subrange(0, 4) == initp,
            m_prime_block@ == second_block_prime(m_block@),
            forall|k: int| 0 <= k < 7 ==> #[trigger] m_block[k] == old(m_block)[k],
        decreases SEARCH_LIMIT - tries,
    {
        if tries == SEARCH_LIMIT {
            return false;
        }
        tries += 1;
        let w = [random_word(), random_word(), random_word(), random_word()];
        q7_q10_attempt(m_block, m_prime_block, q_cond_nodes, q_prime, w);
        assert(q_cond_nodes@.subrange(0, 4) =~= init);
        assert(q_prime@.subrange(0, 4) =~= initp);
    }
    true
}

/// Two full computations whose final values, each added to its own chaining
/// words, agree give the same compression.
proof fn lemma_xor_zero(a: u32, b: u32)
    by (bit_vector)
    ensures
        ((a ^ b) == 0u32) == (a == b),
{
}

proof fn lemma_meeting_values(q: Seq<u32>, qp: Seq<u32>, m: Seq<u32>, mp: Seq<u32>)
    requires
        q.len() == 68,
        qp.len() == 68,
        holds_steps(q, q.subrange(0, 4), m, 0, 64),
        holds_steps(qp, qp.subrange(0, 4), mp, 0, 64),
    ensures
        (md5_compress(init_cv(q.subrange(0, 4)), m) == md5_compress(init_cv(qp.subrange(0, 4)), mp)) == (
        q[64].wrapping_add(q[0]) == qp[64].wrapping_add(qp[0]) && q[65].wrapping_add(q[1]) == qp[65].wrapping_add(qp[1])
            && q[66].wrapping_add(q[2]) == qp[66].wrapping_add(qp[2]) && q[67].wrapping_add(q[3]) == qp[67].wrapping_add(
            qp[3],
        )),
{
    let init = q.subrange(0, 4);
    let initp = qp.subrange(0, 4);
    lemma_init_cv(init, init);
    lemma_init_cv(initp, initp);
    assert(q[60int + 4] == md5_q(init, m, 60));
    assert(q[61int + 4] == md5_q(init, m, 61));
    assert(q[62int + 4] == md5_q(init, m, 62));
    assert(q[63int + 4] == md5_q(init, m, 63));
    assert(qp[60int + 4] == md5_q(initp, mp, 60));
    assert(qp[61int + 4] == md5_q(initp, mp, 61));
    assert(qp[62int + 4] == md5_q(initp, mp, 62));
    assert(qp[63int + 4] == md5_q(initp, mp, 63));
    let c = md5_compress(init_cv(init), m);
    let cp = md5_compress(init_cv(initp), mp);
    assert(c =~= seq![
        q[64].wrapping_add(q[0]),
        q[67].wrapping_add(q[3]),
        q[66].wrapping_add(q[2]),
        q[65].wrapping_add(q[1]),
    ]);
    assert(cp =~= seq![
        qp[64].wrapping_add(qp[0]),
        qp[67].wrapping_add(qp[3]),
        qp[66].wrapping_add(qp[2]),
        qp[65].wrapping_add(qp[1]),
    ]);
    if c == cp {
        assert(c[0] == cp[0] && c[1] == cp[1] && c[2] == cp[2] && c[3] == cp[3]);
    }
}

/// One candidate of the tunnel walk: flips the bit chosen by `j`, recomputes
/// words 8 .. 14 and all 64 steps of both computations; `true` exactly when
/// the XOR differences all show up and the two chaining values meet.
pub fn tunnel_candidate(
    m_block: &mut [u32; 16],
    m_prime_block: &mut [u32; 16],
    q_cond_nodes: &mut [u32; 68],
    q_prime: &mut [u32; 68],
    j: u32,
) -> (r: bool)
    requires
        old(m_prime_block)@ == second_block_prime(old(m_block)@),
    ensures
        final(q_cond_nodes)@.subrange(0, 4) == old(q_cond_nodes)@.subrange(0, 4),
        final(q_prime)@.subrange(0, 4) == old(q_prime)@.subrange(0, 4),
        final(m_prime_block)@ == second_block_prime(final(m_block)@),
        forall|k: int| (0 <= k < 8 || 14 <= k < 16) ==> #[trigger] final(m_block)[k] == old(m_block)[k],
        forall|k: int|
            8 <= k < 14 ==> #[trigger] final(m_block)[k] == unstep(
                k,
                tunnel_flipped(old(q_cond_nodes)@, j)[k + 4],
                tunnel_flipped(old(q_cond_nodes)@, j)[k + 3],
                tunnel_flipped(old(q_cond_nodes)@, j)[k + 2],
                tunnel_flipped(old(q_cond_nodes)@, j)[k + 1],
                tunnel_flipped(old(q_cond_nodes)@, j)[k],
            ),
        r ==> holds_steps(final(q_cond_nodes)@, old(q_cond_nodes)@.subrange(0, 4), final(m_block)@, 0, 64),
        r ==> holds_steps(final(q_prime)@, old(q_prime)@.subrange(0, 4), final(m_prime_block)@, 0, 64),
        r == (xor_path(
            old(q_cond_nodes)@.subrange(0, 4),
            old(q_prime)@.subrange(0, 4),
            final(m_block)@,
            final(m_prime_block)@,
            21,
            64,
        ) && md5_compress(init_cv(old(q_cond_nodes)@.subrange(0, 4)), final(m_block)@) == md5_compress(
            init_cv(old(q_prime)@.subrange(0, 4)),
            final(m_prime_block)@,
        )),
{
    let ghost init = q_cond_nodes@.subrange(0, 4);
    let ghost initp = q_prime@.subrange(0, 4);
    tunnel_flip(q_cond_nodes, j);
    assert(q_cond_nodes@.subrange(0, 4) =~= init);
    recompute_words(m_block, m_prime_block, q_cond_nodes, 8, 14);
    md5_20_steps(m_block, q_cond_nodes, m_prime_block, q_prime);
    assert(q_cond_nodes@.subrange(0, 4) =~= init);
    assert(q_prime@.subrange(0, 4) =~= initp);
    let truth = finish_steps(m_block, m_prime_block, q_cond_nodes, q_prime);
    if truth {
        let val64 = q_cond_nodes[64].wrapping_add(q_cond_nodes[0]);
        let val65 = q_cond_nodes[65].wrapping_add(q_cond_nodes[1]);
        let val66 = q_cond_nodes[66].wrapping_add(q_cond_nodes[2]);
        let val67 = q_cond_nodes[67].wrapping_add(q_cond_nodes[3]);
        let val164 = q_prime[64].wrapping_add(q_prime[0]);
        let val165 = q_prime[65].wrapping_add(q_prime[1]);
        let val166 = q_prime[66].wrapping_add(q_prime[2]);
        let val167 = q_prime[67].wrapping_add(q_prime[3]);
        proof {
            lemma_xor_zero(val64, val164);
            lemma_xor_zero(val65, val165);
            lemma_xor_zero(val66, val166);
            lemma_xor_zero(val67, val167);
            lemma_meeting_values(q_cond_nodes@, q_prime@, m_block@, m_prime_block@);
        }
        if (val64 ^ val164) == 0 && (val65 ^ val165) == 0 && (val66 ^ val166) == 0 && (val67
            ^ val167) == 0 {
            return true;
        }
    }
    false
}

/// The multi-message stage of the second block: with `Q[0] .. Q[6]` fixed,
/// draws `Q[7] .. Q[10]` and walks the tunnels in `Q[8], Q[9]`, testing each
/// candidate pair through all 64 steps. `true` exactly when it stops on a pair
/// whose two compressions give the same chaining value.
pub fn multi_msg(
    m_block: &mut [u32; 16],
    m_prime_block: &mut [u32; 16],
    q_cond_nodes: &mut [u32; 68],
    q_prime: &mut [u32; 68],
) -> (r: bool)
    requires
        old(m_prime_block)@ == second_block_prime(old(m_block)@),
    ensures
        final(q_cond_nodes)@.subrange(0, 4) == old(q_cond_nodes)@.subrange(0, 4),
        final(q_prime)@.subrange(0, 4) == old(q_prime)@.subrange(0, 4),
        final(m_prime_block)@ == second_block_prime(final(m_block)@),
        r ==> holds_steps(final(q_cond_nodes)@, old(q_cond_nodes)@.subrange(0, 4), final(m_block)@, 0, 64),
        r ==> holds_steps(final(q_prime)@, old(q_prime)@.subrange(0, 4), final(m_prime_block)@, 0, 64),
        r ==> md5_compress(init_cv(old(q_cond_nodes)@.subrange(0, 4)), final(m_block)@) == md5_compress(
            init_cv(old(q_prime)@.subrange(0, 4)),
            final(m_prime_block)@,
        ),
        r ==> xor_path(
            old(q_cond_nodes)@.subrange(0, 4),
            old(q_prime)@.subrange(0, 4),
            final(m_block)@,
            final(m_prime_block)@,
            21,
            64,
        ),
        forall|k: int| 0 <= k < 7 ==> #[trigger] final(m_block)[k] == old(m_block)[k],
{
    let ghost init = q_cond_nodes@.subrange(0, 4);
    let ghost initp = q_prime@.subrange(0, 4);
    for _round in 1..0x1000u32
        invariant
            init == old(q_cond_nodes)@.subrange(0, 4),
            initp == old(q_prime)@.subrange(0, 4),
            q_cond_nodes@.subrange(0, 4) == init,
            q_prime@.subrange(0, 4) == initp,
            m_prime_block@ == second_block_prime(m_block@),
            forall|k: int| 0 <= k < 7 ==> #[trigger] m_block[k] == old(m_block)[k],
    {
        q_prime[19] = 0;
        assert(q_prime@.subrange(0, 4) =~= initp);
        if !draw_q7_q10(m_block, m_prime_block, q_cond_nodes, q_prime) {
            return false;
        }
        for j in 0..0x20000u32
            invariant
                init == old(q_cond_nodes)@.subrange(0, 4),
                initp == old(q_prime)@.subrange(0, 4),
                q_cond_nodes@.subrange(0, 4) == init,
                q_prime@.subrange(0, 4) == initp,
                m_prime_block@ == second_block_prime(m_block@),
                forall|k: int| 0 <= k < 7 ==> #[trigger] m_block[k] == old(m_block)[k],
        {
            if tunnel_candidate(m_block, m_prime_block, q_cond_nodes, q_prime, j) {
                return true;
            }
        }
    }
    false
}


pub proof fn lemma_cond_usable_prefix(cond: [[u32; 3]; 309], start: int, end: int, end2: int)
    requires
        cond_usable(cond, start, end),
        start < end2 <= end,
    ensures
        cond_usable(cond, start, end2),
{
    lemma_run_end_monotone(cond, end2 - 1, end - 1);
}

/// Whether the search for the second block can use the table: the exact
/// test of `cond_usable(cond, 0, 286)`.
pub fn second_table_usable(cond: &[[u32; 3]; 309]) -> (r: bool)
    ensures
        r == cond_usable(*cond, 0, 286),
{
    let g = cond[285][0];
    let mut e: usize = 286;
    while e < 309
        invariant
            286 <= e <= 309,
            g == cond[285][0],
            forall|k: int| 285 <= k < e ==> #[trigger] cond[k][0] == g,
        ensures
            286 <= e <= 309,
            forall|k: int| 285 <= k < e ==> #[trigger] cond[k][0] == g,
            e == 309 || cond[e as int][0] != g,
        decreases 309 - e,
    {
        if cond[e][0] != g {
            break;
        }
        e += 1;
    }
    proof {
        lemma_run_end(*cond, 285);
        let re = run_end(*cond, 285);
        if e < re {
            assert(cond[e as int][0] == cond[285][0]);
        }
        if re < e {
            assert(cond[re][0] == g);
        }
        assert(e == re);
    }
    if e >= 309 {
        return false;
    }
    let mut k: usize = 0;
    while k < e
        invariant
            k <= e,
            e == run_end(*cond, 285),
            e < 309,
            forall|j: int| 0 <= j < k ==> #[trigger] entry_valid(cond[j]),
        decreases e - k,
    {
        let row = cond[k];
        if !(row[0] < 64 && (row[2] > 4 || (1 <= row[1] && row[1] <= 32))) {
            assert(!entry_valid(cond[k as int]));
            return false;
        }
        k += 1;
    }
    true
}

/// `q` with `Q[0] .. Q[15]` (positions 4 .. 20) replaced by the words `w`.
pub open spec fn with_first_values(q: Seq<u32>, w: Seq<u32>) -> Seq<u32> {
    Seq::new(68, |k: int| if 4 <= k < 20 { w[k - 4] } else { q[k] })
}

/// The message words that make the steps produce `Q[0] .. Q[15]` of `q`.
pub open spec fn words_of(q: Seq<u32>) -> Seq<u32> {
    Seq::new(16, |k: int| unstep(k, q[k + 4], q[k + 3], q[k + 2], q[k + 1], q[k]))
}

/// The words carry the bits of the message difference the path needs: bit 31
/// in word 4 or 14, and bit 15 in word 11.
pub open spec fn difference_bits(m: Seq<u32>) -> bool {
    ((m[4] | m[14]) & 0x80000000) != 0 && (m[11] & 0x8000) != 0
}

/// The difference-bit test asks bit 31 of word 4 or of word 14, and bit 15
/// of word 11.
pub proof fn lemma_difference_bits(m: Seq<u32>)
    ensures
        difference_bits(m) == ((bit_of(m[4], 31) == 1 || bit_of(m[14], 31) == 1) && bit_of(m[11], 15) == 1),
{
    let (a, b, c) = (m[4], m[14], m[11]);
    assert((((a | b) & 0x80000000) != 0) == ((a >> 31) & 1 == 1 || (b >> 31) & 1 == 1)) by (bit_vector);
    assert(((c & 0x8000) != 0) == ((c >> 15) & 1 == 1)) by (bit_vector);
}

/// One draw of `Q[0] .. Q[15]` from the words `w`: the conditions of entries
/// 0 .. 274 are forced on them, the words recomputed from the values, and when
/// the words carry the difference bits steps 0 .. 21 of both computations are
/// run. `true` exactly when the steps were run, `Q[15]` of the two differs by
/// the XOR the path asks for and all of those conditions hold.
pub fn q0_q15_attempt(
    m_block: &mut [u32; 16],
    m_prime_block: &mut [u32; 16],
    q_cond_nodes: &mut [u32; 68],
    q_prime: &mut [u32; 68],
    cond: [[u32; 3]; 309],
    w: [u32; 16],
) -> (done: bool)
    requires
        cond_usable(cond, 0, 274),
    ensures
        ({
            let q1 = forced(with_first_values(old(q_cond_nodes)@, w@), cond, 0, 274);
            &&& q1.subrange(0, 4) == old(q_cond_nodes)@.subrange(0, 4)
            &&& final(m_block)@ == words_of(q1)
            &&& final(m_prime_block)@ == second_block_prime(final(m_block)@)
            &&& final(q_cond_nodes)@.subrange(0, 4) == old(q_cond_nodes)@.subrange(0, 4)
            &&& final(q_prime)@.subrange(0, 4) == old(q_prime)@.subrange(0, 4)
            &&& ((bit_of(final(m_block)[4], 31) == 1 || bit_of(final(m_block)[14], 31) == 1) && bit_of(
                final(m_block)[11],
                15,
            ) == 1) == difference_bits(final(m_block)@)
            &&& !difference_bits(final(m_block)@) ==> final(q_cond_nodes)@ == q1 && *final(q_prime) == *old(q_prime) && !done
            &&& difference_bits(final(m_block)@) ==> holds_steps(final(q_cond_nodes)@, q1.subrange(0, 4), final(m_block)@, 0, 21)
                && same_outside(final(q_cond_nodes)@, q1, 0, 21)
                && holds_steps(final(q_prime)@, old(q_prime)@.subrange(0, 4), final(m_prime_block)@, 0, 21)
                && same_outside(final(q_prime)@, old(q_prime)@, 0, 21)
                && done == ((final(q_cond_nodes)[19] ^ final(q_prime)[19]) == 0xa0000000u32 && conditions_hold(
                cond,
                final(q_cond_nodes)@,
                0,
                274,
            ))
        }),
{
    let ghost q0 = q_cond_nodes@;
    let ghost init = q_cond_nodes@.subrange(0, 4);
    let ghost initp = q_prime@.subrange(0, 4);
    for i in 4..20
        invariant
            forall|k: int| 0 <= k < 68 ==> #[trigger] q_cond_nodes@[k] == (if 4 <= k < i { w@[k - 4] } else { q0[k] }),
    {
        q_cond_nodes[i] = w[i - 4];
    }
    proof {
        assert(q_cond_nodes@ =~= with_first_values(q0, w@));
        assert(q_cond_nodes@.subrange(0, 4) =~= init);
    }
    modif_for_cond(q_cond_nodes, 1, cond);
    let ghost q1 = q_cond_nodes@;
    recalc_0_15(q_cond_nodes, m_block, m_prime_block);
    proof {
        assert(m_block@ =~= words_of(q1));
        assert(q1.subrange(0, 4) =~= q0.subrange(0, 4));
    }
    proof {
        lemma_difference_bits(m_block@);
    }
    let mut done = false;
    if ((m_block[4] | m_block[14]) & 0x80000000) != 0 && (m_block[11] & 0x8000) != 0 {
        md5_20_steps(m_block, q_cond_nodes, m_prime_block, q_prime);
        assert(q_cond_nodes@.subrange(0, 4) =~= init);
        assert(q_prime@.subrange(0, 4) =~= initp);
        if (q_cond_nodes[19] ^ q_prime[19]) == 0xa0000000 {
            if verify_conditions(*q_cond_nodes, 0, 274, cond) {
                done = true;
            }
        }
    }
    done
}

/// One draw of `Q[1]` and `Q[0]` (positions 5 and 4, in that order) from the
/// words `x5`, `x4`: the conditions of entries 0 .. 52 are forced on the
/// values, the words recomputed from them and steps 0 .. 21 of both
/// computations run. `true` exactly when the XOR differences at `Q[15]` and
/// `Q[20]` show up and the conditions of entries 0 .. 286 all hold.
pub fn q0_q1_attempt(
    m_block: &mut [u32; 16],
    m_prime_block: &mut [u32; 16],
    q_cond_nodes: &mut [u32; 68],
    q_prime: &mut [u32; 68],
    cond: [[u32; 3]; 309],
    x5: u32,
    x4: u32,
) -> (done: bool)
    requires
        cond_usable(cond, 0, 286),
        cond_usable(cond, 0, 52),
    ensures
        ({
            let q1 = forced(old(q_cond_nodes)@.update(5, x5).update(4, x4), cond, 0, 52);
            &&& q1.subrange(0, 4) == old(q_cond_nodes)@.subrange(0, 4)
            &&& final(m_block)@ == words_of(q1)
            &&& final(m_prime_block)@ == second_block_prime(final(m_block)@)
            &&& final(q_cond_nodes)@.subrange(0, 4) == old(q_cond_nodes)@.subrange(0, 4)
            &&& final(q_prime)@.subrange(0, 4) == old(q_prime)@.subrange(0, 4)
            &&& holds_steps(final(q_cond_nodes)@, q1.subrange(0, 4), final(m_block)@, 0, 21)
            &&& same_outside(final(q_cond_nodes)@, q1, 0, 21)
            &&& holds_steps(final(q_prime)@, old(q_prime)@.subrange(0, 4), final(m_prime_block)@, 0, 21)
            &&& same_outside(final(q_prime)@, old(q_prime)@, 0, 21)
            &&& done == ((final(q_cond_nodes)[19] ^ final(q_prime)[19]) == 0xa0000000u32 && (final(q_cond_nodes)[24]
                ^ final(q_prime)[24]) == 0x80000000u32 && conditions_hold(cond, final(q_cond_nodes)@, 0, 286))
        }),
{
    let ghost init = q_cond_nodes@.subrange(0, 4);
    let ghost initp = q_prime@.subrange(0, 4);
    q_cond_nodes[5] = x5;
    q_cond_nodes[4] = x4;
    assert(q_cond_nodes@.subrange(0, 4) =~= init);
    modif_for_cond(q_cond_nodes, 2, cond);
    let ghost q1 = q_cond_nodes@;
    recalc_0_15(q_cond_nodes, m_block, m_prime_block);
    proof {
        assert(m_block@ =~= words_of(q1));
        assert(q1.subrange(0, 4) =~= init);
    }
    md5_20_steps(m_block, q_cond_nodes, m_prime_block, q_prime);
    assert(q_cond_nodes@.subrange(0, 4) =~= init);
    assert(q_prime@.subrange(0, 4) =~= initp);
    ((q_cond_nodes[19] ^ q_prime[19]) == 0xa0000000) && ((q_cond_nodes[24] ^ q_prime[24]) == 0x80000000)
        && verify_conditions(*q_cond_nodes, 0, 286, cond)
}

/// Draws `Q[0] .. Q[15]` under the conditions of the entries `0 .. 274` until
/// steps 15 and 20 show their XOR differences and the entries `0 .. 286`
/// hold, the inner choices being redrawn up to `0x10000` times per outer draw.
/// Leaves the message words that produce the values, and the second message.
/// `false` only when `SEARCH_LIMIT` draws were not enough.
fn first_values(
    m_block: &mut [u32; 16],
    m_prime_block: &mut [u32; 16],
    q_cond_nodes: &mut [u32; 68],
    q_prime: &mut [u32; 68],
    cond: [[u32; 3]; 309],
) -> (found: bool)
    requires
        cond_usable(cond, 0, 286),
        cond_usable(cond, 0, 274),
        cond_usable(cond, 0, 52),
    ensures
        final(q_cond_nodes)@.subrange(0, 4) == old(q_cond_nodes)@.subrange(0, 4),
        final(q_prime)@.subrange(0, 4) == old(q_prime)@.subrange(0, 4),
        found ==> final(m_prime_block)@ == second_block_prime(final(m_block)@),
        found ==> conditions_hold(cond, final(q_cond_nodes)@, 0, 286),
        found ==> holds_steps(final(q_cond_nodes)@, old(q_cond_nodes)@.subrange(0, 4), final(m_block)@, 0, 21),
        found ==> (final(q_cond_nodes)[19] ^ final(q_prime)[19]) == 0xa0000000u32,
        found ==> (final(q_cond_nodes)[24] ^ final(q_prime)[24]) == 0x80000000u32,
{
    let ghost init = q_cond_nodes@.subrange(0, 4);
    let ghost initp = q_prime@.subrange(0, 4);
    let mut c = true;

    let mut c_tries: u64 = 0;
    while c
        invariant
            cond_usable(cond, 0, 286),
            cond_usable(cond, 0, 274),
            cond_usable(cond, 0, 52),
            init == old(q_cond_nodes)@.subrange(0, 4),
            initp == old(q_prime)@.subrange(0, 4),
            q_cond_nodes@.subrange(0, 4) == init,
            q_prime@.subrange(0, 4) == initp,
            !c ==> m_prime_block@ == second_block_prime(m_block@),
            !c ==> conditions_hold(cond, q_cond_nodes@, 0, 286),
            !c ==> holds_steps(q_cond_nodes@, init, m_block@, 0, 21),
            !c ==> (q_cond_nodes[19] ^ q_prime[19]) == 0xa0000000u32,
            !c ==> (q_cond_nodes[24] ^ q_prime[24]) == 0x80000000u32,
        decreases SEARCH_LIMIT - c_tries,
    {
        if c_tries == SEARCH_LIMIT {
            return false;
        }
        c_tries += 1;
        let mut b = true;
        let mut b_tries: u64 = 0;
        while b
            invariant
                cond_usable(cond, 0, 274),
                init == old(q_cond_nodes)@.subrange(0, 4),
                initp == old(q_prime)@.subrange(0, 4),
                q_cond_nodes@.subrange(0, 4) == init,
                q_prime@.subrange(0, 4) == initp,
                !b ==> m_prime_block@ == second_block_prime(m_block@),
            decreases SEARCH_LIMIT - b_tries,
        {
            if b_tries == SEARCH_LIMIT {
                return false;
            }
            b_tries += 1;
            let mut w = [0u32; 16];
            for i in 0..16 {
                w[i] = random_word();
            }
            if q0_q15_attempt(m_block, m_prime_block, q_cond_nodes, q_prime, cond, w) {
                b = false;
            }
        }

        b = true;
        let mut number: i32 = 0;
        while b
            invariant
                cond_usable(cond, 0, 286),
                cond_usable(cond, 0, 52),
                init == old(q_cond_nodes)@.subrange(0, 4),
                initp == old(q_prime)@.subrange(0, 4),
                q_cond_nodes@.subrange(0, 4) == init,
                q_prime@.subrange(0, 4) == initp,
                m_prime_block@ == second_block_prime(m_block@),
                0 <= number <= 0x10000,
                b ==> number < 0x10000,
                !c ==> !b,
                !c ==> conditions_hold(cond, q_cond_nodes@, 0, 286),
                !c ==> holds_steps(q_cond_nodes@, init, m_block@, 0, 21),
                !c ==> (q_cond_nodes[19] ^ q_prime[19]) == 0xa0000000u32,
                !c ==> (q_cond_nodes[24] ^ q_prime[24]) == 0x80000000u32,
            decreases 0x10000 - number,
        {
            number += 1;
            let x5 = random_word();
            let x4 = random_word();
            let hit = q0_q1_attempt(m_block, m_prime_block, q_cond_nodes, q_prime, cond, x5, x4);
            if number == 0x10000 {
                b = false;
            }
            if hit {
                c = false;
                b = false;
            }
        }
    }

    true
}

/// The chaining value from which the second message of a second-block pair is
/// compressed: `cv` with the XOR differences the first block leaves behind.
pub open spec fn second_block_cv(cv: Seq<u32>) -> Seq<u32> {
    seq![cv[0] ^ 0x80000000u32, cv[1] ^ 0x82000000u32, cv[2] ^ 0x86000000u32, cv[3] ^ 0x82000000u32]
}

/// The chaining value read off a full computation from `q_init(cv)`.
proof fn lemma_chaining_value(q: Seq<u32>, m: Seq<u32>, cv: Seq<u32>)
    requires
        q.len() == 68,
        cv.len() == 4,
        q.subrange(0, 4) == q_init(cv),
        holds_steps(q, q.subrange(0, 4), m, 0, 64),
    ensures
        md5_compress(cv, m) == seq![
            q[64].wrapping_add(q[0]),
            q[67].wrapping_add(q[3]),
            q[66].wrapping_add(q[2]),
            q[65].wrapping_add(q[1]),
        ],
{
    let init = q.subrange(0, 4);
    assert(q[60int + 4] == md5_q(init, m, 60));
    assert(q[61int + 4] == md5_q(init, m, 61));
    assert(q[62int + 4] == md5_q(init, m, 62));
    assert(q[63int + 4] == md5_q(init, m, 63));
    assert(init[0] == q[0] && init[1] == q[1] && init[2] == q[2] && init[3] == q[3]);
    assert(md5_compress(cv, m) =~= seq![
        q[64].wrapping_add(q[0]),
        q[67].wrapping_add(q[3]),
        q[66].wrapping_add(q[2]),
        q[65].wrapping_add(q[1]),
    ]);
}

/// The values `Q[-4] .. Q[63]` of the compression of `m` from `init`, laid
/// out as the value array holds them.
pub open spec fn q_values(init: Seq<u32>, m: Seq<u32>) -> Seq<u32> {
    Seq::new(68, |k: int| if k < 4 { init[k] } else { md5_q(init, m, k - 4) })
}

/// `Q[0] .. Q[6]` depend on the words 0 .. 6 alone.
proof fn lemma_md5_q_front(init: Seq<u32>, m: Seq<u32>, m2: Seq<u32>, k: int)
    requires
        forall|i: int| 0 <= i < 7 ==> #[trigger] m[i] == m2[i],
        -4 <= k <= 6,
    ensures
        md5_q(init, m, k) == md5_q(init, m2, k),
    decreases k + 4,
{
    if k >= 0 {
        lemma_md5_q_front(init, m, m2, k - 1);
        lemma_md5_q_front(init, m, m2, k - 2);
        lemma_md5_q_front(init, m, m2, k - 3);
        lemma_md5_q_front(init, m, m2, k - 4);
        lemma_smap_range(k);
    }
}

/// The masks of a run on one of `Q[0] .. Q[6]` read the values `q[0 .. 11]` alone.
proof fn lemma_run_masks_front(cond: [[u32; 3]; 309], q: Seq<u32>, q2: Seq<u32>, i: int, k: int)
    requires
        0 <= i < 309,
        cond[i][0] <= 6,
        forall|j: int| 0 <= j < 11 ==> #[trigger] q[j] == q2[j],
    ensures
        run_masks(cond, q, i, k) == run_masks(cond, q2, i, k),
    decreases k - i,
{
    if k > i {
        lemma_run_masks_front(cond, q, q2, i, k - 1);
        let j = cond[i][0] + 4;
        assert(q[j - 1] == q2[j - 1] && q[j - 2] == q2[j - 2]);
    }
}

/// Whether a run on one of `Q[0] .. Q[6]` holds depends on `q[0 .. 11]` alone.
proof fn lemma_run_ok_front(cond: [[u32; 3]; 309], q: Seq<u32>, q2: Seq<u32>, i: int)
    requires
        0 <= i < 309,
        cond[i][0] <= 6,
        forall|j: int| 0 <= j < 11 ==> #[trigger] q[j] == q2[j],
    ensures
        run_ok(cond, q, i) == run_ok(cond, q2, i),
{
    lemma_run_masks_front(cond, q, q2, i, run_end(cond, i));
    let j = cond[i][0] + 4;
    assert(q[j] == q2[j]);
}

/// `(m, mp)` is a second-block pair from the chaining value `cv`, and `cv2`
/// the chaining value both lead to: `m` from `cv` and `mp` (which is
/// `second_block_prime(m)`) from `second_block_cv(cv)` both give `cv2`, steps
/// 21 .. 64 show the XOR differences of `DIFFERENCES`, and the runs of
/// `cond` on `Q[0] .. Q[6]` hold.
pub open spec fn second_pair_found(cond: [[u32; 3]; 309], cv: Seq<u32>, cv2: Seq<u32>, m: Seq<u32>, mp: Seq<u32>) -> bool {
    &&& cv2 == md5_compress(cv, m)
    &&& cv2 == md5_compress(second_block_cv(cv), mp)
    &&& mp == second_block_prime(m)
    &&& xor_path(q_init(cv), q_init(second_block_cv(cv)), m, mp, 21, 64)
    &&& forall|i: int| 0 <= i < 286 && cond[i][0] <= 6 ==> #[trigger] run_ok(cond, q_values(q_init(cv), m), i)
}

/// Searches for the second blocks `(M, M')` of a collision: from the chaining
/// value `cv` the block `M` and from `second_block_cv(cv)` the block `M'` lead
/// to one and the same chaining value, which is returned with them; on the
/// way, steps 21 .. 64 show the XOR differences of `DIFFERENCES`.
/// `None` only when a randomised loop used up `SEARCH_LIMIT` attempts.
pub fn block2(chaining_value: [u32; 4], cond: [[u32; 3]; 309]) -> (r: Option<([u32; 4], [u32; 16], [u32; 16])>)
    requires
        cond_usable(cond, 0, 286),
    ensures
        r matches Some(t) ==> second_pair_found(cond, chaining_value@, t.0@, t.1@, t.2@),
{
    proof {
        lemma_cond_usable_prefix(cond, 0, 286, 274);
        lemma_cond_usable_prefix(cond, 0, 286, 52);
    }
    let mut q_cond_nodes: [u32; 68] = [0; 68];
    let mut q_prime: [u32; 68] = [0; 68];

    q_cond_nodes[0] = chaining_value[0];
    q_cond_nodes[1] = chaining_value[3];
    q_cond_nodes[2] = chaining_value[2];
    q_cond_nodes[3] = chaining_value[1];

    q_prime[0] = q_cond_nodes[0] ^ (0x80000000);
    q_prime[1] = q_cond_nodes[1] ^ (0x82000000);
    q_prime[2] = q_cond_nodes[2] ^ (0x86000000);
    q_prime[3] = q_cond_nodes[3] ^ (0x82000000);

    let ghost init = q_cond_nodes@.subrange(0, 4);
    let ghost initp = q_prime@.subrange(0, 4);
    proof {
        assert(init =~= q_init(chaining_value@));
        assert(initp =~= q_init(second_block_cv(chaining_value@)));
    }

    let mut msg_found = false;
    let mut tries: u64 = 0;
    while !msg_found
        invariant
            cond_usable(cond, 0, 286),
            cond_usable(cond, 0, 274),
            cond_usable(cond, 0, 52),
            init == q_init(chaining_value@),
            initp == q_init(second_block_cv(chaining_value@)),
            q_cond_nodes@.subrange(0, 4) == init,
            q_prime@.subrange(0, 4) == initp,
        decreases SEARCH_LIMIT - tries,
    {
        if tries == SEARCH_LIMIT {
            return None;
        }
        tries += 1;
        let mut m_block: [u32; 16] = [0; 16];
        let mut m_prime_block: [u32; 16] = [0; 16];
        if !first_values(&mut m_block, &mut m_prime_block, &mut q_cond_nodes, &mut q_prime, cond) {
            return None;
        }
        let ghost qf = q_cond_nodes@;
        let ghost mf = m_block@;

        msg_found = multi_msg(&mut m_block, &mut m_prime_block, &mut q_cond_nodes, &mut q_prime);
        if msg_found {
            let cv = [
                q_cond_nodes[64].wrapping_add(q_cond_nodes[0]),
                q_cond_nodes[67].wrapping_add(q_cond_nodes[3]),
                q_cond_nodes[66].wrapping_add(q_cond_nodes[2]),
                q_cond_nodes[65].wrapping_add(q_cond_nodes[1]),
            ];
            proof {
                lemma_chaining_value(q_cond_nodes@, m_block@, chaining_value@);
                assert(cv@ =~= md5_compress(chaining_value@, m_block@));
                let qv = q_values(q_init(chaining_value@), m_block@);
                assert forall|j: int| 0 <= j < 11 implies #[trigger] qv[j] == qf[j] by {
                    if j < 4 {
                        assert(qf.subrange(0, 4)[j] == qf[j]);
                        assert(init[j] == qf[j]);
                    } else {
                        lemma_md5_q_front(init, m_block@, mf, j - 4);
                        assert(qf[(j - 4) + 4] == md5_q(init, mf, j - 4));
                    }
                }
                assert forall|i: int| 0 <= i < 286 && cond[i][0] <= 6 implies #[trigger] run_ok(cond, qv, i) by {
                    assert(run_ok(cond, qf, i));
                    lemma_run_ok_front(cond, qv, qf, i);
                }
            }
            return Some((cv, m_block, m_prime_block));
        }
    }
    None
}

} // verus!
