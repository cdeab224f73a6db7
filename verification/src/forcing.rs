//! Why forcing the second block's conditions makes them hold: on a table
//! sorted by value in which no bit of one value is forced both to 0 and to 1,
//! the values `modif_for_cond` leaves meet every condition
//! `verify_conditions` checks, and forcing again changes nothing.

use vstd::prelude::*;
use crate::bits::bit_of;
use crate::block_2::{
    conditions_hold, cond_usable, entry_masks, entry_valid, forced, lemma_run_end, lemma_run_end_monotone, run_end,
    run_masks, run_ok,
};

verus! {

/// The position of the bit that entry `e` constrains.
pub open spec fn entry_bit(e: [u32; 3]) -> u32 {
    (e[1] - 1) as u32
}

/// The bit value entry `e` asks of the value at `q[j]` (kinds 0 to 4).
pub open spec fn want_bit(e: [u32; 3], q: Seq<u32>, j: int) -> u32 {
    let c = entry_bit(e);
    if e[2] == 0 {
        0
    } else if e[2] == 1 {
        1
    } else if e[2] == 2 {
        bit_of(q[j - 1], c)
    } else if e[2] == 3 {
        bit_of(q[j - 2], c)
    } else {
        (1 - bit_of(q[j - 1], c)) as u32
    }
}

/// Entry `t` holds of `q`: it asks nothing, or its bit has the value it asks for.
pub open spec fn entry_met(cond: [[u32; 3]; 309], q: Seq<u32>, t: int) -> bool {
    let e = cond[t];
    e[2] > 4 || bit_of(q[e[0] + 4], entry_bit(e)) == want_bit(e, q, e[0] + 4)
}

/// Two entries that name the same bit of the value at `q[j]` ask the same
/// bit value of it, read against `q`.
pub open spec fn same_demand(x: [u32; 3], y: [u32; 3], q: Seq<u32>, j: int) -> bool {
    x[1] == y[1] ==> want_bit(x, q, j) == want_bit(y, q, j)
}

/// The entries `start .. end`, with the rest of the run of `end - 1`, are
/// sorted by the value they constrain.
pub open spec fn runs_sorted(cond: [[u32; 3]; 309], start: int, end: int) -> bool {
    let r = run_end(cond, end - 1);
    forall|a: int, b: int| start <= a <= b < r ==> #[trigger] cond[a][0] <= #[trigger] cond[b][0]
}

/// No bit of one value is forced both to 0 and to 1: entries for one value
/// that name the same bit ask the same bit value of it, read against the
/// values `f` (the bits they copy come from earlier values, which forcing
/// has already settled).
pub open spec fn no_conflicts(cond: [[u32; 3]; 309], f: Seq<u32>, start: int, end: int) -> bool {
    let r = run_end(cond, end - 1);
    forall|a: int, b: int|
        start <= a < b < r && cond[a][0] == cond[b][0] && cond[a][2] <= 4 && cond[b][2] <= 4 ==> #[trigger] same_demand(
            cond[a],
            cond[b],
            f,
            cond[a][0] + 4,
        )
}

proof fn lemma_bit_set(x: u32, c: u32, b: u32)
    by (bit_vector)
    requires
        b < 32,
        c < 32,
    ensures
        ((x | (1u32 << c)) >> b) & 1 == if b == c { 1u32 } else { (x >> b) & 1 },
        ((x & !(1u32 << c)) >> b) & 1 == if b == c { 0u32 } else { (x >> b) & 1 },
        (x & (1u32 << c) != 0) == ((x >> c) & 1 == 1u32),
        (x >> b) & 1 <= 1u32,
{
}

proof fn lemma_bit_ops(x: u32, o: u32, z: u32, b: u32)
    by (bit_vector)
    requires
        b < 32,
    ensures
        (((x | o) & z) >> b) & 1 == (((x >> b) & 1) | ((o >> b) & 1)) & ((z >> b) & 1),
        ((x | o) >> b) & 1 == ((x >> b) & 1) | ((o >> b) & 1),
        ((x & z) >> b) & 1 == ((x >> b) & 1) & ((z >> b) & 1),
        (0u32 >> b) & 1 == 0u32,
        (0xffff_ffffu32 >> b) & 1 == 1u32,
{
}

proof fn lemma_bits_equal(x: u32, y: u32)
    requires
        forall|b: u32| b < 32 ==> #[trigger] bit_of(x, b) == bit_of(y, b),
    ensures
        x == y,
{
    assert(bit_of(x, 0) == bit_of(y, 0) && bit_of(x, 1) == bit_of(y, 1) && bit_of(x, 2) == bit_of(y, 2));
    assert(bit_of(x, 3) == bit_of(y, 3) && bit_of(x, 4) == bit_of(y, 4) && bit_of(x, 5) == bit_of(y, 5));
    assert(bit_of(x, 6) == bit_of(y, 6) && bit_of(x, 7) == bit_of(y, 7) && bit_of(x, 8) == bit_of(y, 8));
    assert(bit_of(x, 9) == bit_of(y, 9) && bit_of(x, 10) == bit_of(y, 10) && bit_of(x, 11) == bit_of(y, 11));
    assert(bit_of(x, 12) == bit_of(y, 12) && bit_of(x, 13) == bit_of(y, 13) && bit_of(x, 14) == bit_of(y, 14));
    assert(bit_of(x, 15) == bit_of(y, 15) && bit_of(x, 16) == bit_of(y, 16) && bit_of(x, 17) == bit_of(y, 17));
    assert(bit_of(x, 18) == bit_of(y, 18) && bit_of(x, 19) == bit_of(y, 19) && bit_of(x, 20) == bit_of(y, 20));
    assert(bit_of(x, 21) == bit_of(y, 21) && bit_of(x, 22) == bit_of(y, 22) && bit_of(x, 23) == bit_of(y, 23));
    assert(bit_of(x, 24) == bit_of(y, 24) && bit_of(x, 25) == bit_of(y, 25) && bit_of(x, 26) == bit_of(y, 26));
    assert(bit_of(x, 27) == bit_of(y, 27) && bit_of(x, 28) == bit_of(y, 28) && bit_of(x, 29) == bit_of(y, 29));
    assert(bit_of(x, 30) == bit_of(y, 30) && bit_of(x, 31) == bit_of(y, 31));
    assert(x == y) by (bit_vector)
        requires
            (x >> 0u32) & 1 == (y >> 0u32) & 1,
            (x >> 1u32) & 1 == (y >> 1u32) & 1,
            (x >> 2u32) & 1 == (y >> 2u32) & 1,
            (x >> 3u32) & 1 == (y >> 3u32) & 1,
            (x >> 4u32) & 1 == (y >> 4u32) & 1,
            (x >> 5u32) & 1 == (y >> 5u32) & 1,
            (x >> 6u32) & 1 == (y >> 6u32) & 1,
            (x >> 7u32) & 1 == (y >> 7u32) & 1,
            (x >> 8u32) & 1 == (y >> 8u32) & 1,
            (x >> 9u32) & 1 == (y >> 9u32) & 1,
            (x >> 10u32) & 1 == (y >> 10u32) & 1,
            (x >> 11u32) & 1 == (y >> 11u32) & 1,
            (x >> 12u32) & 1 == (y >> 12u32) & 1,
            (x >> 13u32) & 1 == (y >> 13u32) & 1,
            (x >> 14u32) & 1 == (y >> 14u32) & 1,
            (x >> 15u32) & 1 == (y >> 15u32) & 1,
            (x >> 16u32) & 1 == (y >> 16u32) & 1,
            (x >> 17u32) & 1 == (y >> 17u32) & 1,
            (x >> 18u32) & 1 == (y >> 18u32) & 1,
            (x >> 19u32) & 1 == (y >> 19u32) & 1,
            (x >> 20u32) & 1 == (y >> 20u32) & 1,
            (x >> 21u32) & 1 == (y >> 21u32) & 1,
            (x >> 22u32) & 1 == (y >> 22u32) & 1,
            (x >> 23u32) & 1 == (y >> 23u32) & 1,
            (x >> 24u32) & 1 == (y >> 24u32) & 1,
            (x >> 25u32) & 1 == (y >> 25u32) & 1,
            (x >> 26u32) & 1 == (y >> 26u32) & 1,
            (x >> 27u32) & 1 == (y >> 27u32) & 1,
            (x >> 28u32) & 1 == (y >> 28u32) & 1,
            (x >> 29u32) & 1 == (y >> 29u32) & 1,
            (x >> 30u32) & 1 == (y >> 30u32) & 1,
            (x >> 31u32) & 1 == (y >> 31u32) & 1,
    ;
}

/// Entry `t` of a run from `i` has its bit at the asked value in both masks
/// of the entries `i .. k`.
pub open spec fn named_bit(cond: [[u32; 3]; 309], q: Seq<u32>, i: int, k: int, t: int) -> bool {
    let mk = run_masks(cond, q, i, k);
    let c = entry_bit(cond[t]);
    let v = want_bit(cond[t], q, cond[i][0] + 4);
    bit_of(mk.0, c) == v && bit_of(mk.1, c) == v
}

/// Bit `b` is clear in the first mask and set in the second.
pub open spec fn free_bit(cond: [[u32; 3]; 309], q: Seq<u32>, i: int, k: int, b: u32) -> bool {
    let mk = run_masks(cond, q, i, k);
    bit_of(mk.0, b) == 0 && bit_of(mk.1, b) == 1
}

/// No entry of `i .. k` that asks something names bit `b`.
pub open spec fn unnamed(cond: [[u32; 3]; 309], i: int, k: int, b: u32) -> bool {
    forall|t: int| i <= t < k && cond[t][2] <= 4 ==> entry_bit(#[trigger] cond[t]) != b
}

/// The masks of the entries `i .. k` of a run for the value at `q[j]`: each
/// bit an entry names holds the value it asks for in both masks, every other
/// bit is clear in the first and set in the second.
proof fn lemma_run_masks(cond: [[u32; 3]; 309], q: Seq<u32>, i: int, k: int)
    requires
        0 <= i <= k <= 309,
        q.len() == 68,
        cond[i][0] < 64,
        forall|t: int| i <= t < k ==> #[trigger] entry_valid(cond[t]),
        forall|a: int, b: int|
            i <= a < b < k && cond[a][2] <= 4 && cond[b][2] <= 4 ==> #[trigger] same_demand(cond[a], cond[b], q, cond[i][0] + 4),
    ensures
        forall|t: int| i <= t < k && cond[t][2] <= 4 ==> #[trigger] named_bit(cond, q, i, k, t),
        forall|b: u32| b < 32 && unnamed(cond, i, k, b) ==> #[trigger] free_bit(cond, q, i, k, b),
    decreases k - i,
{
    let j = cond[i][0] + 4;
    if k > i {
        lemma_run_masks(cond, q, i, k - 1);
        let prev = run_masks(cond, q, i, k - 1);
        let e = cond[k - 1];
        assert(entry_valid(e));
        assert(run_masks(cond, q, i, k) == entry_masks(e, q, j, prev.0, prev.1));
        if e[2] <= 4 {
            let c = entry_bit(e);
            let w = want_bit(e, q, j);
            assert(c < 32);
            lemma_bit_set(q[j - 1], c, c);
            lemma_bit_set(q[j - 2], c, c);
            assert(w <= 1);
            assert((bit_of(prev.0, c) == 0 && bit_of(prev.1, c) == 1) || (bit_of(prev.0, c) == w && bit_of(prev.1, c)
                == w)) by {
                if unnamed(cond, i, k - 1, c) {
                    assert(free_bit(cond, q, i, k - 1, c));
                } else {
                    let t = choose|t: int| i <= t < k - 1 && cond[t][2] <= 4 && entry_bit(#[trigger] cond[t]) == c;
                    assert(named_bit(cond, q, i, k - 1, t));
                    assert(entry_valid(cond[t]));
                    assert(cond[t][1] == e[1]);
                    assert(same_demand(cond[t], cond[k - 1], q, j));
                    assert(want_bit(cond[t], q, j) == w);
                }
            }
            assert forall|b: u32| b < 32 implies {
                &&& bit_of(run_masks(cond, q, i, k).0, b) == if b == c { w } else { bit_of(prev.0, b) }
                &&& bit_of(run_masks(cond, q, i, k).1, b) == if b == c { w } else { bit_of(prev.1, b) }
            } by {
                lemma_bit_set(prev.0, c, b);
                lemma_bit_set(prev.1, c, b);
            }
            assert forall|t: int| i <= t < k && cond[t][2] <= 4 implies #[trigger] named_bit(cond, q, i, k, t) by {
                if t < k - 1 {
                    assert(entry_valid(cond[t]));
                    assert(named_bit(cond, q, i, k - 1, t));
                    if entry_bit(cond[t]) == c {
                        assert(cond[t][1] == e[1]);
                        assert(same_demand(cond[t], cond[k - 1], q, j));
                        assert(want_bit(cond[t], q, j) == w);
                    }
                }
            }
            assert forall|b: u32| b < 32 && unnamed(cond, i, k, b) implies #[trigger] free_bit(cond, q, i, k, b) by {
                assert(entry_bit(cond[k - 1]) != b);
                assert(unnamed(cond, i, k - 1, b));
                assert(free_bit(cond, q, i, k - 1, b));
            }
        } else {
            assert(run_masks(cond, q, i, k) == prev);
            assert forall|t: int| i <= t < k && cond[t][2] <= 4 implies #[trigger] named_bit(cond, q, i, k, t) by {
                assert(named_bit(cond, q, i, k - 1, t));
            }
            assert forall|b: u32| b < 32 && unnamed(cond, i, k, b) implies #[trigger] free_bit(cond, q, i, k, b) by {
                assert(unnamed(cond, i, k - 1, b));
                assert(free_bit(cond, q, i, k - 1, b));
            }
        }
    } else {
        assert forall|b: u32| b < 32 && unnamed(cond, i, k, b) implies #[trigger] free_bit(cond, q, i, k, b) by {
            lemma_bit_ops(0, 0, 0, b);
        }
    }
}

proof fn lemma_small_bits(v: u32)
    by (bit_vector)
    requires
        v <= 1,
    ensures
        v | 0 == v,
        v | v == v,
        v & 1 == v,
        v & v == v,
        (v | 1) & 1 == 1u32,
        (v | 0) & 0 == 0u32,
        (v | 0) & 1 == v,
{
}

/// The value forced by the masks of a whole run: each named bit takes the
/// value asked for, every other bit keeps its value.
proof fn lemma_forced_bits(cond: [[u32; 3]; 309], q: Seq<u32>, i: int, k: int, x: u32, b: u32)
    requires
        b < 32,
        forall|t: int| i <= t < k && cond[t][2] <= 4 ==> #[trigger] named_bit(cond, q, i, k, t),
        forall|c: u32| c < 32 && unnamed(cond, i, k, c) ==> #[trigger] free_bit(cond, q, i, k, c),
    ensures
        ({
            let mk = run_masks(cond, q, i, k);
            let y = (x | mk.0) & mk.1;
            &&& unnamed(cond, i, k, b) ==> bit_of(y, b) == bit_of(x, b)
            &&& forall|t: int| i <= t < k && cond[t][2] <= 4 && entry_bit(cond[t]) == b ==> bit_of(y, b) == want_bit(
                #[trigger] cond[t],
                q,
                cond[i][0] + 4,
            )
        }),
{
    let mk = run_masks(cond, q, i, k);
    lemma_bit_ops(x, mk.0, mk.1, b);
    lemma_bit_set(x, 0, b);
    lemma_bit_set(mk.0, 0, b);
    lemma_bit_set(mk.1, 0, b);
    lemma_small_bits(bit_of(x, b));
    if unnamed(cond, i, k, b) {
        assert(free_bit(cond, q, i, k, b));
    }
    assert forall|t: int| i <= t < k && cond[t][2] <= 4 && entry_bit(cond[t]) == b implies bit_of((x | mk.0) & mk.1, b)
        == want_bit(#[trigger] cond[t], q, cond[i][0] + 4) by {
        assert(named_bit(cond, q, i, k, t));
        let v = want_bit(cond[t], q, cond[i][0] + 4);
        lemma_small_bits(v);
    }
}

/// A run holds when each of its entries does.
proof fn lemma_run_ok(cond: [[u32; 3]; 309], q: Seq<u32>, i: int)
    requires
        0 <= i < 309,
        q.len() == 68,
        run_end(cond, i) <= 309,
        forall|t: int| i <= t < run_end(cond, i) ==> #[trigger] entry_valid(cond[t]),
        forall|a: int, b: int|
            i <= a < b < run_end(cond, i) && cond[a][2] <= 4 && cond[b][2] <= 4 ==> #[trigger] same_demand(
                cond[a],
                cond[b],
                q,
                cond[i][0] + 4,
            ),
        forall|t: int| i <= t < run_end(cond, i) ==> #[trigger] entry_met(cond, q, t),
    ensures
        run_ok(cond, q, i),
{
    let re = run_end(cond, i);
    lemma_run_end(cond, i);
    assert(entry_valid(cond[i]));
    lemma_run_masks(cond, q, i, re);
    let mk = run_masks(cond, q, i, re);
    let j = cond[i][0] + 4;
    let x = q[j];
    assert forall|b: u32| b < 32 implies #[trigger] bit_of(x, b) == bit_of(x | mk.0, b) && bit_of(x, b) == bit_of(
        x & mk.1,
        b,
    ) by {
        lemma_bit_ops(x, mk.0, mk.1, b);
        lemma_bit_set(x, 0, b);
        lemma_small_bits(bit_of(x, b));
        if unnamed(cond, i, re, b) {
            assert(free_bit(cond, q, i, re, b));
        } else {
            let t = choose|t: int| i <= t < re && cond[t][2] <= 4 && entry_bit(#[trigger] cond[t]) == b;
            assert(named_bit(cond, q, i, re, t));
            assert(entry_met(cond, q, t));
            assert(cond[t][0] == cond[i][0]);
        }
    }
    lemma_bits_equal(x, x | mk.0);
    lemma_bits_equal(x, x & mk.1);
}

/// Forcing the entries `h .. i` changes no value below the one entry `h`
/// constrains.
proof fn lemma_forced_frame(q: Seq<u32>, cond: [[u32; 3]; 309], start: int, end: int, h: int, i: int, pos: int)
    requires
        q.len() == 68,
        0 <= start <= h <= i <= end,
        h < end,
        cond_usable(cond, start, end),
        runs_sorted(cond, start, end),
        0 <= pos < cond[h][0] + 4,
    ensures
        forced(q, cond, start, i).len() == 68,
        forced(q, cond, start, i)[pos] == forced(q, cond, start, h)[pos],
    decreases i - h,
{
    lemma_forced_length(q, cond, start, end, i);
    lemma_forced_length(q, cond, start, end, h);
    if i > h {
        let k = i - 1;
        lemma_forced_frame(q, cond, start, end, h, k, pos);
        lemma_run_end(cond, end - 1);
        lemma_run_end_monotone(cond, k, end - 1);
        lemma_run_end(cond, k);
        assert(entry_valid(cond[k]));
        assert(cond[h][0] <= cond[k][0]);
    }
}

proof fn lemma_forced_length(q: Seq<u32>, cond: [[u32; 3]; 309], start: int, end: int, i: int)
    requires
        q.len() == 68,
        0 <= start <= i <= end,
        cond_usable(cond, start, end),
    ensures
        forced(q, cond, start, i).len() == 68,
    decreases i - start,
{
    if i > start {
        lemma_forced_length(q, cond, start, end, i - 1);
        lemma_run_end_monotone(cond, i - 1, end - 1);
        lemma_run_end(cond, i - 1);
        assert(entry_valid(cond[i - 1]));
    }
}

/// What entry `e` for the value of entry `h` asks reads the same in the
/// values before `h` is forced and in the values forcing ends with.
proof fn lemma_want_stable(q: Seq<u32>, cond: [[u32; 3]; 309], start: int, end: int, h: int, e: [u32; 3])
    requires
        q.len() == 68,
        0 <= start <= h < end,
        cond_usable(cond, start, end),
        runs_sorted(cond, start, end),
    ensures
        want_bit(e, forced(q, cond, start, h), cond[h][0] + 4) == want_bit(e, forced(q, cond, start, end), cond[h][0] + 4),
{
    let j = cond[h][0] + 4;
    lemma_forced_frame(q, cond, start, end, h, end, j - 1);
    lemma_forced_frame(q, cond, start, end, h, end, j - 2);
}

/// After forcing the runs from the entries `start .. i`, every entry from
/// `start` to the end of the run of entry `i - 1` holds.
proof fn lemma_forced_prefix(q: Seq<u32>, cond: [[u32; 3]; 309], start: int, end: int, i: int)
    requires
        q.len() == 68,
        0 <= start < end,
        start <= i <= end,
        cond_usable(cond, start, end),
        runs_sorted(cond, start, end),
        no_conflicts(cond, forced(q, cond, start, end), start, end),
    ensures
        forced(q, cond, start, i).len() == 68,
        i > start ==> forall|t: int| start <= t < run_end(cond, i - 1) ==> #[trigger] entry_met(cond, forced(q, cond, start, i), t),
    decreases i - start,
{
    lemma_forced_length(q, cond, start, end, i);
    if i > start {
        let h = i - 1;
        let big = run_end(cond, end - 1);
        let f = forced(q, cond, start, end);
        lemma_forced_prefix(q, cond, start, end, h);
        lemma_run_end_monotone(cond, h, end - 1);
        lemma_run_end(cond, h);
        let p = forced(q, cond, start, h);
        let re = run_end(cond, h);
        assert(entry_valid(cond[h]));
        let j = cond[h][0] + 4;
        assert(forall|a: int, b: int|
            h <= a < b < re && cond[a][2] <= 4 && cond[b][2] <= 4 ==> #[trigger] same_demand(cond[a], cond[b], p, j)) by {
            assert forall|a: int, b: int|
                h <= a < b < re && cond[a][2] <= 4 && cond[b][2] <= 4 implies #[trigger] same_demand(cond[a], cond[b], p, j) by {
                assert(cond[a][0] == cond[h][0] && cond[b][0] == cond[h][0]);
                assert(same_demand(cond[a], cond[b], f, cond[a][0] + 4));
                lemma_want_stable(q, cond, start, end, h, cond[a]);
                lemma_want_stable(q, cond, start, end, h, cond[b]);
            }
        }
        lemma_run_masks(cond, p, h, re);
        let mk = run_masks(cond, p, h, re);
        let x2 = (p[j] | mk.0) & mk.1;
        let p2 = p.update(j, x2);
        assert(forced(q, cond, start, i) == p2);
        assert forall|t: int| start <= t < re implies #[trigger] entry_met(cond, p2, t) by {
            let e = cond[t];
            assert(entry_valid(e));
            let jt = e[0] + 4;
            if e[2] <= 4 {
                let c = entry_bit(e);
                assert(c < 32);
                assert(p2[jt - 1] == p[jt - 1] && p2[jt - 2] == p[jt - 2]) by {
                    assert(cond[h][0] <= cond[t][0] || t < h);
                    if t < h {
                        assert(cond[t][0] <= cond[h][0]);
                    }
                }
                assert(want_bit(e, p2, jt) == want_bit(e, p, jt));
                lemma_forced_bits(cond, p, h, re, p[j], c);
                if t >= h {
                    assert(cond[t][0] == cond[h][0]);
                } else {
                    assert(entry_met(cond, p, t));
                    assert(cond[t][0] <= cond[h][0]);
                    if cond[t][0] == cond[h][0] && !unnamed(cond, h, re, c) {
                        let u = choose|u: int| h <= u < re && cond[u][2] <= 4 && entry_bit(#[trigger] cond[u]) == c;
                        assert(cond[u][0] == cond[h][0]);
                        assert(entry_valid(cond[u]));
                        assert(cond[t][1] == cond[u][1]);
                        assert(same_demand(cond[t], cond[u], f, cond[t][0] + 4));
                        lemma_want_stable(q, cond, start, end, h, cond[t]);
                        lemma_want_stable(q, cond, start, end, h, cond[u]);
                        assert(want_bit(cond[u], p, j) == want_bit(e, p, jt));
                    }
                }
            }
        }
    }
}

/// Forcing the conditions of the entries `start .. end` makes them all hold,
/// when the table is sorted by the value each entry constrains and no bit of
/// one value is forced both to 0 and to 1: the values `modif_for_cond`
/// leaves pass `verify_conditions` over the same entries.
pub proof fn lemma_forced_conditions_hold(q: Seq<u32>, cond: [[u32; 3]; 309], start: int, end: int)
    requires
        q.len() == 68,
        0 <= start < end,
        cond_usable(cond, start, end),
        runs_sorted(cond, start, end),
        no_conflicts(cond, forced(q, cond, start, end), start, end),
    ensures
        conditions_hold(cond, forced(q, cond, start, end), start, end),
{
    let f = forced(q, cond, start, end);
    let big = run_end(cond, end - 1);
    lemma_forced_prefix(q, cond, start, end, end);
    assert forall|i: int| start <= i < end implies #[trigger] run_ok(cond, f, i) by {
        lemma_run_end_monotone(cond, i, end - 1);
        lemma_run_end(cond, i);
        let re = run_end(cond, i);
        assert forall|a: int, b: int|
            i <= a < b < re && cond[a][2] <= 4 && cond[b][2] <= 4 implies #[trigger] same_demand(cond[a], cond[b], f, cond[i][0] + 4) by {
            assert(cond[a][0] == cond[i][0] && cond[b][0] == cond[i][0]);
            assert(same_demand(cond[a], cond[b], f, cond[a][0] + 4));
        }
        assert forall|t: int| i <= t < re implies #[trigger] entry_met(cond, f, t) by {}
        assert forall|t: int| i <= t < re implies #[trigger] entry_valid(cond[t]) by {}
        lemma_run_ok(cond, f, i);
    }
}

/// Forcing the conditions a second time changes nothing, on a table where
/// forcing makes them hold: `modif_for_cond` twice is `modif_for_cond` once.
pub proof fn lemma_forcing_idempotent(q: Seq<u32>, cond: [[u32; 3]; 309], start: int, end: int)
    requires
        q.len() == 68,
        0 <= start < end,
        cond_usable(cond, start, end),
        runs_sorted(cond, start, end),
        no_conflicts(cond, forced(q, cond, start, end), start, end),
    ensures
        forced(forced(q, cond, start, end), cond, start, end) == forced(q, cond, start, end),
{
    let f = forced(q, cond, start, end);
    lemma_forced_prefix(q, cond, start, end, end);
    lemma_forced_conditions_hold(q, cond, start, end);
    lemma_forced_fixed(f, cond, start, end, end);
}

proof fn lemma_forced_fixed(f: Seq<u32>, cond: [[u32; 3]; 309], start: int, end: int, i: int)
    requires
        f.len() == 68,
        0 <= start <= i <= end,
        conditions_hold(cond, f, start, end),
        cond_usable(cond, start, end),
    ensures
        forced(f, cond, start, i) == f,
    decreases i - start,
{
    if i > start {
        lemma_forced_fixed(f, cond, start, end, i - 1);
        assert(run_ok(cond, f, i - 1));
        lemma_run_end(cond, i - 1);
        lemma_run_end_monotone(cond, i - 1, end - 1);
        assert(entry_valid(cond[i - 1]));
        let j = cond[i - 1][0] + 4;
        let mk = run_masks(cond, f, i - 1, run_end(cond, i - 1));
        let x = f[j];
        let o = mk.0;
        let z = mk.1;
        assert((x | o) & z == x) by (bit_vector)
            requires
                x == (x | o),
                x == (x & z),
        ;
        assert(f.update(j, (f[j] | mk.0) & mk.1) =~= f);
    }
}

} // verus!
