//! Search for the first block: a message pair `(M, M')`, `M'` being `M` with
//! `2^31` added to words 4 and 14 and `2^15` to word 11, whose computations
//! from the initial chaining value follow a fixed differential path.
//!
//! The working values live in a table of 76 nodes: node `4 + k` holds `Q[k]`
//! (`val`) and `Q'[k]` (`tval`) for `-4 <= k < 72`; nodes `68 .. 72` hold the
//! chaining value again (as `Q[-4] .. Q[-1]` seen from step 0, counted modulo
//! 68) and nodes `72 .. 76` the output words.

use vstd::prelude::*;
use crate::bits::{
    addsub, addsub_bit, bit_of, fix_n19, fixed_n19, get_bit, lemma_addsub_inverse, lemma_bit_values,
    set_bit, with_bit,
};
use crate::search::{random_word, SEARCH_LIMIT};
use crate::md5::{
    crs, f_fn, g_fn, get_md5_round_func, md5_g, rotl, cls, lemma_smap_range, w_of, MMAP, lemma_unstep, lemma_w32_absorb, lemma_wrapping_add_is_w32,
    lemma_wrapping_sub_is_w32, md5_compress, md5_f, md5_q, md5_step, q_init, rotr, round_fn, s_of, t_of, unstep, w32, SMAP,
    TMAP,
};

verus! {

broadcast use lemma_wrapping_add_is_w32, lemma_wrapping_sub_is_w32, lemma_w32_absorb;

/// Offset of `Q[0]` in the node table.
pub const RELATIVE_INDEX: usize = 4;

/// A bit condition on the value of a node: bit `ind` must be one (`cref == -1`),
/// zero (`cref == -2`), or equal to bit `crind` of `Q[cref]` (`cref >= 0`);
/// `add_const` marks the conditions of the last kind that compare across the
/// chaining addition.
#[derive(Clone, Copy, Debug)]
pub struct Condition {
    pub ind: i32,
    pub cref: i32,
    pub crind: i32,
    pub add_const: i32,
}

/// A node of the table: the values of both computations, the bitfields
/// derived from its conditions, and the conditions, ordered by `ind`.
#[derive(Debug)]
pub struct Node {
    pub val: u32,
    pub tval: u32,
    pub bf: [u32; 4],
    pub list: Vec<Condition>,
}

impl Default for Node {
    fn default() -> (r: Node)
        ensures
            r.val == 0,
            r.tval == 0,
            r.bf@ == seq![0u32, 0u32, 0u32, 0u32],
            r.list@ == Seq::<Condition>::empty(),
    {
        Node { val: 0, tval: 0, bf: [0, 0, 0, 0], list: Vec::new() }
    }
}

/// The `val` of every node.
pub open spec fn vals(n: [Node; 76]) -> Seq<u32> {
    Seq::new(76, |k: int| n[k].val)
}

/// The `tval` of every node.
pub open spec fn tvals(n: [Node; 76]) -> Seq<u32> {
    Seq::new(76, |k: int| n[k].tval)
}

/// Bitfields and conditions agree between the two tables.
pub open spec fn same_conds(a: [Node; 76], b: [Node; 76]) -> bool {
    forall|k: int| #![trigger a[k]] 0 <= k < 76 ==> a[k].bf == b[k].bf && a[k].list == b[k].list
}

/// The node with its `val` replaced.
pub open spec fn with_val(nd: Node, v: u32) -> Node {
    Node { val: v, tval: nd.tval, bf: nd.bf, list: nd.list }
}

/// Conditions whose bits and referenced nodes lie inside the word and the table.
pub open spec fn conds_usable(conds: Seq<Condition>) -> bool {
    forall|k: int|
        0 <= k < conds.len() ==> {
            &&& 0 <= #[trigger] conds[k].ind < 32
            &&& conds[k].cref >= 0 ==> conds[k].cref < 72 && 0 <= conds[k].crind < 32
        }
}

/// The value that condition `c` asks for: 1 or 0 (from `cref + 2`), or the
/// referenced bit of the referenced node.
pub open spec fn cond_bit(c: Condition, n: Seq<Node>) -> i32 {
    if c.cref < 0 {
        (c.cref + 2) as i32
    } else {
        bit_of(n[4 + c.cref].val, c.crind as u32) as i32
    }
}

/// `x` after the conditions are applied in order.
pub open spec fn apply_conds(x: u32, conds: Seq<Condition>, n: Seq<Node>) -> u32
    decreases conds.len(),
{
    if conds.len() == 0 {
        x
    } else {
        with_bit(apply_conds(x, conds.drop_last(), n), conds.last().ind as u32, cond_bit(conds.last(), n))
    }
}

/// The position of `Q[index - k]` among `Q[0] .. Q[67]`, counted modulo 68.
pub open spec fn back(index: int, k: int) -> int {
    if index - k < 0 {
        index - k + 68
    } else {
        index - k
    }
}

/// The value of node `idx` with its conditions applied.
fn applied_conditions(n_cond_nodes: &[Node; 76], idx: usize) -> (x: u32)
    requires
        idx < 76,
        conds_usable(n_cond_nodes[idx as int].list@),
    ensures
        x == apply_conds(n_cond_nodes[idx as int].val, n_cond_nodes[idx as int].list@, n_cond_nodes@),
{
    let ghost conds = n_cond_nodes[idx as int].list@;
    let mut x = n_cond_nodes[idx].val;
    let len = n_cond_nodes[idx].list.len();
    for k in 0..len
        invariant
            idx < 76,
            conds == n_cond_nodes[idx as int].list@,
            len == conds.len(),
            conds_usable(conds),
            x == apply_conds(n_cond_nodes[idx as int].val, conds.take(k as int), n_cond_nodes@),
    {
        let el = n_cond_nodes[idx].list[k];
        proof {
            assert(conds.take(k + 1).drop_last() =~= conds.take(k as int));
            assert(conds[k as int] == el);
            assert(0 <= conds[k as int].ind < 32);
        }
        if el.cref < 0 {
            x = set_bit(x, el.ind, el.cref + 2);
        } else {
            let y = n_cond_nodes[RELATIVE_INDEX + el.cref as usize].val;
            let b2 = get_bit(y, el.crind) as i32;
            x = set_bit(x, el.ind, b2);
        }
    }
    proof {
        assert(conds.take(len as int) =~= conds);
    }
    x
}

/// The word `single_msg_modif` returns is the one the step inverts to, under F.
proof fn lemma_modif_word(index: int, x: u32, q1: u32, q2: u32, q3: u32, q4: u32, rot: u32, f: u32, r: u32)
    requires
        0 <= index < 64,
        rot == rotr(x.wrapping_sub(q1), s_of(index)),
        f == f_fn(q1, q2, q3),
        r == rot.wrapping_sub(q4).wrapping_sub(f).wrapping_sub(TMAP@[index]),
    ensures
        r == w32(rotr(w32(x - q1), s_of(index)) - q4 - f_fn(q1, q2, q3) - t_of(index)),
        index < 16 ==> md5_step(index, q1, q2, q3, q4, r) == x,
{
    assert(r == w32(rot - q4 - f - TMAP@[index]));
    reveal(unstep);
    if index < 16 {
        assert(r == unstep(index, x, q1, q2, q3, q4));
        lemma_unstep(index, x, q1, q2, q3, q4, r);
    }
}

/// Applies the conditions of `Q[index]` to its value and returns the message
/// word that makes step `index` (with the round function F) produce it.
pub fn single_msg_modif(index: i32, n_cond_nodes: &mut [Node; 76]) -> (r: u32)
    requires
        0 <= index < 64,
        conds_usable(old(n_cond_nodes)[4 + index].list@),
    ensures
        ({
            let n = *old(n_cond_nodes);
            let x = apply_conds(n[4 + index].val, n[4 + index].list@, n@);
            let v1 = n[4 + back(index as int, 1)].val;
            let v2 = n[4 + back(index as int, 2)].val;
            let v3 = n[4 + back(index as int, 3)].val;
            let v4 = n[4 + back(index as int, 4)].val;
            &&& final(n_cond_nodes)@ == n@.update(4 + index, with_val(n[4 + index], x))
            &&& r == w32(rotr(w32(x - v1), s_of(index as int)) - v4 - f_fn(v1, v2, v3) - t_of(index as int))
            &&& index < 16 ==> md5_step(index as int, v1, v2, v3, v4, r) == x
        }),
{
    let ghost n0 = *n_cond_nodes;
    let idx = RELATIVE_INDEX + index as usize;
    let x = applied_conditions(n_cond_nodes, idx);
    n_cond_nodes[idx].val = x;
    let mut i1 = index - 1;
    let mut i2 = index - 2;
    let mut i3 = index - 3;
    let mut i4 = index - 4;
    if i1 < 0 {
        i1 += 68;
    }
    if i2 < 0 {
        i2 += 68;
    }
    if i3 < 0 {
        i3 += 68;
    }
    if i4 < 0 {
        i4 += 68;
    }
    proof {
        lemma_smap_range(index as int);
    }
    let q1 = n_cond_nodes[RELATIVE_INDEX + i1 as usize].val;
    let q2 = n_cond_nodes[RELATIVE_INDEX + i2 as usize].val;
    let q3 = n_cond_nodes[RELATIVE_INDEX + i3 as usize].val;
    let q4 = n_cond_nodes[RELATIVE_INDEX + i4 as usize].val;
    let rot = crs(x.wrapping_sub(q1), SMAP[index as usize]);
    let f = md5_f(q1, q2, q3);
    let r = rot.wrapping_sub(q4).wrapping_sub(f).wrapping_sub(TMAP[index as usize]);
    proof {
        assert(q1 == n0[4 + back(index as int, 1)].val);
        assert(q2 == n0[4 + back(index as int, 2)].val);
        assert(q3 == n0[4 + back(index as int, 3)].val);
        assert(q4 == n0[4 + back(index as int, 4)].val);
        lemma_modif_word(index as int, x, q1, q2, q3, q4, rot, f, r);
    }
    r
}

/// The bits of `Q[ind]` that break its conditions, as the bitfields see them.
#[verifier::opaque]
pub open spec fn fcheck(n: Seq<Node>, ind: int) -> u32 {
    let nd = n[4 + ind];
    let v = nd.val;
    let x = 0u32 | (!v & nd.bf[0]) | (v & nd.bf[1]) | ((n[4 + ind - 1].val & nd.bf[2]) ^ (v & nd.bf[2]));
    if nd.bf[3] != 0 {
        x | ((!n[nd.list@.last().crind as int].val & nd.bf[3]) ^ (v & nd.bf[2]))
    } else {
        x
    }
}

/// One bit of the check word: `b0 .. b3` say what bit `k` of the value `v`
/// is held to (one, zero, equal to the previous value `p`, or set where the
/// referenced value `r` has it set).
proof fn lemma_check_word_bit(v: u32, p: u32, r: u32, b0: u32, b1: u32, b2: u32, b3: u32, x: u32, k: u32)
    by (bit_vector)
    requires
        k < 32,
        x == if b3 != 0 {
            (0u32 | (!v & b0) | (v & b1) | ((p & b2) ^ (v & b2))) | ((!r & b3) ^ (v & b2))
        } else {
            0u32 | (!v & b0) | (v & b1) | ((p & b2) ^ (v & b2))
        },
    ensures
        ((b0 >> k) & 1 == 0 && (b1 >> k) & 1 == 0 && (b2 >> k) & 1 == 0 && (b3 >> k) & 1 == 0) ==> (x >> k) & 1 == 0,
        ((b0 >> k) & 1 == 1 && (b1 >> k) & 1 == 0 && (b2 >> k) & 1 == 0 && (b3 >> k) & 1 == 0) ==> ((x >> k) & 1 == 1)
            == ((v >> k) & 1 == 0),
        ((b0 >> k) & 1 == 0 && (b1 >> k) & 1 == 1 && (b2 >> k) & 1 == 0 && (b3 >> k) & 1 == 0) ==> ((x >> k) & 1 == 1)
            == ((v >> k) & 1 == 1),
        ((b0 >> k) & 1 == 0 && (b1 >> k) & 1 == 0 && (b2 >> k) & 1 == 1 && b3 == 0) ==> ((x >> k) & 1 == 1) == ((v
            >> k) & 1 != (p >> k) & 1),
        ((b0 >> k) & 1 == 0 && (b1 >> k) & 1 == 0 && (b2 >> k) & 1 == 0 && (b3 >> k) & 1 == 1) ==> ((x >> k) & 1 == 1)
            == ((r >> k) & 1 == 0),
{
}

/// How the check of `Q[ind]` judges its bit `k`, by what the node's bitfields
/// hold it to: a bit held to nothing is never reported; held to one, it is
/// reported exactly when it is 0; held to zero, exactly when it is 1; held
/// to the bit of `Q[ind - 1]` (and no cross-addition condition on the node),
/// exactly when the two differ; held by a cross-addition condition alone,
/// exactly when the referenced value has the bit clear.
pub proof fn lemma_fcheck_bit(n: Seq<Node>, ind: int, k: u32)
    requires
        k < 32,
    ensures
        ({
            let nd = n[4 + ind];
            let v = nd.val;
            let p = n[4 + ind - 1].val;
            let r = n[nd.list@.last().crind as int].val;
            let x = fcheck(n, ind);
            let (b0, b1, b2, b3) = (nd.bf[0], nd.bf[1], nd.bf[2], nd.bf[3]);
            &&& (bit_of(b0, k) == 0 && bit_of(b1, k) == 0 && bit_of(b2, k) == 0 && bit_of(b3, k) == 0) ==> bit_of(x, k) == 0
            &&& (bit_of(b0, k) == 1 && bit_of(b1, k) == 0 && bit_of(b2, k) == 0 && bit_of(b3, k) == 0) ==> (bit_of(x, k) == 1)
                == (bit_of(v, k) == 0)
            &&& (bit_of(b0, k) == 0 && bit_of(b1, k) == 1 && bit_of(b2, k) == 0 && bit_of(b3, k) == 0) ==> (bit_of(x, k) == 1)
                == (bit_of(v, k) == 1)
            &&& (bit_of(b0, k) == 0 && bit_of(b1, k) == 0 && bit_of(b2, k) == 1 && b3 == 0) ==> (bit_of(x, k) == 1) == (bit_of(
                v,
                k,
            ) != bit_of(p, k))
            &&& (bit_of(b0, k) == 0 && bit_of(b1, k) == 0 && bit_of(b2, k) == 0 && bit_of(b3, k) == 1) ==> (bit_of(x, k) == 1)
                == (bit_of(r, k) == 0)
        }),
{
    reveal(fcheck);
    let nd = n[4 + ind];
    lemma_check_word_bit(
        nd.val,
        n[4 + ind - 1].val,
        n[nd.list@.last().crind as int].val,
        nd.bf[0],
        nd.bf[1],
        nd.bf[2],
        nd.bf[3],
        fcheck(n, ind),
        k,
    );
}

/// `fcheck_cond` can look at `Q[ind]`: the node is inside the table and, when
/// it has cross-addition conditions, its last condition names a node.
pub open spec fn fcheck_usable(n: [Node; 76], ind: int) -> bool {
    &&& 0 <= ind
    &&& 4 + ind < 76
    &&& n[4 + ind].bf[3] != 0 ==> {
        &&& n[4 + ind].list@.len() > 0
        &&& 0 <= n[4 + ind].list@.last().crind < 76
    }
}

/// The bits of `Q[ind]` that break its conditions; zero when they all hold.
pub fn fcheck_cond(ind: i32, n_cond_nodes: &mut [Node; 76]) -> (r: u32)
    requires
        fcheck_usable(*old(n_cond_nodes), ind as int),
    ensures
        *final(n_cond_nodes) == *old(n_cond_nodes),
        r == fcheck(old(n_cond_nodes)@, ind as int),
{
    proof {
        reveal(fcheck);
    }
    let k = RELATIVE_INDEX + ind as usize;
    let mut x: u32 = 0;
    x |= (!n_cond_nodes[k].val) & n_cond_nodes[k].bf[0];
    x |= n_cond_nodes[k].val & n_cond_nodes[k].bf[1];
    x |= (n_cond_nodes[k - 1].val & n_cond_nodes[k].bf[2]) ^ (n_cond_nodes[k].val & n_cond_nodes[k].bf[2]);

    if n_cond_nodes[k].bf[3] != 0 {
        let len = n_cond_nodes[k].list.len();
        let list = n_cond_nodes[k].list[len - 1];
        x |= (!(n_cond_nodes[list.crind as usize].val) & n_cond_nodes[k].bf[3]) ^ (n_cond_nodes[k].val
            & n_cond_nodes[k].bf[2]);
    }
    x
}

// ---------------------------------------------------------------------------
// Steps and differential checks over the node table.
// ---------------------------------------------------------------------------

/// Step `k` of the computation held in `v` (`Q[k]` at `v[k + 4]`) follows
/// from the four values before it and the message words `m`.
pub open spec fn step_holds(v: Seq<u32>, m: Seq<u32>, k: int) -> bool {
    v[k + 4] == md5_step(k, v[k + 3], v[k + 2], v[k + 1], v[k], m[w_of(k)])
}

/// Steps `lo .. hi` all follow from the values before them.
pub open spec fn steps_hold(v: Seq<u32>, m: Seq<u32>, lo: int, hi: int) -> bool {
    forall|k: int| lo <= k < hi ==> #[trigger] step_holds(v, m, k)
}

/// The differential the path asks for at step `k`: the XOR difference 2^31
/// in the third round from step 34 on, the modular difference `dt[k]` elsewhere.
pub open spec fn check_ok(v: Seq<u32>, tv: Seq<u32>, dt: Seq<u32>, k: int) -> bool {
    if 32 <= k < 48 {
        k <= 33 || (tv[k + 4] ^ v[k + 4]) == 0x80000000u32
    } else {
        w32(tv[k + 4] - v[k + 4]) == dt[k]
    }
}

/// The differential the path asks at step `k`: from step 34 to 47 the two
/// values differ in bit 31 alone; steps 32 and 33 ask nothing; every other
/// step asks the modular difference `dt[k]`.
pub proof fn lemma_check_ok(v: Seq<u32>, tv: Seq<u32>, dt: Seq<u32>, k: int)
    ensures
        34 <= k < 48 ==> (check_ok(v, tv, dt, k) == (tv[k + 4] == v[k + 4] ^ 0x80000000u32)),
        (k == 32 || k == 33) ==> check_ok(v, tv, dt, k),
        (k < 32 || k >= 48) ==> (check_ok(v, tv, dt, k) == (w32(tv[k + 4] - v[k + 4]) == dt[k])),
{
    let (a, b) = (tv[k + 4], v[k + 4]);
    assert(((a ^ b) == 0x80000000u32) == (a == b ^ 0x80000000u32)) by (bit_vector);
}

/// The differentials of steps `lo .. hi` all hold.
pub open spec fn checks_pass(v: Seq<u32>, tv: Seq<u32>, dt: Seq<u32>, lo: int, hi: int) -> bool {
    forall|k: int| lo <= k < hi ==> #[trigger] check_ok(v, tv, dt, k)
}

/// `a` and `b` agree at the positions `lo .. hi`.
pub open spec fn agree_on(a: Seq<u32>, b: Seq<u32>, lo: int, hi: int) -> bool {
    forall|k: int| lo <= k < hi ==> #[trigger] a[k] == b[k]
}

pub proof fn lemma_steps_frame(v: Seq<u32>, v2: Seq<u32>, m: Seq<u32>, lo: int, hi: int)
    requires
        steps_hold(v, m, lo, hi),
        agree_on(v, v2, lo, hi + 4),
    ensures
        steps_hold(v2, m, lo, hi),
{
    assert forall|k: int| lo <= k < hi implies #[trigger] step_holds(v2, m, k) by {
        assert(step_holds(v, m, k));
        assert(v[k + 4] == v2[k + 4] && v[k + 3] == v2[k + 3] && v[k + 2] == v2[k + 2] && v[k + 1]
            == v2[k + 1] && v[k] == v2[k]);
    }
}

pub proof fn lemma_checks_frame(v: Seq<u32>, tv: Seq<u32>, v2: Seq<u32>, tv2: Seq<u32>, dt: Seq<u32>, lo: int, hi: int)
    requires
        checks_pass(v, tv, dt, lo, hi),
        agree_on(v, v2, lo + 4, hi + 4),
        agree_on(tv, tv2, lo + 4, hi + 4),
    ensures
        checks_pass(v2, tv2, dt, lo, hi),
{
    assert forall|k: int| lo <= k < hi implies #[trigger] check_ok(v2, tv2, dt, k) by {
        assert(check_ok(v, tv, dt, k));
        assert(v[k + 4] == v2[k + 4] && tv[k + 4] == tv2[k + 4]);
    }
}

/// A step computed as `q1 + rotl(phi + q4 + w + t, s)` is `md5_step`.
proof fn lemma_step_value(i: int, q1: u32, q2: u32, q3: u32, q4: u32, w: u32, f: u32, x: u32)
    requires
        0 <= i < 64,
        f == round_fn(i, q1, q2, q3),
        x == q1.wrapping_add(crate::md5::rotl(f.wrapping_add(q4).wrapping_add(w).wrapping_add(TMAP@[i]), SMAP@[i] as u32)),
    ensures
        x == md5_step(i, q1, q2, q3, q4, w),
{
    reveal(md5_step);
}

/// Computes `Q[i]` from `m_block` and `Q'[i]` from `m_prime_block` into node
/// `4 + i`, each from the four values before it.
fn compute_pair(m_block: &[u32; 32], m_prime_block: &[u32; 16], n_cond_nodes: &mut [Node; 76], i: usize)
    requires
        i < 64,
    ensures
        ({
            let n = *old(n_cond_nodes);
            let v = vals(n);
            let tv = tvals(n);
            let x = md5_step(i as int, v[i + 3], v[i + 2], v[i + 1], v[i as int], m_block[w_of(i as int)]);
            let y = md5_step(i as int, tv[i + 3], tv[i + 2], tv[i + 1], tv[i as int], m_prime_block[w_of(i as int)]);
            final(n_cond_nodes)@ == n@.update(i + 4, Node { val: x, tval: y, bf: n[i + 4].bf, list: n[i + 4].list })
        }),
{
    let ghost n = *n_cond_nodes;
    proof {
        lemma_smap_range(i as int);
    }
    let k = RELATIVE_INDEX + i;
    let f = get_md5_round_func(n_cond_nodes[k - 1].val, n_cond_nodes[k - 2].val, n_cond_nodes[k - 3].val, i);
    let x = n_cond_nodes[k - 1].val.wrapping_add(
        cls(f.wrapping_add(n_cond_nodes[k - 4].val).wrapping_add(m_block[MMAP[i]]).wrapping_add(TMAP[i]), SMAP[i]),
    );
    let g = get_md5_round_func(n_cond_nodes[k - 1].tval, n_cond_nodes[k - 2].tval, n_cond_nodes[k - 3].tval, i);
    let y = n_cond_nodes[k - 1].tval.wrapping_add(
        cls(g.wrapping_add(n_cond_nodes[k - 4].tval).wrapping_add(m_prime_block[MMAP[i]]).wrapping_add(TMAP[i]), SMAP[i]),
    );
    proof {
        lemma_step_value(i as int, n[k - 1].val, n[k - 2].val, n[k - 3].val, n[k - 4].val, m_block[MMAP@[i as int] as int], f, x);
        lemma_step_value(i as int, n[k - 1].tval, n[k - 2].tval, n[k - 3].tval, n[k - 4].tval, m_prime_block[MMAP@[i as int] as int], g, y);
    }
    n_cond_nodes[k].val = x;
    n_cond_nodes[k].tval = y;
    proof {
        let v = vals(n);
        assert(v[i + 3] == n[k - 1].val && v[i + 2] == n[k - 2].val && v[i + 1] == n[k - 3].val && v[i as int] == n[k - 4].val);
        let tv = tvals(n);
        assert(tv[i + 3] == n[k - 1].tval && tv[i + 2] == n[k - 2].tval && tv[i + 1] == n[k - 3].tval && tv[i as int] == n[k - 4].tval);
    }
}

/// What a run of steps `lo .. hi` with differential checks leaves behind: the
/// steps up to and including the one that ends the run follow from the values
/// before them, nothing else changed, and the run ends at the first failing
/// check (`r`) or at `hi` with `r == 0x1337`.
pub open spec fn round_post(
    n0: [Node; 76],
    n1: [Node; 76],
    m: Seq<u32>,
    mp: Seq<u32>,
    dt: Seq<u32>,
    lo: int,
    hi: int,
    r: i32,
) -> bool {
    &&& same_conds(n1, n0)
    &&& run_post(vals(n0), tvals(n0), vals(n1), tvals(n1), m, mp, dt, lo, hi, r)
}

/// `round_post` on the values alone: `v0, tv0` before, `v, tv` after.
pub open spec fn run_post(
    v0: Seq<u32>,
    tv0: Seq<u32>,
    v: Seq<u32>,
    tv: Seq<u32>,
    m: Seq<u32>,
    mp: Seq<u32>,
    dt: Seq<u32>,
    lo: int,
    hi: int,
    r: i32,
) -> bool {
    let e = if r == 0x1337 {
        hi
    } else {
        r + 1
    };
    &&& r == 0x1337 || lo <= r < hi
    &&& steps_hold(v, m, lo, e)
    &&& steps_hold(tv, mp, lo, e)
    &&& agree_on(v, v0, 0, lo + 4)
    &&& agree_on(v, v0, e + 4, 76)
    &&& agree_on(tv, tv0, 0, lo + 4)
    &&& agree_on(tv, tv0, e + 4, 76)
    &&& checks_pass(v, tv, dt, lo, if r == 0x1337 { hi } else { r as int })
    &&& r != 0x1337 ==> !check_ok(v, tv, dt, r as int)
}

/// Computes steps `lo .. hi` of both computations and checks the differential
/// after each; stops at the first that fails and returns it, or `0x1337`.
fn check_steps(
    m_block: &[u32; 32],
    m_prime_block: &[u32; 16],
    n_cond_nodes: &mut [Node; 76],
    lo: usize,
    hi: usize,
    dt: &[u32; 68],
) -> (r: i32)
    requires
        hi <= 64,
    ensures
        round_post(*old(n_cond_nodes), *final(n_cond_nodes), m_block@, m_prime_block@, dt@, lo as int, hi as int, r),
{
    let ghost n0 = *n_cond_nodes;
    let ghost m = m_block@;
    let ghost mp = m_prime_block@;
    let mut i = lo;
    while i < hi
        invariant
            lo <= i,
            lo < hi ==> i <= hi,
            lo >= hi ==> i == lo,
            hi <= 64,
            m == m_block@,
            mp == m_prime_block@,
            n0 == *old(n_cond_nodes),
            same_conds(*n_cond_nodes, n0),
            steps_hold(vals(*n_cond_nodes), m, lo as int, i as int),
            steps_hold(tvals(*n_cond_nodes), mp, lo as int, i as int),
            agree_on(vals(*n_cond_nodes), vals(n0), 0, lo + 4),
            agree_on(vals(*n_cond_nodes), vals(n0), i + 4, 76),
            agree_on(tvals(*n_cond_nodes), tvals(n0), 0, lo + 4),
            agree_on(tvals(*n_cond_nodes), tvals(n0), i + 4, 76),
            checks_pass(vals(*n_cond_nodes), tvals(*n_cond_nodes), dt@, lo as int, i as int),
        decreases hi - i,
    {
        let ghost nb = *n_cond_nodes;
        compute_pair(m_block, m_prime_block, n_cond_nodes, i);
        proof {
            let v = vals(nb);
            let tv = tvals(nb);
            let v2 = vals(*n_cond_nodes);
            let tv2 = tvals(*n_cond_nodes);
            assert(v2 =~= v.update(i + 4, v2[i + 4]));
            assert(tv2 =~= tv.update(i + 4, tv2[i + 4]));
            lemma_steps_frame(v, v2, m, lo as int, i as int);
            lemma_steps_frame(tv, tv2, mp, lo as int, i as int);
            let ii = i as int;
            assert(v2[ii + 3] == v[ii + 3] && v2[ii + 2] == v[ii + 2] && v2[ii + 1] == v[ii + 1] && v2[ii] == v[ii]);
            assert(tv2[ii + 3] == tv[ii + 3] && tv2[ii + 2] == tv[ii + 2] && tv2[ii + 1] == tv[ii + 1] && tv2[ii] == tv[ii]);
            assert(step_holds(v2, m, i as int));
            assert(step_holds(tv2, mp, i as int));
            assert(agree_on(v2, vals(n0), i + 5, 76));
            assert(agree_on(tv2, tvals(n0), i + 5, 76));
            assert(agree_on(v2, vals(n0), 0, lo + 4));
            assert(agree_on(tv2, tvals(n0), 0, lo + 4));
            lemma_checks_frame(v, tv, v2, tv2, dt@, lo as int, i as int);
            assert(same_conds(*n_cond_nodes, n0)) by {
                assert forall|k: int| #![trigger n_cond_nodes[k]] 0 <= k < 76 implies n_cond_nodes[k].bf == n0[k].bf && n_cond_nodes[k].list == n0[k].list by {
                    assert(nb[k].bf == n0[k].bf && nb[k].list == n0[k].list);
                }
            }
        }
        let k = RELATIVE_INDEX + i;
        if 32 <= i && i < 48 {
            if i > 33 && (n_cond_nodes[k].tval ^ n_cond_nodes[k].val) != 0x80000000 {
                return i as i32;
            }
        } else {
            if n_cond_nodes[k].tval.wrapping_sub(n_cond_nodes[k].val) != dt[i] {
                return i as i32;
            }
        }
        i += 1;
    }
    proof {
        let v = vals(*n_cond_nodes);
        let tv = tvals(*n_cond_nodes);
        assert forall|k: int| hi + 4 <= k < 76 implies #[trigger] v[k] == vals(n0)[k] && tv[k] == tvals(n0)[k] by {
            if k < lo + 4 {
                assert(v[k] == vals(n0)[k]);
                assert(tv[k] == tvals(n0)[k]);
            } else {
                assert(v[k] == vals(n0)[k]);
                assert(tv[k] == tvals(n0)[k]);
            }
        }
    }
    0x1337
}

/// Steps 0 .. 16 (round F) of both computations with their differentials.
pub fn round1_check_diffs(
    m_block: &mut [u32; 32],
    m_prime_block: &mut [u32; 16],
    n_cond_nodes: &mut [Node; 76],
    dt: [u32; 68],
) -> (r: i32)
    ensures
        *final(m_block) == *old(m_block),
        *final(m_prime_block) == *old(m_prime_block),
        round_post(*old(n_cond_nodes), *final(n_cond_nodes), old(m_block)@, old(m_prime_block)@, dt@, 0, 16, r),
{
    check_steps(m_block, m_prime_block, n_cond_nodes, 0, 16, &dt)
}

/// Step `i` computed with the round function G whatever `i` is, the way
/// the second round computes its steps (for `16 <= i < 32` it is `md5_step`).
pub open spec fn g_step(i: int, q1: u32, q2: u32, q3: u32, q4: u32, w: u32) -> u32 {
    w32(q1 + rotl(w32(g_fn(q1, q2, q3) + q4 + w + t_of(i)), s_of(i)))
}

/// `Q[k]` follows from the values before it by the G step.
pub open spec fn g_step_holds(v: Seq<u32>, m: Seq<u32>, k: int) -> bool {
    v[k + 4] == g_step(k, v[k + 3], v[k + 2], v[k + 1], v[k], m[w_of(k)])
}

/// Steps `lo .. hi` all follow from the values before them by the G step.
pub open spec fn g_steps_hold(v: Seq<u32>, m: Seq<u32>, lo: int, hi: int) -> bool {
    forall|k: int| lo <= k < hi ==> #[trigger] g_step_holds(v, m, k)
}

/// What `round2_check_diffs` leaves behind from `lo` on: the G steps of both
/// computations up to the first step whose difference fails (returned) or
/// through step 31 (`0x1337`), every other value unchanged.
pub open spec fn round2_post(n0: [Node; 76], n1: [Node; 76], m: Seq<u32>, mp: Seq<u32>, dt: Seq<u32>, lo: int, r: i32) -> bool {
    let v0 = vals(n0);
    let tv0 = tvals(n0);
    let v = vals(n1);
    let tv = tvals(n1);
    let e = if r == 0x1337 {
        32
    } else {
        r + 1
    };
    &&& same_conds(n1, n0)
    &&& r == 0x1337 || lo <= r < 32
    &&& g_steps_hold(v, m, lo, e)
    &&& g_steps_hold(tv, mp, lo, e)
    &&& agree_on(v, v0, 0, lo + 4)
    &&& agree_on(v, v0, e + 4, 76)
    &&& agree_on(tv, tv0, 0, lo + 4)
    &&& agree_on(tv, tv0, e + 4, 76)
    &&& checks_pass(v, tv, dt, lo, if r == 0x1337 { 32 } else { r as int })
    &&& r != 0x1337 ==> !check_ok(v, tv, dt, r as int)
}

/// A step computed as `q1 + rotl(g + q4 + w + t, s)` is the G step.
proof fn lemma_g_step_value(i: int, q1: u32, q2: u32, q3: u32, q4: u32, w: u32, f: u32, x: u32)
    requires
        0 <= i < 64,
        f == g_fn(q1, q2, q3),
        x == q1.wrapping_add(crate::md5::rotl(f.wrapping_add(q4).wrapping_add(w).wrapping_add(TMAP@[i]), SMAP@[i] as u32)),
    ensures
        x == g_step(i, q1, q2, q3, q4, w),
{
}

/// In the second round the G step is the MD5 step.
pub proof fn lemma_g_steps_are_steps(v: Seq<u32>, m: Seq<u32>, lo: int, hi: int)
    requires
        16 <= lo,
        hi <= 32,
        g_steps_hold(v, m, lo, hi),
    ensures
        steps_hold(v, m, lo, hi),
{
    assert forall|k: int| lo <= k < hi implies #[trigger] step_holds(v, m, k) by {
        assert(g_step_holds(v, m, k));
        reveal(md5_step);
    }
}

pub proof fn lemma_g_steps_frame(v: Seq<u32>, v2: Seq<u32>, m: Seq<u32>, lo: int, hi: int)
    requires
        g_steps_hold(v, m, lo, hi),
        agree_on(v, v2, lo, hi + 4),
    ensures
        g_steps_hold(v2, m, lo, hi),
{
    assert forall|k: int| lo <= k < hi implies #[trigger] g_step_holds(v2, m, k) by {
        assert(g_step_holds(v, m, k));
        assert(v[k + 4] == v2[k + 4] && v[k + 3] == v2[k + 3] && v[k + 2] == v2[k + 2] && v[k + 1]
            == v2[k + 1] && v[k] == v2[k]);
    }
}

/// `round2_post` from step 16 or later is `round_post` for steps `lo .. 32`.
pub proof fn lemma_round2_post(n0: [Node; 76], n1: [Node; 76], m: Seq<u32>, mp: Seq<u32>, dt: Seq<u32>, lo: int, r: i32)
    requires
        16 <= lo <= 32,
        round2_post(n0, n1, m, mp, dt, lo, r),
    ensures
        round_post(n0, n1, m, mp, dt, lo, 32, r),
{
    let e = if r == 0x1337 {
        32
    } else {
        r + 1
    };
    lemma_g_steps_are_steps(vals(n1), m, lo, e);
    lemma_g_steps_are_steps(tvals(n1), mp, lo, e);
}

/// Computes `Q[i]` and `Q'[i]` with the round function G into node `4 + i`.
fn compute_pair_g(m_block: &[u32; 32], m_prime_block: &[u32; 16], n_cond_nodes: &mut [Node; 76], i: usize)
    requires
        i < 32,
    ensures
        ({
            let n = *old(n_cond_nodes);
            let v = vals(n);
            let tv = tvals(n);
            let x = g_step(i as int, v[i + 3], v[i + 2], v[i + 1], v[i as int], m_block[w_of(i as int)]);
            let y = g_step(i as int, tv[i + 3], tv[i + 2], tv[i + 1], tv[i as int], m_prime_block[w_of(i as int)]);
            final(n_cond_nodes)@ == n@.update(i + 4, Node { val: x, tval: y, bf: n[i + 4].bf, list: n[i + 4].list })
        }),
{
    let ghost n = *n_cond_nodes;
    proof {
        lemma_smap_range(i as int);
    }
    let k = RELATIVE_INDEX + i;
    let f = md5_g(n_cond_nodes[k - 1].val, n_cond_nodes[k - 2].val, n_cond_nodes[k - 3].val);
    let x = n_cond_nodes[k - 1].val.wrapping_add(
        cls(f.wrapping_add(n_cond_nodes[k - 4].val).wrapping_add(m_block[MMAP[i]]).wrapping_add(TMAP[i]), SMAP[i]),
    );
    let g = md5_g(n_cond_nodes[k - 1].tval, n_cond_nodes[k - 2].tval, n_cond_nodes[k - 3].tval);
    let y = n_cond_nodes[k - 1].tval.wrapping_add(
        cls(g.wrapping_add(n_cond_nodes[k - 4].tval).wrapping_add(m_prime_block[MMAP[i]]).wrapping_add(TMAP[i]), SMAP[i]),
    );
    proof {
        lemma_g_step_value(i as int, n[k - 1].val, n[k - 2].val, n[k - 3].val, n[k - 4].val, m_block[MMAP@[i as int] as int], f, x);
        lemma_g_step_value(i as int, n[k - 1].tval, n[k - 2].tval, n[k - 3].tval, n[k - 4].tval, m_prime_block[MMAP@[i as int] as int], g, y);
    }
    n_cond_nodes[k].val = x;
    n_cond_nodes[k].tval = y;
    proof {
        let v = vals(n);
        assert(v[i + 3] == n[k - 1].val && v[i + 2] == n[k - 2].val && v[i + 1] == n[k - 3].val && v[i as int] == n[k - 4].val);
        let tv = tvals(n);
        assert(tv[i + 3] == n[k - 1].tval && tv[i + 2] == n[k - 2].tval && tv[i + 1] == n[k - 3].tval && tv[i as int] == n[k - 4].tval);
    }
}

/// Steps `ind .. 32` of both computations, each with the round function G,
/// with their differentials; stops at the first that fails and returns it,
/// or `0x1337`.
#[verifier::spinoff_prover]
#[verifier::rlimit(30)]
pub fn round2_check_diffs(
    m_block: &mut [u32; 32],
    m_prime_block: &mut [u32; 16],
    n_cond_nodes: &mut [Node; 76],
    ind: usize,
    dt: [u32; 68],
) -> (r: i32)
    ensures
        *final(m_block) == *old(m_block),
        *final(m_prime_block) == *old(m_prime_block),
        round2_post(*old(n_cond_nodes), *final(n_cond_nodes), old(m_block)@, old(m_prime_block)@, dt@, ind as int, r),
{
    let ghost n0 = *n_cond_nodes;
    let ghost m = m_block@;
    let ghost mp = m_prime_block@;
    let lo = ind;
    let mut i = ind;
    while i < 32
        invariant
            lo == ind,
            lo <= i,
            lo < 32 ==> i <= 32,
            lo >= 32 ==> i == lo,
            m == m_block@,
            mp == m_prime_block@,
            n0 == *old(n_cond_nodes),
            same_conds(*n_cond_nodes, n0),
            g_steps_hold(vals(*n_cond_nodes), m, lo as int, i as int),
            g_steps_hold(tvals(*n_cond_nodes), mp, lo as int, i as int),
            agree_on(vals(*n_cond_nodes), vals(n0), 0, lo + 4),
            agree_on(vals(*n_cond_nodes), vals(n0), i + 4, 76),
            agree_on(tvals(*n_cond_nodes), tvals(n0), 0, lo + 4),
            agree_on(tvals(*n_cond_nodes), tvals(n0), i + 4, 76),
            checks_pass(vals(*n_cond_nodes), tvals(*n_cond_nodes), dt@, lo as int, i as int),
        decreases 32 - i,
    {
        let ghost nb = *n_cond_nodes;
        compute_pair_g(m_block, m_prime_block, n_cond_nodes, i);
        proof {
            let v = vals(nb);
            let tv = tvals(nb);
            let v2 = vals(*n_cond_nodes);
            let tv2 = tvals(*n_cond_nodes);
            let ii = i as int;
            assert(v2 =~= v.update(ii + 4, v2[ii + 4]));
            assert(tv2 =~= tv.update(ii + 4, tv2[ii + 4]));
            lemma_g_steps_frame(v, v2, m, lo as int, ii);
            lemma_g_steps_frame(tv, tv2, mp, lo as int, ii);
            assert(v2[ii + 3] == v[ii + 3] && v2[ii + 2] == v[ii + 2] && v2[ii + 1] == v[ii + 1] && v2[ii] == v[ii]);
            assert(tv2[ii + 3] == tv[ii + 3] && tv2[ii + 2] == tv[ii + 2] && tv2[ii + 1] == tv[ii + 1] && tv2[ii] == tv[ii]);
            assert(g_step_holds(v2, m, ii));
            assert(g_step_holds(tv2, mp, ii));
            assert(agree_on(v2, vals(n0), ii + 5, 76));
            assert(agree_on(tv2, tvals(n0), ii + 5, 76));
            assert(agree_on(v2, vals(n0), 0, lo + 4));
            assert(agree_on(tv2, tvals(n0), 0, lo + 4));
            lemma_checks_frame(v, tv, v2, tv2, dt@, lo as int, ii);
            assert(same_conds(*n_cond_nodes, n0)) by {
                assert forall|k: int| #![trigger n_cond_nodes[k]] 0 <= k < 76 implies n_cond_nodes[k].bf == n0[k].bf && n_cond_nodes[k].list == n0[k].list by {
                    assert(nb[k].bf == n0[k].bf && nb[k].list == n0[k].list);
                }
            }
        }
        let k = RELATIVE_INDEX + i;
        if n_cond_nodes[k].tval.wrapping_sub(n_cond_nodes[k].val) != dt[i] {
            return i as i32;
        }
        i += 1;
    }
    0x1337
}

/// Steps 32 .. 48 (round H) of both computations; from step 34 on the values
/// must differ in bit 31 alone.
pub fn round3_check_diffs(
    m_block: &mut [u32; 32],
    m_prime_block: &mut [u32; 16],
    n_cond_nodes: &mut [Node; 76],
) -> (r: i32)
    ensures
        *final(m_block) == *old(m_block),
        *final(m_prime_block) == *old(m_prime_block),
        forall|dt: Seq<u32>| round_post(*old(n_cond_nodes), *final(n_cond_nodes), old(m_block)@, old(m_prime_block)@, dt, 32, 48, r),
{
    let dt = [0u32; 68];
    let r = check_steps(m_block, m_prime_block, n_cond_nodes, 32, 48, &dt);
    proof {
        assert forall|d: Seq<u32>| round_post(*old(n_cond_nodes), *n_cond_nodes, old(m_block)@, old(m_prime_block)@, d, 32, 48, r) by {
            let v = vals(*n_cond_nodes);
            let tv = tvals(*n_cond_nodes);
            let e = if r == 0x1337 { 48int } else { r as int };
            assert forall|k: int| 32 <= k < e implies #[trigger] check_ok(v, tv, d, k) by {
                assert(check_ok(v, tv, dt@, k));
            }
            if r != 0x1337 {
                assert(!check_ok(v, tv, dt@, r as int));
            }
        }
    }
    r
}

/// Steps 48 .. 60 (round I) of both computations with their differentials.
pub fn round4_check_diffs(
    m_block: &mut [u32; 32],
    m_prime_block: &mut [u32; 16],
    n_cond_nodes: &mut [Node; 76],
    dt: [u32; 68],
) -> (r: i32)
    ensures
        *final(m_block) == *old(m_block),
        *final(m_prime_block) == *old(m_prime_block),
        round_post(*old(n_cond_nodes), *final(n_cond_nodes), old(m_block)@, old(m_prime_block)@, dt@, 48, 60, r),
{
    check_steps(m_block, m_prime_block, n_cond_nodes, 48, 60, &dt)
}

pub proof fn lemma_round_chain(
    n0: [Node; 76],
    n1: [Node; 76],
    n2: [Node; 76],
    m: Seq<u32>,
    mp: Seq<u32>,
    dt: Seq<u32>,
    a: int,
    b: int,
    c: int,
    r: i32,
)
    requires
        0 <= a <= b <= c <= 64,
        round_post(n0, n1, m, mp, dt, a, b, 0x1337),
        round_post(n1, n2, m, mp, dt, b, c, r),
    ensures
        round_post(n0, n2, m, mp, dt, a, c, r),
{
    let v0 = vals(n0);
    let v1 = vals(n1);
    let v2 = vals(n2);
    let tv0 = tvals(n0);
    let tv1 = tvals(n1);
    let tv2 = tvals(n2);
    let e = if r == 0x1337 {
        c
    } else {
        r + 1
    };
    assert(agree_on(v1, v2, a, b + 4)) by {
        assert forall|k: int| a <= k < b + 4 implies #[trigger] v1[k] == v2[k] by {
            assert(v2[k] == v1[k]);
        }
    }
    assert(agree_on(tv1, tv2, a, b + 4)) by {
        assert forall|k: int| a <= k < b + 4 implies #[trigger] tv1[k] == tv2[k] by {
            assert(tv2[k] == tv1[k]);
        }
    }
    lemma_steps_frame(v1, v2, m, a, b);
    lemma_steps_frame(tv1, tv2, mp, a, b);
    lemma_checks_frame(v1, tv1, v2, tv2, dt, a, b);
    assert(steps_hold(v2, m, a, e)) by {
        assert forall|k: int| a <= k < e implies #[trigger] step_holds(v2, m, k) by {
            if k < b {
                assert(step_holds(v2, m, k));
            } else {
                assert(step_holds(v2, m, k));
            }
        }
    }
    assert(steps_hold(tv2, mp, a, e)) by {
        assert forall|k: int| a <= k < e implies #[trigger] step_holds(tv2, mp, k) by {
            if k < b {
                assert(step_holds(tv2, mp, k));
            } else {
                assert(step_holds(tv2, mp, k));
            }
        }
    }
    let f = if r == 0x1337 {
        c
    } else {
        r as int
    };
    assert(checks_pass(v2, tv2, dt, a, f)) by {
        assert forall|k: int| a <= k < f implies #[trigger] check_ok(v2, tv2, dt, k) by {
            if k < b {
                assert(check_ok(v2, tv2, dt, k));
            } else {
                assert(check_ok(v2, tv2, dt, k));
            }
        }
    }
    assert(agree_on(v2, v0, 0, a + 4)) by {
        assert forall|k: int| 0 <= k < a + 4 implies #[trigger] v2[k] == v0[k] by {
            assert(v2[k] == v1[k]);
        }
    }
    assert(agree_on(tv2, tv0, 0, a + 4)) by {
        assert forall|k: int| 0 <= k < a + 4 implies #[trigger] tv2[k] == tv0[k] by {
            assert(tv2[k] == tv1[k]);
        }
    }
    assert(agree_on(v2, v0, e + 4, 76)) by {
        assert forall|k: int| e + 4 <= k < 76 implies #[trigger] v2[k] == v0[k] by {
            assert(v2[k] == v1[k]);
        }
    }
    assert(agree_on(tv2, tv0, e + 4, 76)) by {
        assert forall|k: int| e + 4 <= k < 76 implies #[trigger] tv2[k] == tv0[k] by {
            assert(tv2[k] == tv1[k]);
        }
    }
    assert(same_conds(n2, n0)) by {
        assert forall|k: int| #![trigger n2[k]] 0 <= k < 76 implies n2[k].bf == n0[k].bf && n2[k].list == n0[k].list by {
            assert(n1[k].bf == n0[k].bf && n1[k].list == n0[k].list);
        }
    }
}

/// The output words: node `72 + i` holds `Q[60 + i]` plus the chaining word
/// in node `i`, for both computations (both added to the first chaining value).
pub open spec fn out_words_hold(v: Seq<u32>, tv: Seq<u32>) -> bool {
    forall|i: int| 0 <= i < 4 ==> #[trigger] v[72 + i] == w32(v[64 + i] + v[i]) && tv[72 + i] == w32(tv[64 + i] + v[i])
}

/// Output word `i` (of 69, 70, 71) meets its conditions and its difference.
pub open spec fn out_ok(n: [Node; 76], dt: Seq<u32>, i: int) -> bool {
    fcheck(n@, i) == 0 && w32(tvals(n)[i + 4] - vals(n)[i + 4]) == dt[i - 4]
}

/// Steps 60 .. 64 of both computations, into nodes 64 .. 68.
fn last_steps(m_block: &[u32; 32], m_prime_block: &[u32; 16], n_cond_nodes: &mut [Node; 76])
    ensures
        ({
            let n0 = *old(n_cond_nodes);
            let n1 = *final(n_cond_nodes);
            &&& same_conds(n1, n0)
            &&& agree_on(vals(n1), vals(n0), 0, 64) && agree_on(tvals(n1), tvals(n0), 0, 64)
            &&& agree_on(vals(n1), vals(n0), 68, 76) && agree_on(tvals(n1), tvals(n0), 68, 76)
            &&& steps_hold(vals(n1), m_block@, 60, 64) && steps_hold(tvals(n1), m_prime_block@, 60, 64)
        }),
{
    let ghost n0 = *n_cond_nodes;
    for i in 60..64
        invariant
            n0 == *old(n_cond_nodes),
            same_conds(*n_cond_nodes, n0),
            agree_on(vals(*n_cond_nodes), vals(n0), 0, 64),
            agree_on(tvals(*n_cond_nodes), tvals(n0), 0, 64),
            agree_on(vals(*n_cond_nodes), vals(n0), i + 4, 76),
            agree_on(tvals(*n_cond_nodes), tvals(n0), i + 4, 76),
            steps_hold(vals(*n_cond_nodes), m_block@, 60, i as int),
            steps_hold(tvals(*n_cond_nodes), m_prime_block@, 60, i as int),
    {
        let ghost nb = *n_cond_nodes;
        compute_pair(m_block, m_prime_block, n_cond_nodes, i);
        proof {
            let v = vals(nb);
            let tv = tvals(nb);
            let v2 = vals(*n_cond_nodes);
            let tv2 = tvals(*n_cond_nodes);
            assert(v2 =~= v.update(i + 4, v2[i + 4]));
            assert(tv2 =~= tv.update(i + 4, tv2[i + 4]));
            assert(agree_on(v, v2, 60, i + 4));
            assert(agree_on(tv, tv2, 60, i + 4));
            lemma_steps_frame(v, v2, m_block@, 60, i as int);
            lemma_steps_frame(tv, tv2, m_prime_block@, 60, i as int);
            let ii = i as int;
            assert(v2[ii + 3] == v[ii + 3] && v2[ii + 2] == v[ii + 2] && v2[ii + 1] == v[ii + 1] && v2[ii] == v[ii]);
            assert(tv2[ii + 3] == tv[ii + 3] && tv2[ii + 2] == tv[ii + 2] && tv2[ii + 1] == tv[ii + 1] && tv2[ii] == tv[ii]);
            assert(step_holds(v2, m_block@, ii));
            assert(step_holds(tv2, m_prime_block@, ii));
            assert(same_conds(*n_cond_nodes, n0)) by {
                assert forall|k: int| #![trigger n_cond_nodes[k]] 0 <= k < 76 implies n_cond_nodes[k].bf == n0[k].bf && n_cond_nodes[k].list == n0[k].list by {
                    assert(nb[k].bf == n0[k].bf && nb[k].list == n0[k].list);
                }
            }
        }
    }
}

/// The output words: node `72 + i` gets `Q[60 + i]` and `Q'[60 + i]` each
/// plus the chaining word in node `i`.
fn output_words(n_cond_nodes: &mut [Node; 76])
    ensures
        same_conds(*final(n_cond_nodes), *old(n_cond_nodes)),
        agree_on(vals(*final(n_cond_nodes)), vals(*old(n_cond_nodes)), 0, 72),
        agree_on(tvals(*final(n_cond_nodes)), tvals(*old(n_cond_nodes)), 0, 72),
        out_words_hold(vals(*final(n_cond_nodes)), tvals(*final(n_cond_nodes))),
{
    let ghost n0 = *n_cond_nodes;
    let r = RELATIVE_INDEX;
    let a = n_cond_nodes[r + 60].val.wrapping_add(n_cond_nodes[r - 4].val);
    let d = n_cond_nodes[r + 61].val.wrapping_add(n_cond_nodes[r - 3].val);
    let c = n_cond_nodes[r + 62].val.wrapping_add(n_cond_nodes[r - 2].val);
    let b = n_cond_nodes[r + 63].val.wrapping_add(n_cond_nodes[r - 1].val);
    let ta = n_cond_nodes[r + 60].tval.wrapping_add(n_cond_nodes[r - 4].val);
    let td = n_cond_nodes[r + 61].tval.wrapping_add(n_cond_nodes[r - 3].val);
    let tc = n_cond_nodes[r + 62].tval.wrapping_add(n_cond_nodes[r - 2].val);
    let tb = n_cond_nodes[r + 63].tval.wrapping_add(n_cond_nodes[r - 1].val);
    n_cond_nodes[r + 68].val = a;
    n_cond_nodes[r + 69].val = d;
    n_cond_nodes[r + 70].val = c;
    n_cond_nodes[r + 71].val = b;
    n_cond_nodes[r + 68].tval = ta;
    n_cond_nodes[r + 69].tval = td;
    n_cond_nodes[r + 70].tval = tc;
    n_cond_nodes[r + 71].tval = tb;
    proof {
        let v0 = vals(n0);
        let t0 = tvals(n0);
        let v = vals(*n_cond_nodes);
        let tv = tvals(*n_cond_nodes);
        assert(v =~= v0.update(72, a).update(73, d).update(74, c).update(75, b));
        assert(tv =~= t0.update(72, ta).update(73, td).update(74, tc).update(75, tb));
        assert(v0[64] == n0[64].val && v0[65] == n0[65].val && v0[66] == n0[66].val && v0[67] == n0[67].val);
        assert(v0[0] == n0[0].val && v0[1] == n0[1].val && v0[2] == n0[2].val && v0[3] == n0[3].val);
        assert(t0[64] == n0[64].tval && t0[65] == n0[65].tval && t0[66] == n0[66].tval && t0[67] == n0[67].tval);
        assert forall|i: int| 0 <= i < 4 implies #[trigger] v[72 + i] == w32(v[64 + i] + v[i]) && tv[72 + i] == w32(tv[64 + i] + v[i]) by {
            if i == 0 {} else if i == 1 {} else if i == 2 {} else {}
        }
        assert forall|j: int| #![trigger n_cond_nodes[j]] 0 <= j < 76 implies n_cond_nodes[j].bf == n0[j].bf && n_cond_nodes[j].list == n0[j].list by {}
    }
}

/// The checks on output words 69 .. 72 up to the first that fails (returned), or -1.
fn output_checks(n_cond_nodes: &mut [Node; 76], dt: &[u32; 68]) -> (r: i32)
    requires
        forall|i: int| 69 <= i < 72 ==> #[trigger] fcheck_usable(*old(n_cond_nodes), i),
    ensures
        *final(n_cond_nodes) == *old(n_cond_nodes),
        r == -1 || 69 <= r < 72,
        forall|i: int| 69 <= i < (if r == -1 { 72 } else { r as int }) ==> #[trigger] out_ok(*old(n_cond_nodes), dt@, i),
        r != -1 ==> !out_ok(*old(n_cond_nodes), dt@, r as int),
{
    let ghost nd = *n_cond_nodes;
    let mut i: i32 = 69;
    while i < 72
        invariant
            69 <= i <= 72,
            *n_cond_nodes == nd,
            nd == *old(n_cond_nodes),
            forall|j: int| 69 <= j < 72 ==> #[trigger] fcheck_usable(nd, j),
            forall|j: int| 69 <= j < i ==> #[trigger] out_ok(nd, dt@, j),
        decreases 72 - i,
    {
        proof {
            assert(fcheck_usable(nd, i as int));
        }
        if fcheck_cond(i, n_cond_nodes) != 0 {
            return i;
        }
        let k = RELATIVE_INDEX + i as usize;
        if n_cond_nodes[k].tval.wrapping_sub(n_cond_nodes[k].val) != dt[i as usize - 4] {
            proof {
                assert(tvals(nd)[i + 4] == nd[k as int].tval && vals(nd)[i + 4] == nd[k as int].val);
            }
            return i;
        }
        proof {
            assert(tvals(nd)[i + 4] == nd[k as int].tval && vals(nd)[i + 4] == nd[k as int].val);
        }
        i += 1;
    }
    -1
}

/// The second message of a first-block pair: the first 16 words of `m` with
/// `2^31` added to words 4 and 14 and `2^15` to word 11.
pub open spec fn first_block_prime(m: Seq<u32>) -> Seq<u32> {
    let w = m.subrange(0, 16);
    w.update(4, w32(w[4] + 0x80000000)).update(11, w32(w[11] + 0x8000)).update(14, w32(w[14] + 0x80000000))
}

/// The second message of a first-block pair differs from the first in words
/// 4 and 14 by `+2^31` and in word 11 by `+2^15` (mod `2^32`), and nowhere else.
pub proof fn lemma_first_block_prime(m: Seq<u32>)
    requires
        m.len() >= 16,
    ensures
        first_block_prime(m).len() == 16,
        forall|k: int| 0 <= k < 16 && k != 4 && k != 11 && k != 14 ==> #[trigger] first_block_prime(m)[k] == m[k],
        w32(first_block_prime(m)[4] - m[4]) == 0x80000000,
        w32(first_block_prime(m)[11] - m[11]) == 0x8000,
        w32(first_block_prime(m)[14] - m[14]) == 0x80000000,
{
    lemma_w32_absorb(m[4] + 0x80000000, m[4] as int);
    lemma_w32_absorb(m[11] + 0x8000, m[11] as int);
    lemma_w32_absorb(m[14] + 0x80000000, m[14] as int);
}

/// The second computation's values as `check_diffs` starts from them: from
/// step 20 on, `Q'[15] .. Q'[19]` are taken to be `Q[k] + dt[k]`.
pub open spec fn start_tvals(n: [Node; 76], dt: Seq<u32>, index: i32) -> Seq<u32> {
    if index == 20 {
        Seq::new(76, |k: int| if 19 <= k < 24 { w32(n[k].val + dt[k - 4]) } else { n[k].tval })
    } else {
        tvals(n)
    }
}

/// The first step `check_diffs` computes: 20 when it resumes there, else 0.
pub open spec fn diffs_start(index: i32) -> int {
    if index == 20 {
        20
    } else {
        0
    }
}

/// What `check_diffs` leaves behind and returns: either the first step whose
/// differential fails (as `run_post` with the bound 60), or, with all steps
/// computed and their differentials met, the first output word that fails its
/// conditions or difference, or -1 when none does.
pub open spec fn diffs_post(n0: [Node; 76], n1: [Node; 76], m: Seq<u32>, dt: Seq<u32>, index: i32, r: i32) -> bool {
    let st = diffs_start(index);
    let mp = first_block_prime(m);
    let v0 = vals(n0);
    let tv0 = start_tvals(n0, dt, index);
    let v = vals(n1);
    let tv = tvals(n1);
    &&& same_conds(n1, n0)
    &&& if st <= r < 60 {
        run_post(v0, tv0, v, tv, m, mp, dt, st, 60, r)
    } else {
        &&& r == -1 || 69 <= r < 72
        &&& steps_hold(v, m, st, 64) && steps_hold(tv, mp, st, 64)
        &&& agree_on(v, v0, 0, st + 4) && agree_on(tv, tv0, 0, st + 4)
        &&& agree_on(v, v0, 68, 72) && agree_on(tv, tv0, 68, 72)
        &&& checks_pass(v, tv, dt, st, 60)
        &&& out_words_hold(v, tv)
        &&& forall|i: int| 69 <= i < (if r == -1 { 72 } else { r as int }) ==> #[trigger] out_ok(n1, dt, i)
        &&& r != -1 ==> !out_ok(n1, dt, r as int)
    }
}

/// The run of both computations from where `check_diffs` starts (the values
/// before it as in `n0`, every later value computed by its step) meets the
/// differential path through step 59: the inputs on which `check_diffs` goes
/// on to the output words.
pub open spec fn diffs_reach_output(n0: [Node; 76], m: Seq<u32>, dt: Seq<u32>, index: i32) -> bool {
    let st = diffs_start(index);
    let mp = first_block_prime(m);
    forall|v: Seq<u32>, tv: Seq<u32>|
        agree_on(v, vals(n0), 0, st + 4) && agree_on(tv, start_tvals(n0, dt, index), 0, st + 4)
            && #[trigger] steps_hold(v, m, st, 60) && #[trigger] steps_hold(tv, mp, st, 60) ==> checks_pass(
            v,
            tv,
            dt,
            st,
            60,
        )
}

/// Two runs that agree before step `lo` agree through step `hi - 1`.
pub proof fn lemma_steps_unique(a: Seq<u32>, b: Seq<u32>, m: Seq<u32>, lo: int, hi: int)
    requires
        0 <= lo <= hi,
        agree_on(a, b, 0, lo + 4),
        steps_hold(a, m, lo, hi),
        steps_hold(b, m, lo, hi),
    ensures
        agree_on(a, b, 0, hi + 4),
    decreases hi - lo,
{
    if hi > lo {
        lemma_steps_unique(a, b, m, lo, hi - 1);
        let k = hi - 1;
        assert(step_holds(a, m, k) && step_holds(b, m, k));
        assert(a[k + 3] == b[k + 3] && a[k + 2] == b[k + 2] && a[k + 1] == b[k + 1] && a[k] == b[k]);
        assert forall|j: int| 0 <= j < hi + 4 implies #[trigger] a[j] == b[j] by {
            if j < k + 4 {
                assert(a[j] == b[j]);
            }
        }
    }
}

/// A run of `check_diffs` that met the whole path shows that its inputs reach
/// the output words.
proof fn lemma_reach_output(n0: [Node; 76], v: Seq<u32>, tv: Seq<u32>, m: Seq<u32>, dt: Seq<u32>, index: i32)
    requires
        agree_on(v, vals(n0), 0, diffs_start(index) + 4),
        agree_on(tv, start_tvals(n0, dt, index), 0, diffs_start(index) + 4),
        steps_hold(v, m, diffs_start(index), 60),
        steps_hold(tv, first_block_prime(m), diffs_start(index), 60),
        checks_pass(v, tv, dt, diffs_start(index), 60),
    ensures
        diffs_reach_output(n0, m, dt, index),
{
    let st = diffs_start(index);
    let mp = first_block_prime(m);
    assert forall|v2: Seq<u32>, tv2: Seq<u32>|
        agree_on(v2, vals(n0), 0, st + 4) && agree_on(tv2, start_tvals(n0, dt, index), 0, st + 4)
            && #[trigger] steps_hold(v2, m, st, 60) && #[trigger] steps_hold(tv2, mp, st, 60) implies checks_pass(
        v2,
        tv2,
        dt,
        st,
        60,
    ) by {
        assert(agree_on(v, v2, 0, st + 4)) by {
            assert forall|j: int| 0 <= j < st + 4 implies #[trigger] v[j] == v2[j] by {
                assert(v[j] == vals(n0)[j] && v2[j] == vals(n0)[j]);
            }
        }
        assert(agree_on(tv, tv2, 0, st + 4)) by {
            assert forall|j: int| 0 <= j < st + 4 implies #[trigger] tv[j] == tv2[j] by {
                assert(tv[j] == start_tvals(n0, dt, index)[j] && tv2[j] == start_tvals(n0, dt, index)[j]);
            }
        }
        lemma_steps_unique(v, v2, m, st, 60);
        lemma_steps_unique(tv, tv2, mp, st, 60);
        assert(agree_on(v, v2, st + 4, 64)) by {
            assert forall|j: int| st + 4 <= j < 64 implies #[trigger] v[j] == v2[j] by {
                assert(0 <= j < 64);
            }
        }
        assert(agree_on(tv, tv2, st + 4, 64)) by {
            assert forall|j: int| st + 4 <= j < 64 implies #[trigger] tv[j] == tv2[j] by {
                assert(0 <= j < 64);
            }
        }
        lemma_checks_frame(v, tv, v2, tv2, dt, st, 60);
    }
}

pub proof fn lemma_same_conds_trans(a: [Node; 76], b: [Node; 76], c: [Node; 76])
    requires
        same_conds(a, b),
        same_conds(b, c),
    ensures
        same_conds(a, c),
{
    assert forall|k: int| #![trigger a[k]] 0 <= k < 76 implies a[k].bf == c[k].bf && a[k].list == c[k].list by {
        assert(b[k].bf == c[k].bf && b[k].list == c[k].list);
    }
}

/// `check_diffs` treats every index other than 20 as 0: its outcome and the
/// table it leaves are described the same way.
pub proof fn lemma_check_diffs_index(n0: [Node; 76], n1: [Node; 76], m: Seq<u32>, dt: Seq<u32>, index: i32, r: i32)
    requires
        index != 20,
    ensures
        diffs_post(n0, n1, m, dt, index, r) == diffs_post(n0, n1, m, dt, 0, r),
{
}

/// How far a `diffs_post` outcome computed the steps: to the failing step,
/// or through step 63.
pub open spec fn diffs_end(index: i32, r: i32) -> int {
    if diffs_start(index) <= r < 60 {
        r + 1
    } else {
        64
    }
}

/// Two outcomes that `diffs_post` allows from one table agree on every value
/// up to where both computed.
proof fn lemma_diffs_prefix(
    n0: [Node; 76],
    n1: [Node; 76],
    n2: [Node; 76],
    m: Seq<u32>,
    dt: Seq<u32>,
    index: i32,
    r1: i32,
    r2: i32,
    e: int,
)
    requires
        diffs_post(n0, n1, m, dt, index, r1),
        diffs_post(n0, n2, m, dt, index, r2),
        diffs_start(index) <= e,
        e <= diffs_end(index, r1),
        e <= diffs_end(index, r2),
    ensures
        agree_on(vals(n1), vals(n2), 0, e + 4),
        agree_on(tvals(n1), tvals(n2), 0, e + 4),
{
    let st = diffs_start(index);
    let mp = first_block_prime(m);
    let v0 = vals(n0);
    let tv0 = start_tvals(n0, dt, index);
    let (v1, t1, v2, t2) = (vals(n1), tvals(n1), vals(n2), tvals(n2));
    assert(agree_on(v1, v2, 0, st + 4)) by {
        assert forall|k: int| 0 <= k < st + 4 implies #[trigger] v1[k] == v2[k] by {
            assert(v1[k] == v0[k] && v2[k] == v0[k]);
        }
    }
    assert(agree_on(t1, t2, 0, st + 4)) by {
        assert forall|k: int| 0 <= k < st + 4 implies #[trigger] t1[k] == t2[k] by {
            assert(t1[k] == tv0[k] && t2[k] == tv0[k]);
        }
    }
    assert(steps_hold(v1, m, st, e) && steps_hold(t1, mp, st, e)) by {
        assert forall|k: int| st <= k < e implies #[trigger] step_holds(v1, m, k) && step_holds(t1, mp, k) by {
            assert(step_holds(v1, m, k) && step_holds(t1, mp, k));
        }
    }
    assert(steps_hold(v2, m, st, e) && steps_hold(t2, mp, st, e)) by {
        assert forall|k: int| st <= k < e implies #[trigger] step_holds(v2, m, k) && step_holds(t2, mp, k) by {
            assert(step_holds(v2, m, k) && step_holds(t2, mp, k));
        }
    }
    lemma_steps_unique(v1, v2, m, st, e);
    lemma_steps_unique(t1, t2, mp, st, e);
}

/// `check_diffs` is a function of its inputs: two outcomes that `diffs_post`
/// allows from one table, one block and one difference table have the same
/// result and leave the same table.
pub proof fn lemma_diffs_post_unique(
    n0: [Node; 76],
    n1: [Node; 76],
    n2: [Node; 76],
    m: Seq<u32>,
    dt: Seq<u32>,
    index: i32,
    r1: i32,
    r2: i32,
)
    requires
        diffs_post(n0, n1, m, dt, index, r1),
        diffs_post(n0, n2, m, dt, index, r2),
    ensures
        r1 == r2,
        n1@ == n2@,
{
    let st = diffs_start(index);
    let v0 = vals(n0);
    let tv0 = start_tvals(n0, dt, index);
    let (v1, t1, v2, t2) = (vals(n1), tvals(n1), vals(n2), tvals(n2));
    let f1 = st <= r1 < 60;
    let f2 = st <= r2 < 60;
    if f1 && (!f2 || r1 < r2) {
        lemma_diffs_prefix(n0, n1, n2, m, dt, index, r1, r2, r1 + 1);
        assert(v1[r1 + 4] == v2[r1 + 4] && t1[r1 + 4] == t2[r1 + 4]);
        assert(check_ok(v2, t2, dt, r1 as int));
        assert(false);
    } else if f2 && (!f1 || r2 < r1) {
        lemma_diffs_prefix(n0, n1, n2, m, dt, index, r1, r2, r2 + 1);
        assert(v1[r2 + 4] == v2[r2 + 4] && t1[r2 + 4] == t2[r2 + 4]);
        assert(check_ok(v1, t1, dt, r2 as int));
        assert(false);
    }
    let e = diffs_end(index, r1);
    lemma_diffs_prefix(n0, n1, n2, m, dt, index, r1, r2, e);
    assert(v1 =~= v2) by {
        assert forall|k: int| 0 <= k < 76 implies #[trigger] v1[k] == v2[k] by {
            if k >= e + 4 {
                if f1 {
                    assert(v1[k] == v0[k] && v2[k] == v0[k]);
                } else if k < 72 {
                    assert(v1[k] == v0[k] && v2[k] == v0[k]);
                } else {
                    assert(v1[72 + (k - 72)] == w32(v1[64 + (k - 72)] + v1[k - 72]));
                    assert(v2[72 + (k - 72)] == w32(v2[64 + (k - 72)] + v2[k - 72]));
                }
            }
        }
    }
    assert(t1 =~= t2) by {
        assert forall|k: int| 0 <= k < 76 implies #[trigger] t1[k] == t2[k] by {
            if k >= e + 4 {
                if f1 {
                    assert(t1[k] == tv0[k] && t2[k] == tv0[k]);
                } else if k < 72 {
                    assert(t1[k] == tv0[k] && t2[k] == tv0[k]);
                } else {
                    assert(v1[72 + (k - 72)] == w32(v1[64 + (k - 72)] + v1[k - 72]));
                    assert(v2[72 + (k - 72)] == w32(v2[64 + (k - 72)] + v2[k - 72]));
                    assert(t1[72 + (k - 72)] == w32(t1[64 + (k - 72)] + v1[k - 72]));
                    assert(t2[72 + (k - 72)] == w32(t2[64 + (k - 72)] + v2[k - 72]));
                    assert(v1[k - 72] == v2[k - 72]);
                }
            }
        }
    }
    assert(n1@ =~= n2@) by {
        assert forall|k: int| 0 <= k < 76 implies #[trigger] n1@[k] == n2@[k] by {
            assert(v1[k] == n1[k].val && v2[k] == n2[k].val && t1[k] == n1[k].tval && t2[k] == n2[k].tval);
            assert(n1[k].bf == n0[k].bf && n1[k].list == n0[k].list);
            assert(n2[k].bf == n0[k].bf && n2[k].list == n0[k].list);
        }
    }
    if !f1 {
        assert(out_ok(n1, dt, 69) == out_ok(n2, dt, 69));
        assert(out_ok(n1, dt, 70) == out_ok(n2, dt, 70));
        assert(out_ok(n1, dt, 71) == out_ok(n2, dt, 71));
        if r1 != r2 {
            if r1 == -1 {
                assert(out_ok(n1, dt, r2 as int));
            } else if r2 == -1 {
                assert(out_ok(n2, dt, r1 as int));
            } else if r1 < r2 {
                assert(out_ok(n2, dt, r1 as int));
            } else {
                assert(out_ok(n1, dt, r2 as int));
            }
        }
    }
}

/// For every index other than 20, `check_diffs` gives the same result and
/// leaves the same table as with index 0.
pub proof fn lemma_check_diffs_index_same(
    n0: [Node; 76],
    n1: [Node; 76],
    n2: [Node; 76],
    m: Seq<u32>,
    dt: Seq<u32>,
    index: i32,
    r1: i32,
    r2: i32,
)
    requires
        index != 20,
        diffs_post(n0, n1, m, dt, index, r1),
        diffs_post(n0, n2, m, dt, 0, r2),
    ensures
        r1 == r2,
        n1@ == n2@,
{
    lemma_check_diffs_index(n0, n1, m, dt, index, r1);
    lemma_diffs_post_unique(n0, n1, n2, m, dt, 0, r1, r2);
}

/// The end of a successful run of the rounds, the last steps, the output
/// words and their checks, seen from the start of the rounds.
proof fn lemma_diffs_success(
    ns: [Node; 76],
    n4: [Node; 76],
    n5: [Node; 76],
    n6: [Node; 76],
    m: Seq<u32>,
    mp: Seq<u32>,
    dt: Seq<u32>,
    st: int,
)
    requires
        0 <= st <= 20,
        round_post(ns, n4, m, mp, dt, st, 60, 0x1337),
        same_conds(n5, n4),
        agree_on(vals(n5), vals(n4), 0, 64) && agree_on(tvals(n5), tvals(n4), 0, 64),
        agree_on(vals(n5), vals(n4), 68, 76) && agree_on(tvals(n5), tvals(n4), 68, 76),
        steps_hold(vals(n5), m, 60, 64) && steps_hold(tvals(n5), mp, 60, 64),
        same_conds(n6, n5),
        agree_on(vals(n6), vals(n5), 0, 72) && agree_on(tvals(n6), tvals(n5), 0, 72),
        out_words_hold(vals(n6), tvals(n6)),
    ensures
        same_conds(n6, ns),
        steps_hold(vals(n6), m, st, 64) && steps_hold(tvals(n6), mp, st, 64),
        agree_on(vals(n6), vals(ns), 0, st + 4) && agree_on(tvals(n6), tvals(ns), 0, st + 4),
        agree_on(vals(n6), vals(ns), 68, 72) && agree_on(tvals(n6), tvals(ns), 68, 72),
        checks_pass(vals(n6), tvals(n6), dt, st, 60),
{
    let v4 = vals(n4);
    let v5 = vals(n5);
    let v6 = vals(n6);
    let t4 = tvals(n4);
    let t5 = tvals(n5);
    let t6 = tvals(n6);
    lemma_same_conds_trans(n6, n5, n4);
    lemma_same_conds_trans(n6, n4, ns);
    assert(agree_on(v4, v6, st, 64)) by {
        assert forall|k: int| st <= k < 64 implies #[trigger] v4[k] == v6[k] by {
            assert(v6[k] == v5[k] && v5[k] == v4[k]);
        }
    }
    assert(agree_on(t4, t6, st, 64)) by {
        assert forall|k: int| st <= k < 64 implies #[trigger] t4[k] == t6[k] by {
            assert(t6[k] == t5[k] && t5[k] == t4[k]);
        }
    }
    assert(agree_on(v5, v6, 60, 68)) by {
        assert forall|k: int| 60 <= k < 68 implies #[trigger] v5[k] == v6[k] by {
            assert(v6[k] == v5[k]);
        }
    }
    assert(agree_on(t5, t6, 60, 68)) by {
        assert forall|k: int| 60 <= k < 68 implies #[trigger] t5[k] == t6[k] by {
            assert(t6[k] == t5[k]);
        }
    }
    lemma_steps_frame(v4, v6, m, st, 60);
    lemma_steps_frame(t4, t6, mp, st, 60);
    lemma_steps_frame(v5, v6, m, 60, 64);
    lemma_steps_frame(t5, t6, mp, 60, 64);
    assert(steps_hold(v6, m, st, 64)) by {
        assert forall|k: int| st <= k < 64 implies #[trigger] step_holds(v6, m, k) by {
            if k < 60 {
                assert(step_holds(v6, m, k));
            } else {
                assert(step_holds(v6, m, k));
            }
        }
    }
    assert(steps_hold(t6, mp, st, 64)) by {
        assert forall|k: int| st <= k < 64 implies #[trigger] step_holds(t6, mp, k) by {
            if k < 60 {
                assert(step_holds(t6, mp, k));
            } else {
                assert(step_holds(t6, mp, k));
            }
        }
    }
    lemma_checks_frame(v4, t4, v6, t6, dt, st, 60);
    assert(agree_on(v6, vals(ns), 0, st + 4)) by {
        assert forall|k: int| 0 <= k < st + 4 implies #[trigger] v6[k] == vals(ns)[k] by {
            assert(v6[k] == v5[k] && v5[k] == v4[k]);
        }
    }
    assert(agree_on(t6, tvals(ns), 0, st + 4)) by {
        assert forall|k: int| 0 <= k < st + 4 implies #[trigger] t6[k] == tvals(ns)[k] by {
            assert(t6[k] == t5[k] && t5[k] == t4[k]);
        }
    }
    assert(agree_on(v6, vals(ns), 68, 72)) by {
        assert forall|k: int| 68 <= k < 72 implies #[trigger] v6[k] == vals(ns)[k] by {
            assert(v6[k] == v5[k] && v5[k] == v4[k]);
        }
    }
    assert(agree_on(t6, tvals(ns), 68, 72)) by {
        assert forall|k: int| 68 <= k < 72 implies #[trigger] t6[k] == tvals(ns)[k] by {
            assert(t6[k] == t5[k] && t5[k] == t4[k]);
        }
    }
}

/// Recomputes both computations, from step 0 or (with `index == 20`) from
/// step 20 after taking `Q'[15] .. Q'[19]` to be `Q[k] + dt[k]`, checking the
/// differential path as it goes; returns the first failing step, or the first
/// failing output word, or -1 when the whole path and the output hold.
pub fn check_diffs(m_block: &mut [u32; 32], n_cond_nodes: &mut [Node; 76], index: i32, dt: [u32; 68]) -> (r: i32)
    requires
        diffs_reach_output(*old(n_cond_nodes), old(m_block)@, dt@, index) ==> forall|i: int|
            69 <= i < 72 ==> #[trigger] fcheck_usable(*old(n_cond_nodes), i),
    ensures
        *final(m_block) == *old(m_block),
        diffs_post(*old(n_cond_nodes), *final(n_cond_nodes), old(m_block)@, dt@, index, r),
{
    let ghost n0 = *n_cond_nodes;
    let mut m_prime_block: [u32; 16] = [0; 16];
    for i in 0..16
        invariant
            forall|k: int| 0 <= k < i ==> #[trigger] m_prime_block[k] == m_block[k],
    {
        m_prime_block[i] = m_block[i];
    }
    m_prime_block[4] = addsub_bit(m_prime_block[4], 31, 1);
    m_prime_block[11] = addsub_bit(m_prime_block[11], 15, 1);
    m_prime_block[14] = addsub_bit(m_prime_block[14], 31, 1);
    proof {
        lemma_bit_values();
        assert(m_prime_block@ =~= first_block_prime(m_block@));
    }
    let ghost mp = m_prime_block@;
    let ghost m = m_block@;

    if index == 20 {
        for i in 15..20
            invariant
                same_conds(*n_cond_nodes, n0),
                vals(*n_cond_nodes) == vals(n0),
                forall|k: int| 0 <= k < 76 ==> #[trigger] tvals(*n_cond_nodes)[k] == if 19 <= k < i + 4 {
                    w32(n0[k].val + dt@[k - 4])
                } else {
                    n0[k].tval
                },
        {
            let ghost nb = *n_cond_nodes;
            let k = RELATIVE_INDEX + i;
            n_cond_nodes[k].tval = n_cond_nodes[k].val.wrapping_add(dt[i]);
            proof {
                assert(vals(*n_cond_nodes) =~= vals(nb));
                assert forall|j: int| #![trigger n_cond_nodes[j]] 0 <= j < 76 implies n_cond_nodes[j].bf == nb[j].bf && n_cond_nodes[j].list == nb[j].list by {}
                lemma_same_conds_trans(*n_cond_nodes, nb, n0);
                assert forall|j: int| 0 <= j < 76 implies #[trigger] tvals(*n_cond_nodes)[j] == if 19 <= j < i + 5 {
                    w32(n0[j].val + dt@[j - 4])
                } else {
                    n0[j].tval
                } by {
                    if j != k {
                        assert(tvals(*n_cond_nodes)[j] == tvals(nb)[j]);
                    } else {
                        assert(vals(nb)[j] == nb[j].val && vals(n0)[j] == n0[j].val);
                    }
                }
            }
        }
    }
    let ghost ns = *n_cond_nodes;
    proof {
        assert(tvals(ns) =~= start_tvals(n0, dt@, index));
    }
    let mut local_index: usize = 20;
    if index != 20 {
        let ret = round1_check_diffs(m_block, &mut m_prime_block, n_cond_nodes, dt);
        if ret != 0x1337 {
            proof {
                lemma_same_conds_trans(*n_cond_nodes, ns, n0);
            }
            return ret;
        }
        local_index = 16;
    }
    let ghost n1 = *n_cond_nodes;
    proof {
        if index == 20 {
            assert(n1 == ns);
            assert(round_post(ns, n1, m, mp, dt@, 20, 20, 0x1337));
        }
    }
    let ret = round2_check_diffs(m_block, &mut m_prime_block, n_cond_nodes, local_index, dt);
    proof {
        lemma_round2_post(n1, *n_cond_nodes, m, mp, dt@, local_index as int, ret);
        lemma_round_chain(ns, n1, *n_cond_nodes, m, mp, dt@, diffs_start(index), local_index as int, 32, ret);
    }
    if ret != 0x1337 {
        proof {
            lemma_same_conds_trans(*n_cond_nodes, ns, n0);
        }
        return ret;
    }
    let ghost n2 = *n_cond_nodes;
    let ret = round3_check_diffs(m_block, &mut m_prime_block, n_cond_nodes);
    proof {
        lemma_round_chain(ns, n2, *n_cond_nodes, m, mp, dt@, diffs_start(index), 32, 48, ret);
    }
    if ret != 0x1337 {
        proof {
            lemma_same_conds_trans(*n_cond_nodes, ns, n0);
        }
        return ret;
    }
    let ghost n3 = *n_cond_nodes;
    let ret = round4_check_diffs(m_block, &mut m_prime_block, n_cond_nodes, dt);
    proof {
        lemma_round_chain(ns, n3, *n_cond_nodes, m, mp, dt@, diffs_start(index), 48, 60, ret);
    }
    if ret != 0x1337 {
        proof {
            lemma_same_conds_trans(*n_cond_nodes, ns, n0);
        }
        return ret;
    }
    let ghost n4 = *n_cond_nodes;
    last_steps(m_block, &m_prime_block, n_cond_nodes);
    let ghost n5 = *n_cond_nodes;
    output_words(n_cond_nodes);
    let ghost n6 = *n_cond_nodes;
    proof {
        lemma_diffs_success(ns, n4, n5, n6, m, mp, dt@, diffs_start(index));
        lemma_same_conds_trans(n6, ns, n0);
        assert(vals(ns) == vals(n0));
        lemma_reach_output(n0, vals(n6), tvals(n6), m, dt@, index);
        assert forall|i: int| 69 <= i < 72 implies #[trigger] fcheck_usable(n6, i) by {
            assert(fcheck_usable(n0, i));
            assert(n6[4 + i].bf == n0[4 + i].bf && n6[4 + i].list == n0[4 + i].list);
        }
    }
    let r = output_checks(n_cond_nodes, &dt);
    r
}

// ---------------------------------------------------------------------------
// Klima's tunnel search for steps 16 .. 20.
// ---------------------------------------------------------------------------

/// `rotr(q - q1, s) - f - q4 - t`: the message word that a step with round
/// value `f`, rotation `s` and constant `t` maps from `q1, q4` onto `q`.
fn back_word(q: u32, q1: u32, f: u32, q4: u32, s: i32, t: u32) -> (r: u32)
    requires
        0 < s < 32,
    ensures
        r == w32(rotr(w32(q - q1), s as u32) - f - q4 - t),
{
    crs(q.wrapping_sub(q1), s).wrapping_sub(f).wrapping_sub(q4).wrapping_sub(t)
}

/// `q1 + rotl(f + q4 + w + t, s)`: one step with round value `f`, rotation
/// `s` and constant `t` applied to the word `w`.
fn forward_word(q1: u32, f: u32, q4: u32, w: u32, s: i32, t: u32) -> (x: u32)
    requires
        0 < s < 32,
    ensures
        x == w32(q1 + rotl(w32(f + q4 + w + t), s as u32)),
{
    q1.wrapping_add(cls(w.wrapping_add(q4).wrapping_add(f).wrapping_add(t), s))
}

/// The word `back_word` gives for step `i` is the `unstep` word.
proof fn lemma_unstep_value(i: int, q: u32, q1: u32, q2: u32, q3: u32, q4: u32, r: u32)
    requires
        0 <= i < 64,
        r == w32(rotr(w32(q - q1), s_of(i)) - round_fn(i, q1, q2, q3) - q4 - t_of(i)),
    ensures
        r == unstep(i, q, q1, q2, q3, q4),
{
    reveal(unstep);
}

/// The word `forward_word` gives for step `i` is the step value.
proof fn lemma_forward_value(i: int, q1: u32, q2: u32, q3: u32, q4: u32, w: u32, x: u32)
    requires
        0 <= i < 64,
        x == w32(q1 + rotl(w32(round_fn(i, q1, q2, q3) + q4 + w + t_of(i)), s_of(i))),
    ensures
        x == md5_step(i, q1, q2, q3, q4, w),
{
    reveal(md5_step);
}

/// The words 0 .. 5 and the values `Q[0]`, `Q[1]`, `Q[20]` that `klima4_9`
/// derives from `Q[19]` and the values it keeps.
fn klima_words(
    q19: u32,
    q18: u32,
    q17: u32,
    q16: u32,
    q15: u32,
    q14: u32,
    q13: u32,
    q12: u32,
    q2: u32,
    q3: u32,
    q4: u32,
    q5: u32,
    a: u32,
    b: u32,
    c: u32,
    d: u32,
) -> (r: (u32, u32, u32, u32, u32, u32, u32, u32, u32))
    ensures
        r.0 == unstep(19, q19, q18, q17, q16, q15),
        r.6 == md5_step(0, b, c, d, a, r.0),
        r.1 == unstep(16, q16, q15, q14, q13, q12),
        r.7 == md5_step(1, r.6, b, c, d, r.1),
        r.2 == unstep(2, q2, r.7, r.6, b, c),
        r.3 == unstep(3, q3, q2, r.7, r.6, b),
        r.4 == unstep(4, q4, q3, q2, r.7, r.6),
        r.5 == unstep(5, q5, q4, q3, q2, r.7),
        r.8 == md5_step(20, q19, q18, q17, q16, r.5),
{
    let m0 = back_word(q19, q18, md5_g(q18, q17, q16), q15, 20, 0xe9b6c7aa);
    proof {
        lemma_unstep_value(19, q19, q18, q17, q16, q15, m0);
    }
    let q0 = forward_word(b, md5_f(b, c, d), a, m0, SMAP[0], TMAP[0]);
    proof {
        lemma_forward_value(0, b, c, d, a, m0, q0);
    }
    let m1 = back_word(q16, q15, md5_g(q15, q14, q13), q12, 5, 0xf61e2562);
    proof {
        lemma_unstep_value(16, q16, q15, q14, q13, q12, m1);
    }
    let q1 = forward_word(q0, md5_f(q0, b, c), d, m1, SMAP[1], TMAP[1]);
    proof {
        lemma_forward_value(1, q0, b, c, d, m1, q1);
    }
    let m2 = back_word(q2, q1, md5_f(q1, q0, b), c, 17, TMAP[2]);
    proof {
        lemma_unstep_value(2, q2, q1, q0, b, c, m2);
    }
    let m3 = back_word(q3, q2, md5_f(q2, q1, q0), b, 22, TMAP[3]);
    proof {
        lemma_unstep_value(3, q3, q2, q1, q0, b, m3);
    }
    let m4 = back_word(q4, q3, md5_f(q3, q2, q1), q0, 7, TMAP[4]);
    proof {
        lemma_unstep_value(4, q4, q3, q2, q1, q0, m4);
    }
    let m5 = back_word(q5, q4, md5_f(q4, q3, q2), q1, 12, TMAP[5]);
    proof {
        lemma_unstep_value(5, q5, q4, q3, q2, q1, m5);
    }
    let q20 = forward_word(q19, md5_g(q19, q18, q17), q16, m5, 5, 0xd62f105d);
    proof {
        lemma_forward_value(20, q19, q18, q17, q16, m5, q20);
    }
    (m0, m1, m2, m3, m4, m5, q0, q1, q20)
}

/// The steps that Klima's words fix: `Q[0] .. Q[5]`, `Q[16]`, `Q[19]` and
/// `Q[20]` follow from the values before them and the words.
pub open spec fn klima_steps_hold(v: Seq<u32>, m: Seq<u32>) -> bool {
    &&& steps_hold(v, m, 0, 6)
    &&& step_holds(v, m, 16)
    &&& step_holds(v, m, 19)
    &&& step_holds(v, m, 20)
}

/// The steps fixed by Klima's words that do not involve `Q[19]`.
pub open spec fn klima_front_steps_hold(v: Seq<u32>, m: Seq<u32>) -> bool {
    &&& steps_hold(v, m, 0, 6)
    &&& step_holds(v, m, 16)
}

/// The words `klima_words` derives make the steps reproduce the values it
/// keeps and the values it computes.
proof fn lemma_klima_steps(v: Seq<u32>, m: Seq<u32>, kept: bool)
    requires
        v.len() == 76,
        m.len() == 32,
        kept ==> m[0] == unstep(19, v[23], v[22], v[21], v[20], v[19]),
        v[4] == md5_step(0, v[3], v[2], v[1], v[0], m[0]),
        m[1] == unstep(16, v[20], v[19], v[18], v[17], v[16]),
        v[5] == md5_step(1, v[4], v[3], v[2], v[1], m[1]),
        m[2] == unstep(2, v[6], v[5], v[4], v[3], v[2]),
        m[3] == unstep(3, v[7], v[6], v[5], v[4], v[3]),
        m[4] == unstep(4, v[8], v[7], v[6], v[5], v[4]),
        m[5] == unstep(5, v[9], v[8], v[7], v[6], v[5]),
        kept ==> v[24] == md5_step(20, v[23], v[22], v[21], v[20], m[5]),
    ensures
        klima_front_steps_hold(v, m),
        kept ==> klima_steps_hold(v, m),
{
    lemma_unstep(19, v[23], v[22], v[21], v[20], v[19], m[0]);
    lemma_unstep(16, v[20], v[19], v[18], v[17], v[16], m[1]);
    lemma_unstep(2, v[6], v[5], v[4], v[3], v[2], m[2]);
    lemma_unstep(3, v[7], v[6], v[5], v[4], v[3], m[3]);
    lemma_unstep(4, v[8], v[7], v[6], v[5], v[4], m[4]);
    lemma_unstep(5, v[9], v[8], v[7], v[6], v[5], m[5]);
    assert(w_of(16) == 1 && w_of(19) == 0 && w_of(20) == 5);
    assert forall|k: int| 0 <= k < 6 implies #[trigger] step_holds(v, m, k) by {
        lemma_smap_range(k);
    }
}

/// What `klima4_9` does, as a relation between the table `n`, the words `m`
/// and the counter `q19` before and `n1`, `m1`, `g` after.
pub open spec fn klima4_9_post(n: [Node; 76], m: Seq<u32>, q19: u32, na: [Node; 76], ma: Seq<u32>, ga: u32) -> bool {
    let g1 = fixed_n19(w32(q19 + 1));
    let m0 = unstep(19, q19, n[22].val, n[21].val, n[20].val, n[19].val);
    let q0 = md5_step(0, n[71].val, n[70].val, n[69].val, n[68].val, m0);
    let m1 = unstep(16, n[20].val, n[19].val, n[18].val, n[17].val, n[16].val);
    let q1 = md5_step(1, q0, n[71].val, n[70].val, n[69].val, m1);
    let m2 = unstep(2, n[6].val, q1, q0, n[71].val, n[70].val);
    let m3 = unstep(3, n[7].val, n[6].val, q1, q0, n[71].val);
    let m4 = unstep(4, n[8].val, n[7].val, n[6].val, q1, q0);
    let m5 = unstep(5, n[9].val, n[8].val, n[7].val, n[6].val, q1);
    let q20 = md5_step(20, q19, n[22].val, n[21].val, n[20].val, m5);
    let mid = n@.update(23, with_val(n[23], q19)).update(4, with_val(n[4], q0)).update(5, with_val(n[5], q1)).update(
        24,
        with_val(n[24], q20),
    );
    let bad = fcheck(mid, 20) != 0;
    let g2 = if bad {
        fixed_n19(w32(g1 + 0x7f))
    } else {
        g1
    };
    &&& ma =~= m.update(0, m0).update(1, m1).update(2, m2).update(3, m3).update(4, m4).update(5, m5)
    &&& ga == g2
    &&& na@ =~= mid.update(23, with_val(n[23], if bad { g2 } else { q19 }))
    &&& iv_copies_agree(n) ==> klima_front_steps_hold(vals(na), ma)
    &&& (!bad && iv_copies_agree(n)) ==> klima_steps_hold(vals(na), ma)
    &&& same_conds(na, n)
    &&& tvals(na) =~= tvals(n)
    &&& agree_on(vals(na), vals(n), 0, 4)
    &&& agree_on(vals(na), vals(n), 25, 76)
}

/// After `klima4_9` the counter and `Q[19]` follow the check of the new
/// `Q[20]`, judged with `Q[19]` at the counter's old value `g`: when `Q[20]`
/// breaks its conditions the counter jumps 0x7f past `fixed_n19(g + 1)` (and
/// is fixed again) and `Q[19]` takes it; when `Q[20]` meets them the counter
/// is `fixed_n19(g + 1)` and `Q[19]` stays `g`.
pub proof fn lemma_klima4_9_counter(n: [Node; 76], m: Seq<u32>, g: u32, na: [Node; 76], ma: Seq<u32>, ga: u32)
    requires
        klima4_9_post(n, m, g, na, ma, ga),
    ensures
        ({
            let back = na@.update(23, with_val(na[23], g));
            let g1 = fixed_n19(w32(g + 1));
            &&& fcheck(back, 20) != 0 ==> ga == fixed_n19(w32(g1 + 0x7f)) && na[23].val == ga
            &&& fcheck(back, 20) == 0 ==> ga == g1 && na[23].val == g
        }),
{
    let back = na@.update(23, with_val(na[23], g));
    let m0 = unstep(19, g, n[22].val, n[21].val, n[20].val, n[19].val);
    let q0 = md5_step(0, n[71].val, n[70].val, n[69].val, n[68].val, m0);
    let m1 = unstep(16, n[20].val, n[19].val, n[18].val, n[17].val, n[16].val);
    let q1 = md5_step(1, q0, n[71].val, n[70].val, n[69].val, m1);
    let m5 = unstep(5, n[9].val, n[8].val, n[7].val, n[6].val, q1);
    let q20 = md5_step(20, g, n[22].val, n[21].val, n[20].val, m5);
    let mid = n@.update(23, with_val(n[23], g)).update(4, with_val(n[4], q0)).update(5, with_val(n[5], q1)).update(
        24,
        with_val(n[24], q20),
    );
    assert(na[23] == na@[23]);
    assert(back =~= mid);
}

/// Sets `Q[19]` to the counter, steps the counter past bits 12 and 26, and
/// derives from it the words 0 .. 5 that keep `Q[2] .. Q[5]` and
/// `Q[16] .. Q[19]`, together with the new `Q[0]`, `Q[1]` and `Q[20]`; when
/// `Q[20]` breaks its conditions the counter jumps ahead and `Q[19]` takes it.
pub fn klima4_9(m_block: &mut [u32; 32], n_cond_nodes: &mut [Node; 76], g_n19: &mut u32)
    requires
        fcheck_usable(*old(n_cond_nodes), 20),
    ensures
        klima4_9_post(*old(n_cond_nodes), old(m_block)@, *old(g_n19), *final(n_cond_nodes), final(m_block)@, *final(g_n19)),
{
    let ghost n = *n_cond_nodes;
    let r = RELATIVE_INDEX;
    let q19 = *g_n19;
    let q18 = n_cond_nodes[r + 18].val;
    let q17 = n_cond_nodes[r + 17].val;
    let q16 = n_cond_nodes[r + 16].val;
    let q15 = n_cond_nodes[r + 15].val;
    let q14 = n_cond_nodes[r + 14].val;
    let q13 = n_cond_nodes[r + 13].val;
    let q12 = n_cond_nodes[r + 12].val;
    let q2 = n_cond_nodes[r + 2].val;
    let q3 = n_cond_nodes[r + 3].val;
    let q4 = n_cond_nodes[r + 4].val;
    let q5 = n_cond_nodes[r + 5].val;
    let a = n_cond_nodes[r + 64].val;
    let d = n_cond_nodes[r + 65].val;
    let c = n_cond_nodes[r + 66].val;
    let b = n_cond_nodes[r + 67].val;
    n_cond_nodes[r + 19].val = q19;
    *g_n19 = g_n19.wrapping_add(1);
    fix_n19(g_n19);
    let (m0, m1, m2, m3, m4, m5, q0, q1, q20) = klima_words(q19, q18, q17, q16, q15, q14, q13, q12, q2, q3, q4, q5, a, b, c, d);
    m_block[0] = m0;
    m_block[1] = m1;
    m_block[2] = m2;
    m_block[3] = m3;
    m_block[4] = m4;
    m_block[5] = m5;
    n_cond_nodes[r + 0].val = q0;
    n_cond_nodes[r + 1].val = q1;
    n_cond_nodes[r + 20].val = q20;
    proof {
        assert(n_cond_nodes@ =~= n@.update(23, with_val(n[23], q19)).update(4, with_val(n[4], q0)).update(5, with_val(n[5], q1)).update(
            24,
            with_val(n[24], q20),
        ));
    }
    if fcheck_cond(20, n_cond_nodes) != 0 {
        *g_n19 = g_n19.wrapping_add(0x7f);
        fix_n19(g_n19);
        n_cond_nodes[r + 19].val = *g_n19;
    }
    proof {
        let n1 = *n_cond_nodes;
        assert forall|j: int| #![trigger n1[j]] 0 <= j < 76 implies n1[j].bf == n[j].bf && n1[j].list == n[j].list by {}
        assert(tvals(n1) =~= tvals(n));
        assert forall|j: int| (0 <= j < 4 || 25 <= j < 76) implies #[trigger] vals(n1)[j] == vals(n)[j] by {}
        if iv_copies_agree(n) {
            let v = vals(n1);
            assert(n[0].val == n[68].val && n[1].val == n[69].val && n[2].val == n[70].val && n[3].val == n[71].val);
            assert(v[0] == a && v[1] == d && v[2] == c && v[3] == b);
            lemma_klima_steps(v, m_block@, n1[23].val == q19);
        }
    }
}

pub proof fn lemma_fcheck_usable_conds(a: [Node; 76], b: [Node; 76], i: int)
    requires
        same_conds(a, b),
        fcheck_usable(b, i),
    ensures
        fcheck_usable(a, i),
{
    assert(a[4 + i].bf == b[4 + i].bf && a[4 + i].list == b[4 + i].list);
}

/// Steps 17 and 18 (round G) computed from the current values into nodes 21, 22.
fn steps_17_18(m_block: &[u32; 32], n_cond_nodes: &mut [Node; 76])
    ensures
        ({
            let n0 = *old(n_cond_nodes);
            let n1 = *final(n_cond_nodes);
            &&& same_conds(n1, n0)
            &&& tvals(n1) == tvals(n0)
            &&& agree_on(vals(n1), vals(n0), 0, 21) && agree_on(vals(n1), vals(n0), 23, 76)
            &&& steps_hold(vals(n1), m_block@, 17, 19)
        }),
{
    let ghost n0 = *n_cond_nodes;
    let r = RELATIVE_INDEX;
    let q16 = n_cond_nodes[r + 16].val;
    let q15 = n_cond_nodes[r + 15].val;
    let q14 = n_cond_nodes[r + 14].val;
    let q13 = n_cond_nodes[r + 13].val;
    let q17 = forward_word(q16, md5_g(q16, q15, q14), q13, m_block[6], SMAP[17], TMAP[17]);
    proof {
        lemma_forward_value(17, q16, q15, q14, q13, m_block[6], q17);
    }
    let q18 = forward_word(q17, md5_g(q17, q16, q15), q14, m_block[11], SMAP[18], TMAP[18]);
    proof {
        lemma_forward_value(18, q17, q16, q15, q14, m_block[11], q18);
    }
    n_cond_nodes[r + 17].val = q17;
    n_cond_nodes[r + 18].val = q18;
    proof {
        let v = vals(*n_cond_nodes);
        assert(v =~= vals(n0).update(21, q17).update(22, q18));
        assert(tvals(*n_cond_nodes) =~= tvals(n0));
        assert(step_holds(v, m_block@, 17));
        assert(step_holds(v, m_block@, 18));
        assert forall|k: int| #![trigger n_cond_nodes[k]] 0 <= k < 76 implies n_cond_nodes[k].bf == n0[k].bf && n_cond_nodes[k].list == n0[k].list by {}
    }
}

/// `Q[16]` came out of applying its conditions to some word, with the other
/// values (all but `Q[16] .. Q[18]`) as they now are.
pub open spec fn drawn_q16(n: [Node; 76]) -> bool {
    exists|x: u32, w: Seq<Node>|
        {
            &&& w.len() == 76
            &&& forall|k: int| 0 <= k < 76 && k != 20 && k != 21 && k != 22 ==> #[trigger] w[k] == n@[k]
            &&& n[20].val == apply_conds(x, n[20].list@, w)
        }
}

/// The table after one draw of `Q[16]` from the word `x0`: `x0` put
/// through the conditions of `Q[16]` (read with `x0` in place), then `Q[17]`
/// and `Q[18]` stepped from it.
pub open spec fn klima_draw_result(n: Seq<Node>, m: Seq<u32>, x0: u32) -> Seq<Node> {
    let q16 = apply_conds(x0, n[20].list@, n.update(20, with_val(n[20], x0)));
    let q17 = md5_step(17, q16, n[19].val, n[18].val, n[17].val, m[w_of(17)]);
    let q18 = md5_step(18, q17, q16, n[19].val, n[18].val, m[w_of(18)]);
    n.update(20, with_val(n[20], q16)).update(21, with_val(n[21], q17)).update(22, with_val(n[22], q18))
}

/// The table after the draws `xs`, in order, starting from `n`.
pub open spec fn klima_draws(n: Seq<Node>, m: Seq<u32>, xs: Seq<u32>) -> Seq<Node>
    decreases xs.len(),
{
    if xs.len() == 0 {
        n
    } else {
        klima_draw_result(klima_draws(n, m, xs.drop_last()), m, xs.last())
    }
}

/// `Q[17]` or `Q[18]` breaks its conditions in `n`.
pub open spec fn klima_rejected(n: Seq<Node>) -> bool {
    fcheck(n, 17) != 0 || fcheck(n, 18) != 0
}

/// The table after the first `k + 1` of the draws `xs` is rejected.
pub open spec fn draw_rejected(n: Seq<Node>, m: Seq<u32>, xs: Seq<u32>, k: int) -> bool {
    klima_rejected(klima_draws(n, m, xs.take(k + 1)))
}

/// One draw of `Q[16]`: the word `x0` put through the conditions of `Q[16]`
/// (read against the table with `x0` in place), then `Q[17]`, `Q[18]`
/// recomputed from it. Returns whether `Q[17]` and `Q[18]` now meet their
/// conditions.
pub fn klima_draw(m_block: &[u32; 32], n_cond_nodes: &mut [Node; 76], x0: u32) -> (ok: bool)
    requires
        fcheck_usable(*old(n_cond_nodes), 17),
        fcheck_usable(*old(n_cond_nodes), 18),
        conds_usable(old(n_cond_nodes)[20].list@),
    ensures
        ({
            let n0 = *old(n_cond_nodes);
            let n1 = *final(n_cond_nodes);
            let v = vals(n1);
            &&& same_conds(n1, n0)
            &&& tvals(n1) == tvals(n0)
            &&& agree_on(v, vals(n0), 0, 20) && agree_on(v, vals(n0), 23, 76)
            &&& v[20] == apply_conds(x0, n0[20].list@, n0@.update(20, with_val(n0[20], x0)))
            &&& steps_hold(v, m_block@, 17, 19)
            &&& drawn_q16(n1)
            &&& n1@ == klima_draw_result(n0@, m_block@, x0)
            &&& ok == (fcheck(n1@, 17) == 0 && fcheck(n1@, 18) == 0)
        }),
{
    let ghost n0 = *n_cond_nodes;
    let r = RELATIVE_INDEX;
    n_cond_nodes[r + 16].val = x0;
    let ghost nb = *n_cond_nodes;
    proof {
        assert(nb@ =~= n0@.update(20, with_val(n0[20], x0)));
        assert(nb[20].list == n0[20].list);
    }
    let x = applied_conditions(n_cond_nodes, r + 16);
    n_cond_nodes[r + 16].val = x;
    let ghost nc = *n_cond_nodes;
    proof {
        assert forall|k: int| #![trigger nc[k]] 0 <= k < 76 implies nc[k].bf == n0[k].bf && nc[k].list == n0[k].list by {}
        assert(vals(nc) =~= vals(n0).update(20, x));
        assert(tvals(nc) =~= tvals(n0));
    }
    steps_17_18(m_block, n_cond_nodes);
    proof {
        let nd = *n_cond_nodes;
        lemma_same_conds_trans(nd, nc, n0);
        assert(agree_on(vals(nd), vals(n0), 0, 20));
        assert(agree_on(vals(nd), vals(n0), 23, 76));
        assert(vals(nd)[20] == x);
        assert(nb[20].list@ == nd[20].list@);
        assert forall|k: int| 0 <= k < 76 && k != 20 && k != 21 && k != 22 implies #[trigger] nb@[k] == nd@[k] by {
            assert(vals(nd)[k] == vals(nc)[k] && tvals(nd)[k] == tvals(nc)[k]);
            assert(nd[k].bf == nc[k].bf && nd[k].list == nc[k].list);
        }
        assert(drawn_q16(nd));
        let res = klima_draw_result(n0@, m_block@, x0);
        assert(vals(nd)[19] == n0[19].val && vals(nd)[18] == n0[18].val && vals(nd)[17] == n0[17].val);
        assert(step_holds(vals(nd), m_block@, 17) && step_holds(vals(nd), m_block@, 18));
        assert(nd@ =~= res) by {
            assert forall|k: int| 0 <= k < 76 implies #[trigger] nd@[k] == res[k] by {
                assert(vals(nd)[k] == nd[k].val && tvals(nd)[k] == nd[k].tval);
                assert(vals(n0)[k] == n0[k].val && tvals(n0)[k] == n0[k].tval);
                assert(nd[k].bf == n0[k].bf && nd[k].list == n0[k].list);
            }
        }
        lemma_fcheck_usable_conds(nd, n0, 17);
        lemma_fcheck_usable_conds(nd, n0, 18);
    }
    fcheck_cond(17, n_cond_nodes) == 0 && fcheck_cond(18, n_cond_nodes) == 0
}

/// `Q[17]` cleared, everything else as in `n`.
pub open spec fn q17_cleared(n: [Node; 76]) -> Seq<Node> {
    n@.update(21, with_val(n[21], 0))
}

/// Draws `Q[16]` under its conditions and recomputes `Q[17]`, `Q[18]` until
/// both meet their conditions; gives up (returning `true`) after 4096 draws
/// that all failed. `Q[17]` is cleared first; where that alone already
/// satisfies both checks nothing is drawn.
/// The second result holds the words drawn, in order.
pub fn klima1_3(m_block: &mut [u32; 32], n_cond_nodes: &mut [Node; 76]) -> (r: (bool, Ghost<Seq<u32>>))
    requires
        fcheck_usable(*old(n_cond_nodes), 17),
        fcheck_usable(*old(n_cond_nodes), 18),
        conds_usable(old(n_cond_nodes)[20].list@),
    ensures
        ({
            let n0 = *old(n_cond_nodes);
            let n1 = *final(n_cond_nodes);
            let v = vals(n1);
            let c0 = q17_cleared(n0);
            let xs = r.1@;
            &&& *final(m_block) == *old(m_block)
            &&& n1@ == klima_draws(c0, old(m_block)@, xs)
            &&& xs.len() <= 4096
            &&& r.0 ==> xs.len() == 4096
            &&& xs.len() > 0 ==> klima_rejected(c0)
            &&& forall|j: int| 0 <= j < xs.len() && (j + 1 < xs.len() || r.0) ==> #[trigger] draw_rejected(
                c0,
                old(m_block)@,
                xs,
                j,
            )
            &&& same_conds(n1, n0)
            &&& tvals(n1) == tvals(n0)
            &&& agree_on(v, vals(n0), 0, 20) && agree_on(v, vals(n0), 23, 76)
            &&& !r.0 ==> fcheck(n1@, 17) == 0 && fcheck(n1@, 18) == 0
            &&& r.0 ==> (fcheck(n1@, 17) != 0 || fcheck(n1@, 18) != 0) && steps_hold(v, old(m_block)@, 17, 19)
                && drawn_q16(n1)
            &&& (fcheck(q17_cleared(n0), 17) == 0 && fcheck(q17_cleared(n0), 18) == 0) ==> !r.0 && n1@ == q17_cleared(n0)
            &&& (v[21] == 0 && v[20] == n0[20].val && v[22] == n0[22].val) || (steps_hold(v, old(m_block)@, 17, 19)
                && drawn_q16(n1))
        }),
{
    let ghost n0 = *n_cond_nodes;
    let r = RELATIVE_INDEX;
    n_cond_nodes[r + 17].val = 0;
    proof {
        assert(n_cond_nodes@ =~= q17_cleared(n0));
        assert(vals(*n_cond_nodes) =~= vals(n0).update(21, 0));
        assert(tvals(*n_cond_nodes) =~= tvals(n0));
        assert forall|k: int| #![trigger n_cond_nodes[k]] 0 <= k < 76 implies n_cond_nodes[k].bf == n0[k].bf && n_cond_nodes[k].list == n0[k].list by {}
        lemma_fcheck_usable_conds(*n_cond_nodes, n0, 17);
        lemma_fcheck_usable_conds(*n_cond_nodes, n0, 18);
    }
    let ghost c0 = n_cond_nodes@;
    let ghost mut xs: Seq<u32> = Seq::empty();
    proof {
        assert(klima_draws(c0, m_block@, xs) == c0);
    }
    if fcheck_cond(17, n_cond_nodes) == 0 && fcheck_cond(18, n_cond_nodes) == 0 {
        return (false, Ghost(xs));
    }
    let mut count: u32 = 0;
    while count < 4096
        invariant
            r == 4,
            n0 == *old(n_cond_nodes),
            *m_block == *old(m_block),
            count <= 4096,
            same_conds(*n_cond_nodes, n0),
            fcheck_usable(n0, 17),
            fcheck_usable(n0, 18),
            conds_usable(n0[20].list@),
            tvals(*n_cond_nodes) == tvals(n0),
            agree_on(vals(*n_cond_nodes), vals(n0), 0, 20),
            agree_on(vals(*n_cond_nodes), vals(n0), 23, 76),
            fcheck(n_cond_nodes@, 17) != 0 || fcheck(n_cond_nodes@, 18) != 0,
            !(fcheck(q17_cleared(n0), 17) == 0 && fcheck(q17_cleared(n0), 18) == 0),
            count == 0 ==> vals(*n_cond_nodes)[21] == 0 && vals(*n_cond_nodes)[20] == n0[20].val
                && vals(*n_cond_nodes)[22] == n0[22].val,
            count > 0 ==> steps_hold(vals(*n_cond_nodes), m_block@, 17, 19) && drawn_q16(*n_cond_nodes),
            c0 == q17_cleared(n0),
            klima_rejected(c0),
            xs.len() == count,
            n_cond_nodes@ == klima_draws(c0, m_block@, xs),
            forall|j: int| 0 <= j < count ==> #[trigger] draw_rejected(c0, m_block@, xs, j),
        decreases 4096 - count,
    {
        proof {
            lemma_fcheck_usable_conds(*n_cond_nodes, n0, 17);
            lemma_fcheck_usable_conds(*n_cond_nodes, n0, 18);
        }
        let ghost na = *n_cond_nodes;
        let x0 = random_word();
        let ok = klima_draw(m_block, n_cond_nodes, x0);
        proof {
            lemma_same_conds_trans(*n_cond_nodes, na, n0);
            let xs2 = xs.push(x0);
            assert(xs2.drop_last() =~= xs);
            assert(n_cond_nodes@ == klima_draws(c0, m_block@, xs2));
            assert forall|j: int| 0 <= j < count implies #[trigger] draw_rejected(c0, m_block@, xs2, j) by {
                assert(xs2.take(j + 1) =~= xs.take(j + 1));
                assert(draw_rejected(c0, m_block@, xs, j));
            }
            assert(xs2.take(count + 1) =~= xs2);
            xs = xs2;
        }
        if ok {
            return (false, Ghost(xs));
        }
        count += 1;
    }
    (true, Ghost(xs))
}

// ---------------------------------------------------------------------------
// First round, first block, and the search.
// ---------------------------------------------------------------------------

/// Fills the words 0 .. 16 with random words; the rest stay. The result
/// holds the words drawn, in order.
pub fn new_rand_mblock(m_block: &mut [u32; 32]) -> (drawn: Ghost<Seq<u32>>)
    ensures
        drawn@.len() == 16,
        forall|k: int| 0 <= k < 16 ==> #[trigger] final(m_block)[k] == drawn@[k],
        forall|k: int| 16 <= k < 32 ==> #[trigger] final(m_block)[k] == old(m_block)[k],
{
    let ghost mut d: Seq<u32> = Seq::empty();
    for i in 0..16
        invariant
            d.len() == i,
            forall|k: int| 0 <= k < i ==> #[trigger] m_block[k] == d[k],
            forall|k: int| 16 <= k < 32 ==> #[trigger] m_block[k] == old(m_block)[k],
    {
        let x = random_word();
        m_block[i] = x;
        proof {
            d = d.push(x);
        }
    }
    Ghost(d)
}

/// Word `i` of a block carrying the message difference, taken back to the
/// first message's word.
pub open spec fn without_difference(w: u32, i: int) -> u32 {
    if i == 4 || i == 14 {
        addsub(w, 31, -1i32)
    } else if i == 11 {
        addsub(w, 15, -1i32)
    } else {
        w
    }
}

/// The words after a pass failed at step `i`: the words `d` drawn afresh for
/// 0 .. 16 (word `i` taken back by its message difference), the rest as in `m`.
pub open spec fn redrawn_words(m: Seq<u32>, d: Seq<u32>, i: int) -> Seq<u32> {
    Seq::new(
        32,
        |k: int|
            if k < 16 {
                if k == i {
                    without_difference(d[k], k)
                } else {
                    d[k]
                }
            } else {
                m[k]
            },
    )
}

pub proof fn lemma_steps_msg_frame(v: Seq<u32>, m: Seq<u32>, m2: Seq<u32>, lo: int, hi: int)
    requires
        steps_hold(v, m, lo, hi),
        0 <= lo,
        hi <= 64,
        forall|k: int| lo <= k < hi ==> #[trigger] m[w_of(k)] == m2[w_of(k)],
    ensures
        steps_hold(v, m2, lo, hi),
{
    assert forall|k: int| lo <= k < hi implies #[trigger] step_holds(v, m2, k) by {
        assert(step_holds(v, m, k));
        assert(m[w_of(k)] == m2[w_of(k)]);
    }
}

/// The value of `Q[i]` for `i < 16` recomputed from word `w` and the values
/// before it (`field` picks `val` or `tval`).
fn round1_value(n_cond_nodes: &[Node; 76], i: usize, w: u32, second: bool) -> (x: u32)
    requires
        i < 16,
    ensures
        x == md5_step(
            i as int,
            (if second { tvals(*n_cond_nodes) } else { vals(*n_cond_nodes) })[i + 3],
            (if second { tvals(*n_cond_nodes) } else { vals(*n_cond_nodes) })[i + 2],
            (if second { tvals(*n_cond_nodes) } else { vals(*n_cond_nodes) })[i + 1],
            (if second { tvals(*n_cond_nodes) } else { vals(*n_cond_nodes) })[i as int],
            w,
        ),
{
    let k = RELATIVE_INDEX + i;
    let (q1, q2, q3, q4) = if second {
        (n_cond_nodes[k - 1].tval, n_cond_nodes[k - 2].tval, n_cond_nodes[k - 3].tval, n_cond_nodes[k - 4].tval)
    } else {
        (n_cond_nodes[k - 1].val, n_cond_nodes[k - 2].val, n_cond_nodes[k - 3].val, n_cond_nodes[k - 4].val)
    };
    proof {
        lemma_smap_range(i as int);
    }
    let x = forward_word(q1, md5_f(q1, q2, q3), q4, w, SMAP[i], TMAP[i]);
    proof {
        lemma_forward_value(i as int, q1, q2, q3, q4, w, x);
    }
    x
}

/// Sets the `val` (or, with `second`, the `tval`) of node `k`.
fn set_node_value(n_cond_nodes: &mut [Node; 76], k: usize, x: u32, second: bool)
    requires
        k < 76,
    ensures
        same_conds(*final(n_cond_nodes), *old(n_cond_nodes)),
        second ==> vals(*final(n_cond_nodes)) == vals(*old(n_cond_nodes)),
        second ==> tvals(*final(n_cond_nodes)) == tvals(*old(n_cond_nodes)).update(k as int, x),
        !second ==> vals(*final(n_cond_nodes)) == vals(*old(n_cond_nodes)).update(k as int, x),
        !second ==> tvals(*final(n_cond_nodes)) == tvals(*old(n_cond_nodes)),
{
    let ghost n0 = *n_cond_nodes;
    if second {
        n_cond_nodes[k].tval = x;
    } else {
        n_cond_nodes[k].val = x;
    }
    proof {
        assert(vals(*n_cond_nodes) =~= if second { vals(n0) } else { vals(n0).update(k as int, x) });
        assert(tvals(*n_cond_nodes) =~= if second { tvals(n0).update(k as int, x) } else { tvals(n0) });
        assert forall|j: int| #![trigger n_cond_nodes[j]] 0 <= j < 76 implies n_cond_nodes[j].bf == n0[j].bf && n_cond_nodes[j].list == n0[j].list by {}
    }
}

/// Word `i` of the second message of a first-block pair whose first message has `w` there.
pub open spec fn y_word(w: u32, i: int) -> u32 {
    if i == 4 || i == 14 {
        w32(w + 0x80000000)
    } else if i == 11 {
        w32(w + 0x8000)
    } else {
        w
    }
}

/// `Q[i]` came out of applying its conditions to some word, the other values
/// (all but `Q[i] .. Q[15]`) being as they now are.
pub open spec fn drawn_round1(n: [Node; 76], i: int) -> bool {
    exists|x: u32, w: Seq<Node>|
        #![trigger apply_conds(x, n[4 + i].list@, w)]
        {
            &&& w.len() == 76
            &&& forall|k: int| 0 <= k < 76 && !(4 + i <= k < 20) ==> #[trigger] w[k] == n@[k]
            &&& n[4 + i].val == apply_conds(x, n[4 + i].list@, w)
        }
}

/// The chaining words stand twice in the table, in nodes 0 .. 4 and 68 .. 72.
pub open spec fn iv_copies_agree(n: [Node; 76]) -> bool {
    forall|k: int| 0 <= k < 4 ==> #[trigger] n[k].val == n[68 + k].val
}

proof fn lemma_drawn_frame(na: [Node; 76], nc: [Node; 76], i: int)
    requires
        0 <= i < 16,
        forall|j: int| 0 <= j < i ==> #[trigger] drawn_round1(na, j),
        forall|k: int| 0 <= k < 76 && k != 4 + i ==> #[trigger] nc@[k] == na@[k],
    ensures
        forall|j: int| 0 <= j < i ==> #[trigger] drawn_round1(nc, j),
{
    assert forall|j: int| 0 <= j < i implies #[trigger] drawn_round1(nc, j) by {
        assert(drawn_round1(na, j));
        let (x, w) = choose|x: u32, w: Seq<Node>|
            #![trigger apply_conds(x, na[4 + j].list@, w)]
            {
                &&& w.len() == 76
                &&& forall|k: int| 0 <= k < 76 && !(4 + j <= k < 20) ==> #[trigger] w[k] == na@[k]
                &&& na[4 + j].val == apply_conds(x, na[4 + j].list@, w)
            };
        assert(nc@[4 + j] == na@[4 + j]);
        assert forall|k: int| 0 <= k < 76 && !(4 + j <= k < 20) implies #[trigger] w[k] == nc@[k] by {
            assert(nc@[k] == na@[k]);
        }
        assert(nc[4 + j] == na[4 + j]);
        assert(nc[4 + j].val == apply_conds(x, nc[4 + j].list@, w));
    }
}

/// The differentials of steps `lo .. hi` break, the first time at some step
/// after all those before it held.
pub open spec fn path_broken(v: Seq<u32>, tv: Seq<u32>, dt: Seq<u32>, lo: int, hi: int) -> bool {
    exists|i: int| #![trigger check_ok(v, tv, dt, i)] lo <= i < hi && checks_pass(v, tv, dt, lo, i) && !check_ok(v, tv, dt, i)
}

/// Step `i` of a first-round pass on the table `n` and the words `m`: `Q[i]`
/// is computed from word `i`, put through its conditions, word `i` is
/// recomputed to produce the result (from the values behind it, which for
/// `i < 4` are the chaining words in nodes 68 .. 72), and both computations
/// are stepped with the new word.
#[verifier::opaque]
pub open spec fn round1_step(n: Seq<Node>, m: Seq<u32>, i: int) -> (Seq<Node>, Seq<u32>) {
    let x0 = md5_step(i, n[i + 3].val, n[i + 2].val, n[i + 1].val, n[i].val, m[i]);
    let n1 = n.update(4 + i, with_val(n[4 + i], x0));
    let xa = apply_conds(x0, n[4 + i].list@, n1);
    let v1 = n1[4 + back(i, 1)].val;
    let v2 = n1[4 + back(i, 2)].val;
    let v3 = n1[4 + back(i, 3)].val;
    let v4 = n1[4 + back(i, 4)].val;
    let w = w32(rotr(w32(xa - v1), s_of(i)) - v4 - f_fn(v1, v2, v3) - t_of(i));
    let nb = n1.update(4 + i, with_val(n1[4 + i], xa));
    let x = md5_step(i, nb[i + 3].val, nb[i + 2].val, nb[i + 1].val, nb[i].val, w);
    let y = md5_step(i, nb[i + 3].tval, nb[i + 2].tval, nb[i + 1].tval, nb[i].tval, y_word(w, i));
    (nb.update(4 + i, Node { val: x, tval: y, bf: n[4 + i].bf, list: n[4 + i].list }), m.update(i, w))
}

/// The table and words after the first `i` steps of a first-round pass.
#[verifier::opaque]
pub open spec fn round1_state(n: Seq<Node>, m: Seq<u32>, i: int) -> (Seq<Node>, Seq<u32>)
    decreases i,
{
    if i <= 0 {
        (n, m)
    } else {
        let s = round1_state(n, m, i - 1);
        round1_step(s.0, s.1, i - 1)
    }
}

/// The difference of step `i` after it is computed in a pass.
pub open spec fn round1_check(n: Seq<Node>, m: Seq<u32>, dt: Seq<u32>, i: int) -> bool {
    let t = round1_state(n, m, i + 1).0;
    w32(t[4 + i].tval - t[4 + i].val) == dt[i]
}

/// A pass from `n`, `m` meets the difference at every step of the first round.
pub open spec fn round1_pass_ok(n: Seq<Node>, m: Seq<u32>, dt: Seq<u32>) -> bool {
    forall|i: int| 0 <= i < 16 ==> #[trigger] round1_check(n, m, dt, i)
}

/// The exec steps of one first-round step produce `round1_step`.
#[verifier::rlimit(30)]
proof fn lemma_round1_step_state(
    n0: [Node; 76],
    na: [Node; 76],
    n1: [Node; 76],
    nb: [Node; 76],
    n2: [Node; 76],
    nc: [Node; 76],
    ma: Seq<u32>,
    i: int,
    x0: u32,
    w: u32,
    x: u32,
    y: u32,
)
    requires
        0 <= i < 16,
        same_conds(na, n0),
        same_conds(nb, n0),
        same_conds(nc, n0),
        x0 == md5_step(i, vals(na)[i + 3], vals(na)[i + 2], vals(na)[i + 1], vals(na)[i], ma[i]),
        vals(n1) == vals(na).update(4 + i, x0),
        tvals(n1) == tvals(na),
        same_conds(n1, na),
        nb@ == n1@.update(4 + i, with_val(n1[4 + i], apply_conds(n1[4 + i].val, n1[4 + i].list@, n1@))),
        w == w32(rotr(w32(apply_conds(n1[4 + i].val, n1[4 + i].list@, n1@) - n1[4 + back(i, 1)].val), s_of(i))
            - n1[4 + back(i, 4)].val - f_fn(n1[4 + back(i, 1)].val, n1[4 + back(i, 2)].val, n1[4 + back(i, 3)].val)
            - t_of(i)),
        x == md5_step(i, vals(nb)[i + 3], vals(nb)[i + 2], vals(nb)[i + 1], vals(nb)[i], w),
        vals(n2) == vals(nb).update(4 + i, x),
        tvals(n2) == tvals(nb),
        y == md5_step(i, tvals(n2)[i + 3], tvals(n2)[i + 2], tvals(n2)[i + 1], tvals(n2)[i], y_word(w, i)),
        vals(nc) == vals(n2),
        tvals(nc) == tvals(n2).update(4 + i, y),
    ensures
        nc@ == round1_step(na@, ma, i).0,
        round1_step(na@, ma, i).1 == ma.update(i, w),
        nc[4 + i].val == x && nc[4 + i].tval == y,
{
    reveal(round1_step);
    let s1 = round1_step(na@, ma, i);
    let n1s = na@.update(4 + i, with_val(na[4 + i], x0));
    assert(n1@ =~= n1s) by {
        assert forall|k: int| 0 <= k < 76 implies #[trigger] n1@[k] == n1s[k] by {
            assert(vals(n1)[k] == n1[k].val && tvals(n1)[k] == n1[k].tval);
            assert(vals(na)[k] == na[k].val && tvals(na)[k] == na[k].tval);
            assert(n1[k].bf == na[k].bf && n1[k].list == na[k].list);
        }
    }
    assert(na@[i + 3].val == vals(na)[i + 3] && na@[i + 2].val == vals(na)[i + 2]);
    assert(na@[i + 1].val == vals(na)[i + 1] && na@[i].val == vals(na)[i]);
    assert(n1[4 + i].val == vals(n1)[4 + i] && n1[4 + i].list == na[4 + i].list);
    assert(nb[i + 3].val == vals(nb)[i + 3] && nb[i + 2].val == vals(nb)[i + 2]);
    assert(nb[i + 1].val == vals(nb)[i + 1] && nb[i].val == vals(nb)[i]);
    assert(nb[i + 3].tval == tvals(n2)[i + 3] && nb[i + 2].tval == tvals(n2)[i + 2]);
    assert(nb[i + 1].tval == tvals(n2)[i + 1] && nb[i].tval == tvals(n2)[i]);
    assert(nc@ =~= s1.0) by {
        assert forall|k: int| 0 <= k < 76 implies #[trigger] nc@[k] == s1.0[k] by {
            assert(vals(nc)[k] == nc[k].val && tvals(nc)[k] == nc[k].tval);
            assert(vals(n2)[k] == n2[k].val && tvals(n2)[k] == n2[k].tval);
            assert(vals(nb)[k] == nb[k].val && tvals(nb)[k] == nb[k].tval);
            assert(nc[k].bf == n0[k].bf && nc[k].list == n0[k].list);
            assert(nb[k].bf == n0[k].bf && nb[k].list == n0[k].list);
            assert(na[k].bf == n0[k].bf && na[k].list == n0[k].list);
        }
    }
    assert(vals(nc)[4 + i] == nc[4 + i].val && tvals(nc)[4 + i] == nc[4 + i].tval);
}

/// One pass over the first round: each `Q[i]` gets its conditions, word `i`
/// is recomputed to produce it, and the second computation is checked
/// against `dt[i]`. On the first failure the words 0 .. 16 are redrawn at
/// random and `false` is returned.
#[verifier::rlimit(100)]
#[verifier::spinoff_prover]
pub fn first_round_pass(m_block: &mut [u32; 32], n_cond_nodes: &mut [Node; 76], diff_table: &[u32; 68]) -> (res: (bool, Ghost<Seq<u32>>))
    requires
        forall|i: int| 0 <= i < 16 ==> #[trigger] conds_usable(old(n_cond_nodes)[4 + i].list@),
    ensures
        ({
            let n0 = *old(n_cond_nodes);
            let n1 = *final(n_cond_nodes);
            let ok = res.0;
            &&& same_conds(n1, n0)
            &&& agree_on(vals(n1), vals(n0), 0, 4) && agree_on(vals(n1), vals(n0), 20, 76)
            &&& agree_on(tvals(n1), tvals(n0), 0, 4) && agree_on(tvals(n1), tvals(n0), 20, 76)
            &&& forall|k: int| 16 <= k < 32 ==> #[trigger] final(m_block)[k] == old(m_block)[k]
            &&& ok ==> steps_hold(vals(n1), final(m_block)@, 0, 16)
            &&& ok ==> steps_hold(tvals(n1), first_block_prime(final(m_block)@), 0, 16)
            &&& ok ==> checks_pass(vals(n1), tvals(n1), diff_table@, 0, 16)
            &&& ok && iv_copies_agree(n0) ==> forall|i: int| 0 <= i < 16 ==> #[trigger] drawn_round1(n1, i)
            &&& !ok ==> path_broken(vals(n1), tvals(n1), diff_table@, 0, 16)
            &&& ok == round1_pass_ok(n0@, old(m_block)@, diff_table@)
            &&& ok ==> (n1@, final(m_block)@) == round1_state(n0@, old(m_block)@, 16)
            &&& !ok ==> exists|i: int|
                #![trigger round1_check(n0@, old(m_block)@, diff_table@, i)]
                0 <= i < 16 && (forall|j: int| 0 <= j < i ==> #[trigger] round1_check(n0@, old(m_block)@, diff_table@, j))
                    && !round1_check(n0@, old(m_block)@, diff_table@, i) && n1@ == round1_state(
                    n0@,
                    old(m_block)@,
                    i + 1,
                ).0 && final(m_block)@ == redrawn_words(old(m_block)@, res.1@, i)
        }),
{
    let ghost n0 = *n_cond_nodes;
    let ghost m0 = m_block@;
    let r = RELATIVE_INDEX;
    proof {
        assert(round1_state(n0@, m0, 0) == (n0@, m0)) by {
            reveal(round1_state);
        }
    }
    for i in 0..16
        invariant
            r == 4,
            n0 == *old(n_cond_nodes),
            m0 == old(m_block)@,
            forall|j: int| 0 <= j < 16 ==> #[trigger] conds_usable(n0[4 + j].list@),
            same_conds(*n_cond_nodes, n0),
            agree_on(vals(*n_cond_nodes), vals(n0), 0, 4) && agree_on(vals(*n_cond_nodes), vals(n0), i + 4, 76),
            agree_on(tvals(*n_cond_nodes), tvals(n0), 0, 4) && agree_on(tvals(*n_cond_nodes), tvals(n0), i + 4, 76),
            forall|k: int| 16 <= k < 32 ==> #[trigger] m_block[k] == m0[k],
            steps_hold(vals(*n_cond_nodes), m_block@, 0, i as int),
            steps_hold(tvals(*n_cond_nodes), first_block_prime(m_block@), 0, i as int),
            checks_pass(vals(*n_cond_nodes), tvals(*n_cond_nodes), diff_table@, 0, i as int),
            iv_copies_agree(n0) ==> forall|j: int| 0 <= j < i ==> #[trigger] drawn_round1(*n_cond_nodes, j),
            (n_cond_nodes@, m_block@) == round1_state(n0@, m0, i as int),
            forall|j: int| 0 <= j < i ==> #[trigger] round1_check(n0@, m0, diff_table@, j),
    {
        let ghost na = *n_cond_nodes;
        let ghost ma = m_block@;
        let x0 = round1_value(n_cond_nodes, i, m_block[i], false);
        set_node_value(n_cond_nodes, r + i, x0, false);
        proof {
            assert(n_cond_nodes[4 + i].list == n0[4 + i].list) by {
                lemma_same_conds_trans(*n_cond_nodes, na, n0);
            }
        }
        let ghost n1 = *n_cond_nodes;
        let w = single_msg_modif(i as i32, n_cond_nodes);
        m_block[i] = w;
        let ghost nb = *n_cond_nodes;
        proof {
            assert(vals(nb) =~= vals(n1).update(4 + i, nb[4 + i].val));
            assert(tvals(nb) =~= tvals(n1));
            assert(vals(nb) =~= vals(na).update(4 + i, nb[4 + i].val));
            assert forall|j: int| #![trigger nb[j]] 0 <= j < 76 implies nb[j].bf == n1[j].bf && nb[j].list == n1[j].list by {}
            lemma_same_conds_trans(nb, n1, na);
            lemma_same_conds_trans(nb, na, n0);
        }
        let x = round1_value(n_cond_nodes, i, m_block[i], false);
        set_node_value(n_cond_nodes, r + i, x, false);
        let ghost n2 = *n_cond_nodes;
        if i == 4 || i == 14 {
            m_block[i] = addsub_bit(m_block[i], 31, 1);
        } else if i == 11 {
            m_block[i] = addsub_bit(m_block[i], 15, 1);
        }
        let y = round1_value(n_cond_nodes, i, m_block[i], true);
        set_node_value(n_cond_nodes, r + i, y, true);
        let ghost nc = *n_cond_nodes;
        proof {
            lemma_bit_values();
            lemma_addsub_inverse(w, 31);
            lemma_addsub_inverse(w, 15);
            lemma_smap_range(i as int);
            lemma_same_conds_trans(nc, nb, n0);
        }
        proof {
            let ii = i as int;
            assert(round1_state(n0@, m0, ii + 1) == round1_step(na@, ma, ii)) by {
                reveal(round1_state);
            }
            assert(m_block[ii] == y_word(w, ii));
            lemma_round1_step_state(n0, na, n1, nb, n2, nc, ma, ii, x0, w, x, y);
            assert(round1_check(n0@, m0, diff_table@, ii) == (w32(nc[4 + ii].tval - nc[4 + ii].val) == diff_table@[ii]));
        }
        if n_cond_nodes[r + i].tval.wrapping_sub(n_cond_nodes[r + i].val) != diff_table[i] {
            let ghost mb = m_block@;
            let drawn = new_rand_mblock(m_block);
            if i == 4 || i == 14 {
                m_block[i] = addsub_bit(m_block[i], 31, -1);
            } else if i == 11 {
                m_block[i] = addsub_bit(m_block[i], 15, -1);
            }
            proof {
                assert(m_block@ =~= redrawn_words(m0, drawn@, i as int)) by {
                    assert forall|k: int| 16 <= k < 32 implies #[trigger] mb[k] == m0[k] by {}
                }
                assert forall|k: int| 0 <= k < 4 implies #[trigger] vals(nc)[k] == vals(n0)[k] by {
                    assert(vals(na)[k] == vals(n0)[k]);
                }
                assert forall|k: int| i + 5 <= k < 76 implies #[trigger] vals(nc)[k] == vals(n0)[k] by {
                    assert(vals(na)[k] == vals(n0)[k]);
                }
                assert forall|k: int| 0 <= k < 4 implies #[trigger] tvals(nc)[k] == tvals(n0)[k] by {
                    assert(tvals(na)[k] == tvals(n0)[k]);
                }
                assert forall|k: int| i + 5 <= k < 76 implies #[trigger] tvals(nc)[k] == tvals(n0)[k] by {
                    assert(tvals(na)[k] == tvals(n0)[k]);
                }
                let ii = i as int;
                assert(agree_on(vals(na), vals(nc), 0, ii + 4)) by {
                    assert forall|k: int| 0 <= k < ii + 4 implies #[trigger] vals(na)[k] == vals(nc)[k] by {}
                }
                assert(agree_on(tvals(na), tvals(nc), 0, ii + 4)) by {
                    assert forall|k: int| 0 <= k < ii + 4 implies #[trigger] tvals(na)[k] == tvals(nc)[k] by {}
                }
                lemma_checks_frame(vals(na), tvals(na), vals(nc), tvals(nc), diff_table@, 0, ii);
                assert(tvals(nc)[ii + 4] == nc[4 + ii].tval && vals(nc)[ii + 4] == nc[4 + ii].val);
                assert(!check_ok(vals(nc), tvals(nc), diff_table@, ii));
                assert(path_broken(vals(nc), tvals(nc), diff_table@, 0, 16));
                assert(!round1_check(n0@, m0, diff_table@, ii));
                assert(n_cond_nodes@ == round1_state(n0@, m0, ii + 1).0);
                assert(m_block@ == redrawn_words(m0, drawn@, ii));
                assert(0 <= ii < 16 && (forall|j: int| 0 <= j < ii ==> #[trigger] round1_check(n0@, m0, diff_table@, j))
                    && !round1_check(n0@, m0, diff_table@, ii) && n_cond_nodes@ == round1_state(n0@, m0, ii + 1).0
                    && m_block@ == redrawn_words(m0, drawn@, ii));
            }
            return (false, drawn);
        }
        if i == 4 || i == 14 {
            m_block[i] = addsub_bit(m_block[i], 31, -1);
        } else if i == 11 {
            m_block[i] = addsub_bit(m_block[i], 15, -1);
        }
        proof {
            let v = vals(nc);
            let tv = tvals(nc);
            let ii = i as int;
            assert(m_block[ii] == w);
            assert(m_block@ =~= ma.update(ii, w));
            assert(first_block_prime(m_block@)[ii] == y_word(w, ii));
            assert forall|k: int| 0 <= k < ii + 4 implies #[trigger] v[k] == vals(na)[k] && tv[k] == tvals(na)[k] by {}
            assert(agree_on(vals(na), v, 0, ii + 4));
            assert(agree_on(tvals(na), tv, 0, ii + 4));
            lemma_steps_frame(vals(na), v, ma, 0, ii);
            lemma_steps_frame(tvals(na), tv, first_block_prime(ma), 0, ii);
            assert forall|k: int| 0 <= k < ii implies #[trigger] ma[w_of(k)] == m_block@[w_of(k)] by {
                lemma_smap_range(k);
            }
            lemma_steps_msg_frame(v, ma, m_block@, 0, ii);
            assert forall|k: int| 0 <= k < ii implies #[trigger] first_block_prime(ma)[w_of(k)] == first_block_prime(m_block@)[w_of(k)] by {
                lemma_smap_range(k);
            }
            lemma_steps_msg_frame(tv, first_block_prime(ma), first_block_prime(m_block@), 0, ii);
            assert(step_holds(v, m_block@, ii));
            assert(step_holds(tv, first_block_prime(m_block@), ii));
            lemma_checks_frame(vals(na), tvals(na), v, tv, diff_table@, 0, ii);
            assert(check_ok(v, tv, diff_table@, ii));
            assert forall|k: int| 0 <= k < 4 implies #[trigger] v[k] == vals(n0)[k] && tv[k] == tvals(n0)[k] by {
                assert(vals(na)[k] == vals(n0)[k] && tvals(na)[k] == tvals(n0)[k]);
            }
            assert forall|k: int| ii + 5 <= k < 76 implies #[trigger] v[k] == vals(n0)[k] && tv[k] == tvals(n0)[k] by {
                assert(vals(na)[k] == vals(n0)[k] && tvals(na)[k] == tvals(n0)[k]);
            }
        }
        proof {
            if iv_copies_agree(n0) {
                lemma_drawn_round1_step(n0, na, n1, nb, n2, nc, i as int, x0, w, x);
            }
            assert((n_cond_nodes@, m_block@) == round1_state(n0@, m0, i + 1));
            assert(round1_check(n0@, m0, diff_table@, i as int));
        }
    }
    (true, Ghost(Seq::empty()))
}

proof fn lemma_node_eq(a: [Node; 76], b: [Node; 76], k: int)
    requires
        0 <= k < 76,
        vals(a)[k] == vals(b)[k],
        tvals(a)[k] == tvals(b)[k],
        a[k].bf == b[k].bf,
        a[k].list == b[k].list,
    ensures
        a@[k] == b@[k],
{
    assert(a[k].val == vals(a)[k] && b[k].val == vals(b)[k]);
    assert(a[k].tval == tvals(a)[k] && b[k].tval == tvals(b)[k]);
}

/// One step of the first round keeps the earlier values drawn and draws `Q[i]`.
#[verifier::rlimit(30)]
proof fn lemma_drawn_round1_step(
    n0: [Node; 76],
    na: [Node; 76],
    n1: [Node; 76],
    nb: [Node; 76],
    n2: [Node; 76],
    nc: [Node; 76],
    i: int,
    x0: u32,
    w: u32,
    x: u32,
)
    requires
        0 <= i < 16,
        iv_copies_agree(n0),
        forall|j: int| 0 <= j < i ==> #[trigger] drawn_round1(na, j),
        agree_on(vals(na), vals(n0), 0, 4) && agree_on(vals(na), vals(n0), i + 4, 76),
        vals(n1) == vals(na).update(4 + i, x0),
        tvals(n1) == tvals(na),
        same_conds(n1, na),
        nb@ == n1@.update(4 + i, with_val(n1[4 + i], apply_conds(n1[4 + i].val, n1[4 + i].list@, n1@))),
        md5_step(
            i,
            n1[4 + back(i, 1)].val,
            n1[4 + back(i, 2)].val,
            n1[4 + back(i, 3)].val,
            n1[4 + back(i, 4)].val,
            w,
        ) == apply_conds(n1[4 + i].val, n1[4 + i].list@, n1@),
        x == md5_step(i, vals(nb)[i + 3], vals(nb)[i + 2], vals(nb)[i + 1], vals(nb)[i], w),
        vals(n2) == vals(nb).update(4 + i, x),
        tvals(n2) == tvals(nb),
        same_conds(n2, nb),
        vals(nc) == vals(n2),
        tvals(nc) == tvals(n2).update(4 + i, tvals(nc)[4 + i]),
        same_conds(nc, n2),
    ensures
        forall|j: int| 0 <= j <= i ==> #[trigger] drawn_round1(nc, j),
{
    let xa = apply_conds(n1[4 + i].val, n1[4 + i].list@, n1@);
    assert(vals(nb) =~= vals(n1).update(4 + i, xa)) by {
        assert forall|k: int| 0 <= k < 76 implies #[trigger] vals(nb)[k] == vals(n1).update(4 + i, xa)[k] by {
            assert(nb@[k] == nb[k]);
        }
    }
    assert(tvals(nb) =~= tvals(n1)) by {
        assert forall|k: int| 0 <= k < 76 implies #[trigger] tvals(nb)[k] == tvals(n1)[k] by {
            assert(nb@[k] == nb[k]);
        }
    }
    assert(forall|k: int| #![trigger nb[k]] 0 <= k < 76 ==> nb[k].bf == n1[k].bf && nb[k].list == n1[k].list) by {
        assert forall|k: int| #![trigger nb[k]] 0 <= k < 76 implies nb[k].bf == n1[k].bf && nb[k].list == n1[k].list by {
            assert(nb@[k] == nb[k]);
        }
    }
    assert(x == xa) by {
        assert forall|d: int| 1 <= d <= 4 implies #[trigger] vals(nb)[i + 4 - d] == n1[4 + back(i, d)].val by {
            if i - d >= 0 {
                assert(vals(nb)[i + 4 - d] == vals(n1)[i + 4 - d]);
            } else {
                let c = i + 4 - d;
                assert(0 <= c < 4);
                assert(vals(nb)[c] == vals(n1)[c]);
                assert(vals(n1)[c] == vals(na)[c] && vals(na)[c] == vals(n0)[c]);
                assert(n1[4 + back(i, d)].val == vals(n1)[c + 68]);
                assert(vals(n1)[c + 68] == vals(na)[c + 68] && vals(na)[c + 68] == vals(n0)[c + 68]);
                assert(n0[c].val == n0[68 + c].val);
            }
        }
        assert(vals(nb)[i + 4 - 1] == n1[4 + back(i, 1)].val);
        assert(vals(nb)[i + 4 - 2] == n1[4 + back(i, 2)].val);
        assert(vals(nb)[i + 4 - 3] == n1[4 + back(i, 3)].val);
        assert(vals(nb)[i + 4 - 4] == n1[4 + back(i, 4)].val);
    }
    assert forall|k: int| 0 <= k < 76 && k != 4 + i implies #[trigger] nc@[k] == na@[k] && nc@[k] == n1@[k] by {
        assert(vals(nc)[k] == vals(na)[k] && vals(nc)[k] == vals(n1)[k]);
        assert(tvals(nc)[k] == tvals(na)[k] && tvals(nc)[k] == tvals(n1)[k]);
        assert(nc[k].bf == na[k].bf && nc[k].list == na[k].list);
        assert(nc[k].bf == n1[k].bf && nc[k].list == n1[k].list);
        lemma_node_eq(nc, na, k);
        lemma_node_eq(nc, n1, k);
    }
    lemma_drawn_frame(na, nc, i);
    assert(drawn_round1(nc, i)) by {
        assert(vals(n2)[4 + i] == x);
        assert(vals(nc)[4 + i] == nc[4 + i].val);
        assert(nc[4 + i].val == xa);
        assert(nc[4 + i].list == n1[4 + i].list);
        assert(nc[4 + i].val == apply_conds(n1[4 + i].val, nc[4 + i].list@, n1@));
        assert(nc[4 + i].list == n1[4 + i].list);
        assert forall|k: int| 0 <= k < 76 && !(4 + i <= k < 20) implies #[trigger] n1@[k] == nc@[k] by {}
    }
}

/// Passes over the first round until one goes through, redrawing the words
/// after each failure: each `Q[i]` takes its conditions, word `i` is
/// recomputed to produce it, and the second computation meets `dt[i]`.
/// `false` only when `SEARCH_LIMIT` passes were not enough.
pub fn first_round(m_block: &mut [u32; 32], n_cond_nodes: &mut [Node; 76], diff_table: [u32; 68]) -> (ok: bool)
    requires
        forall|i: int| 0 <= i < 16 ==> #[trigger] conds_usable(old(n_cond_nodes)[4 + i].list@),
    ensures
        ({
            let n0 = *old(n_cond_nodes);
            let n1 = *final(n_cond_nodes);
            &&& same_conds(n1, n0)
            &&& agree_on(vals(n1), vals(n0), 0, 4) && agree_on(vals(n1), vals(n0), 20, 76)
            &&& agree_on(tvals(n1), tvals(n0), 0, 4) && agree_on(tvals(n1), tvals(n0), 20, 76)
            &&& forall|k: int| 16 <= k < 32 ==> #[trigger] final(m_block)[k] == old(m_block)[k]
            &&& ok ==> steps_hold(vals(n1), final(m_block)@, 0, 16)
            &&& ok ==> steps_hold(tvals(n1), first_block_prime(final(m_block)@), 0, 16)
            &&& ok ==> checks_pass(vals(n1), tvals(n1), diff_table@, 0, 16)
            &&& ok && iv_copies_agree(n0) ==> forall|i: int| 0 <= i < 16 ==> #[trigger] drawn_round1(n1, i)
            &&& !ok ==> path_broken(vals(n1), tvals(n1), diff_table@, 0, 16)
            &&& round1_pass_ok(n0@, old(m_block)@, diff_table@) ==> ok && (n1@, final(m_block)@) == round1_state(
                n0@,
                old(m_block)@,
                16,
            )
        }),
{
    let ghost n0 = *n_cond_nodes;
    let mut tries: u64 = 0;
    loop
        invariant
            n0 == *old(n_cond_nodes),
            forall|i: int| 0 <= i < 16 ==> #[trigger] conds_usable(n0[4 + i].list@),
            same_conds(*n_cond_nodes, n0),
            agree_on(vals(*n_cond_nodes), vals(n0), 0, 4) && agree_on(vals(*n_cond_nodes), vals(n0), 20, 76),
            agree_on(tvals(*n_cond_nodes), tvals(n0), 0, 4) && agree_on(tvals(*n_cond_nodes), tvals(n0), 20, 76),
            forall|k: int| 16 <= k < 32 ==> #[trigger] m_block[k] == old(m_block)[k],
            tries > 0 ==> path_broken(vals(*n_cond_nodes), tvals(*n_cond_nodes), diff_table@, 0, 16),
            tries == 0 ==> *n_cond_nodes == n0 && *m_block == *old(m_block),
            tries > 0 ==> !round1_pass_ok(n0@, old(m_block)@, diff_table@),
        decreases SEARCH_LIMIT - tries,
    {
        if tries == SEARCH_LIMIT {
            return false;
        }
        tries += 1;
        let ghost na = *n_cond_nodes;
        proof {
            assert forall|i: int| 0 <= i < 16 implies #[trigger] conds_usable(na[4 + i].list@) by {
                assert(na[4 + i].list == n0[4 + i].list);
                assert(conds_usable(n0[4 + i].list@));
            }
        }
        let ok = first_round_pass(m_block, n_cond_nodes, &diff_table).0;
        proof {
            if iv_copies_agree(n0) {
                assert forall|k: int| 0 <= k < 4 implies #[trigger] na[k].val == na[68 + k].val by {
                    assert(vals(na)[k] == vals(n0)[k] && vals(na)[68 + k] == vals(n0)[68 + k]);
                    assert(n0[k].val == n0[68 + k].val);
                }
            }
            let nb = *n_cond_nodes;
            lemma_same_conds_trans(nb, na, n0);
            assert forall|k: int| (0 <= k < 4 || 20 <= k < 76) implies #[trigger] vals(nb)[k] == vals(n0)[k] && tvals(nb)[k] == tvals(n0)[k] by {
                assert(vals(na)[k] == vals(n0)[k] && tvals(na)[k] == tvals(n0)[k]);
            }
        }
        if ok {
            return true;
        }
    }
}

/// The chaining value `iv` stands in nodes 0 .. 4 for both computations and
/// again in nodes 68 .. 72, as the words `a, d, c, b`.
pub open spec fn iv_held(n: [Node; 76], iv: Seq<u32>) -> bool {
    &&& vals(n).subrange(0, 4) == q_init(iv)
    &&& tvals(n).subrange(0, 4) == q_init(iv)
    &&& vals(n).subrange(68, 72) == q_init(iv)
}

pub proof fn lemma_iv_held_frame(n0: [Node; 76], n1: [Node; 76], iv: Seq<u32>)
    requires
        iv_held(n0, iv),
        agree_on(vals(n1), vals(n0), 0, 4),
        agree_on(tvals(n1), tvals(n0), 0, 4),
        agree_on(vals(n1), vals(n0), 68, 72),
    ensures
        iv_held(n1, iv),
{
    assert(vals(n1).subrange(0, 4) =~= vals(n0).subrange(0, 4));
    assert(tvals(n1).subrange(0, 4) =~= tvals(n0).subrange(0, 4));
    assert(vals(n1).subrange(68, 72) =~= vals(n0).subrange(68, 72));
}

/// The usability conditions that the first-block search needs of the table.
pub open spec fn first_block_usable(n: [Node; 76]) -> bool {
    &&& forall|i: int| 0 <= i < 16 ==> #[trigger] conds_usable(n[4 + i].list@)
    &&& conds_usable(n[20].list@)
    &&& fcheck_usable(n, 17)
    &&& fcheck_usable(n, 18)
    &&& fcheck_usable(n, 20)
    &&& forall|i: int| 69 <= i < 72 ==> #[trigger] fcheck_usable(n, i)
}

pub proof fn lemma_usable_conds(a: [Node; 76], b: [Node; 76])
    requires
        same_conds(a, b),
        first_block_usable(b),
    ensures
        first_block_usable(a),
{
    assert forall|i: int| 0 <= i < 16 implies #[trigger] conds_usable(a[4 + i].list@) by {
        assert(a[4 + i].list == b[4 + i].list);
        assert(conds_usable(b[4 + i].list@));
    }
    assert(a[20].list == b[20].list);
    lemma_fcheck_usable_conds(a, b, 17);
    lemma_fcheck_usable_conds(a, b, 18);
    lemma_fcheck_usable_conds(a, b, 20);
    assert forall|i: int| 69 <= i < 72 implies #[trigger] fcheck_usable(a, i) by {
        assert(fcheck_usable(b, i));
        lemma_fcheck_usable_conds(a, b, i);
    }
}

/// What the first-block search needs of a `tunnel_step` from a table that
/// holds the chaining value and steps 0 .. 16: the table `klima4_9` left,
/// from which `check_diffs` started, and what holds after both.
proof fn lemma_tunnel_step_facts(
    n0: [Node; 76],
    m0: Seq<u32>,
    g0: u32,
    n1: [Node; 76],
    m1: Seq<u32>,
    g1: u32,
    dt: Seq<u32>,
    stepno: i32,
    iv: Seq<u32>,
) -> (nk: [Node; 76])
    requires
        first_block_usable(n0),
        iv_held(n0, iv),
        steps_hold(vals(n0), m0, 0, 16),
        m0.len() == 32,
        exists|nk: [Node; 76], mk: Seq<u32>|
            #[trigger] klima4_9_post(n0, m0, g0, nk, mk, g1) && diffs_post(nk, n1, mk, dt, 20, stepno) && m1 == mk,
    ensures
        diffs_post(nk, n1, m1, dt, 20, stepno),
        same_conds(n1, n0),
        first_block_usable(n1),
        iv_held(n1, iv),
        steps_hold(vals(n1), m1, 0, 17),
        forall|k: int| 16 <= k < 32 ==> #[trigger] m1[k] == m0[k],
{
    let (nk, mk) = choose|nk: [Node; 76], mk: Seq<u32>|
        #[trigger] klima4_9_post(n0, m0, g0, nk, mk, g1) && diffs_post(nk, n1, mk, dt, 20, stepno) && m1 == mk;
    lemma_klima4_9_frame(n0, nk, iv);
    lemma_iv_copies(n0, iv);
    assert forall|k: int| 6 <= k < 20 implies #[trigger] vals(nk)[k] == vals(n0)[k] by {
        assert(nk@[k] == n0@[k]);
    }
    lemma_klima_keeps_round1(n0, nk, m0, mk);
    lemma_check_diffs_frame(nk, n1, mk, dt, 20, stepno, iv);
    lemma_diffs_keep_front(nk, n1, mk, dt, stepno);
    lemma_same_conds_trans(n1, nk, n0);
    nk
}

/// One step of the search in `Q[19]`: `klima4_9` takes the next value of the
/// counter with the words it fixes, then `check_diffs` runs the path from
/// step 20 on the result; returns what `check_diffs` returns.
pub fn tunnel_step(m_block: &mut [u32; 32], n_cond_nodes: &mut [Node; 76], g_n19: &mut u32, dt: [u32; 68]) -> (stepno: i32)
    requires
        fcheck_usable(*old(n_cond_nodes), 20),
        forall|i: int| 69 <= i < 72 ==> #[trigger] fcheck_usable(*old(n_cond_nodes), i),
    ensures
        exists|nk: [Node; 76], mk: Seq<u32>|
            #[trigger] klima4_9_post(*old(n_cond_nodes), old(m_block)@, *old(g_n19), nk, mk, *final(g_n19)) && diffs_post(
                nk,
                *final(n_cond_nodes),
                mk,
                dt@,
                20,
                stepno,
            ) && final(m_block)@ == mk,
{
    let ghost n0 = *n_cond_nodes;
    let ghost m0 = m_block@;
    let ghost g0 = *g_n19;
    klima4_9(m_block, n_cond_nodes, g_n19);
    let ghost nk = *n_cond_nodes;
    let ghost mk = m_block@;
    proof {
        assert forall|i: int| 69 <= i < 72 implies #[trigger] fcheck_usable(nk, i) by {
            lemma_fcheck_usable_conds(nk, n0, i);
        }
    }
    let stepno = check_diffs(m_block, n_cond_nodes, 20, dt);
    proof {
        assert(klima4_9_post(n0, m0, g0, nk, mk, *g_n19) && diffs_post(nk, *n_cond_nodes, mk, dt@, 20, stepno) && m_block@ == mk);
    }
    stepno
}

/// The first-block search below the full check: `Q[0] .. Q[15]` through the
/// first round, `Q[16] .. Q[18]` through `klima1_3` (redrawing the first round
/// when it gives up), then `klima4_9` steps `Q[19]` until the path checks out
/// from step 20 on; steps 0 .. 17 then follow from the words as well.
/// `false` only when `SEARCH_LIMIT` attempts were not enough.
pub fn first_block(
    init_vector: [u32; 4],
    m_block: &mut [u32; 32],
    n_cond_nodes: &mut [Node; 76],
    dt: [u32; 68],
    g_n19: &mut u32,
) -> (ok: bool)
    requires
        first_block_usable(*old(n_cond_nodes)),
    ensures
        same_conds(*final(n_cond_nodes), *old(n_cond_nodes)),
        iv_held(*final(n_cond_nodes), init_vector@),
        forall|k: int| 16 <= k < 32 ==> #[trigger] final(m_block)[k] == old(m_block)[k],
        ok ==> resumed_path_holds(*final(n_cond_nodes), final(m_block)@, dt@),
        ok ==> steps_hold(vals(*final(n_cond_nodes)), final(m_block)@, 0, 17),
{
    let ghost n0 = *n_cond_nodes;
    let ghost m0 = m_block@;
    let r = RELATIVE_INDEX;
    n_cond_nodes[r + 64].val = init_vector[0];
    n_cond_nodes[r - 4].val = init_vector[0];
    n_cond_nodes[r - 4].tval = init_vector[0];

    n_cond_nodes[r + 65].val = init_vector[3];
    n_cond_nodes[r - 3].val = init_vector[3];
    n_cond_nodes[r - 3].tval = init_vector[3];

    n_cond_nodes[r + 66].val = init_vector[2];
    n_cond_nodes[r - 2].val = init_vector[2];
    n_cond_nodes[r - 2].tval = init_vector[2];

    n_cond_nodes[r + 67].val = init_vector[1];
    n_cond_nodes[r - 1].val = init_vector[1];
    n_cond_nodes[r - 1].tval = init_vector[1];
    proof {
        assert forall|j: int| #![trigger n_cond_nodes[j]] 0 <= j < 76 implies n_cond_nodes[j].bf == n0[j].bf && n_cond_nodes[j].list == n0[j].list by {}
        assert(vals(*n_cond_nodes).subrange(0, 4) =~= q_init(init_vector@));
        assert(tvals(*n_cond_nodes).subrange(0, 4) =~= q_init(init_vector@));
        assert(vals(*n_cond_nodes).subrange(68, 72) =~= q_init(init_vector@));
        lemma_usable_conds(*n_cond_nodes, n0);
        assert(iv_held(*n_cond_nodes, init_vector@));
    }
    let ghost n1 = *n_cond_nodes;
    let ok1 = first_round(m_block, n_cond_nodes, dt);
    proof {
        let n2 = *n_cond_nodes;
        lemma_same_conds_trans(n2, n1, n0);
        lemma_usable_conds(n2, n1);
        assert(agree_on(vals(n2), vals(n1), 68, 72));
        lemma_iv_held_frame(n1, n2, init_vector@);
    }
    if !ok1 {
        return false;
    }
    if !first_rounds_until_klima(m_block, n_cond_nodes, dt, init_vector) {
        return false;
    }
    let ghost mut np = *n_cond_nodes;
    let ghost mut mb = m_block@;
    let ghost mut gb = *g_n19;
    let mut stepno = tunnel_step(m_block, n_cond_nodes, g_n19, dt);
    proof {
        np = lemma_tunnel_step_facts(np, mb, gb, *n_cond_nodes, m_block@, *g_n19, dt@, stepno, init_vector@);
    }
    let mut tries: u64 = 0;
    while stepno >= 0
        invariant
            n0 == *old(n_cond_nodes),
            m0 == old(m_block)@,
            same_conds(*n_cond_nodes, n0),
            first_block_usable(*n_cond_nodes),
            iv_held(*n_cond_nodes, init_vector@),
            forall|k: int| 16 <= k < 32 ==> #[trigger] m_block[k] == m0[k],
            diffs_post(np, *n_cond_nodes, m_block@, dt@, 20, stepno),
            steps_hold(vals(*n_cond_nodes), m_block@, 0, 17),
        decreases SEARCH_LIMIT - tries,
    {
        if tries == SEARCH_LIMIT {
            return false;
        }
        tries += 1;
        if *g_n19 >= 0x80000000 {
            *g_n19 = 0;
            if !first_rounds_until_klima(m_block, n_cond_nodes, dt, init_vector) {
                return false;
            }
        }
        proof {
            np = *n_cond_nodes;
            mb = m_block@;
            gb = *g_n19;
        }
        stepno = tunnel_step(m_block, n_cond_nodes, g_n19, dt);
        proof {
            np = lemma_tunnel_step_facts(np, mb, gb, *n_cond_nodes, m_block@, *g_n19, dt@, stepno, init_vector@);
        }
    }
    proof {
        lemma_resumed_path(np, *n_cond_nodes, m_block@, dt@);
    }
    true
}

proof fn lemma_iv_copies(n: [Node; 76], iv: Seq<u32>)
    requires
        iv_held(n, iv),
    ensures
        iv_copies_agree(n),
{
    assert forall|k: int| 0 <= k < 4 implies #[trigger] n[k].val == n[68 + k].val by {
        assert(vals(n).subrange(0, 4)[k] == vals(n)[k]);
        assert(vals(n).subrange(68, 72)[k] == vals(n)[68 + k]);
    }
}

/// After Klima's words, the first-round steps still hold, and with them the
/// steps the words fix: steps 0 .. 17 all follow from the words.
proof fn lemma_klima_keeps_round1(n0: [Node; 76], n1: [Node; 76], m0: Seq<u32>, m1: Seq<u32>)
    requires
        steps_hold(vals(n0), m0, 0, 16),
        klima_front_steps_hold(vals(n1), m1),
        forall|k: int| 6 <= k < 20 ==> #[trigger] vals(n1)[k] == vals(n0)[k],
        m0.len() == 32,
        m1 == m0.update(0, m1[0]).update(1, m1[1]).update(2, m1[2]).update(3, m1[3]).update(4, m1[4]).update(5, m1[5]),
    ensures
        steps_hold(vals(n1), m1, 0, 17),
{
    assert forall|k: int| 0 <= k < 17 implies #[trigger] step_holds(vals(n1), m1, k) by {
        if 6 <= k < 16 {
            lemma_smap_range(k);
            assert(step_holds(vals(n0), m0, k));
            assert(m1[k] == m0[k]);
            assert(vals(n1)[k + 4] == vals(n0)[k + 4] && vals(n1)[k + 3] == vals(n0)[k + 3]);
            assert(vals(n1)[k + 2] == vals(n0)[k + 2] && vals(n1)[k + 1] == vals(n0)[k + 1]);
            assert(vals(n1)[k] == vals(n0)[k]);
        }
    }
}

/// A check resumed at step 20 keeps `Q[-4] .. Q[19]`, so the steps before it still hold.
proof fn lemma_diffs_keep_front(np: [Node; 76], n: [Node; 76], m: Seq<u32>, dt: Seq<u32>, r: i32)
    requires
        diffs_post(np, n, m, dt, 20i32, r),
        steps_hold(vals(np), m, 0, 17),
    ensures
        steps_hold(vals(n), m, 0, 17),
{
    assert(agree_on(vals(np), vals(n), 0, 21)) by {
        assert forall|k: int| 0 <= k < 21 implies #[trigger] vals(np)[k] == vals(n)[k] by {
            assert(vals(n)[k] == vals(np)[k]);
        }
    }
    lemma_steps_frame(vals(np), vals(n), m, 0, 17);
}

/// A check resumed at step 20 that found the rest of the path and the output
/// in order: with `Q'[15] .. Q'[19]` taken as `Q[k] + dt[k]`, steps 20 .. 64
/// of both computations follow from the words, the differentials of steps
/// 20 .. 60 hold, and the output words meet their conditions and differences.
pub open spec fn resumed_path_holds(n: [Node; 76], m: Seq<u32>, dt: Seq<u32>) -> bool {
    let v = vals(n);
    let tv = tvals(n);
    &&& forall|k: int| 19 <= k < 24 ==> #[trigger] tv[k] == w32(v[k] + dt[k - 4])
    &&& steps_hold(v, m, 20, 64)
    &&& steps_hold(tv, first_block_prime(m), 20, 64)
    &&& checks_pass(v, tv, dt, 20, 60)
    &&& out_words_hold(v, tv)
    &&& forall|i: int| 69 <= i < 72 ==> #[trigger] out_ok(n, dt, i)
}

proof fn lemma_resumed_path(np: [Node; 76], n: [Node; 76], m: Seq<u32>, dt: Seq<u32>)
    requires
        diffs_post(np, n, m, dt, 20i32, -1i32),
    ensures
        resumed_path_holds(n, m, dt),
{
    let v = vals(n);
    let tv = tvals(n);
    let tv0 = start_tvals(np, dt, 20);
    assert forall|k: int| 19 <= k < 24 implies #[trigger] tv[k] == w32(v[k] + dt[k - 4]) by {
        assert(tv[k] == tv0[k]);
        assert(v[k] == vals(np)[k]);
    }
}

pub proof fn lemma_klima4_9_frame(n0: [Node; 76], n1: [Node; 76], iv: Seq<u32>)
    requires
        same_conds(n1, n0),
        tvals(n1) == tvals(n0),
        agree_on(vals(n1), vals(n0), 0, 4),
        agree_on(vals(n1), vals(n0), 25, 76),
        iv_held(n0, iv),
        first_block_usable(n0),
    ensures
        iv_held(n1, iv),
        first_block_usable(n1),
{
    assert(agree_on(tvals(n1), tvals(n0), 0, 4));
    assert(agree_on(vals(n1), vals(n0), 68, 72));
    lemma_iv_held_frame(n0, n1, iv);
    lemma_usable_conds(n1, n0);
}

pub proof fn lemma_check_diffs_frame(n0: [Node; 76], n1: [Node; 76], m: Seq<u32>, dt: Seq<u32>, index: i32, r: i32, iv: Seq<u32>)
    requires
        diffs_post(n0, n1, m, dt, index, r),
        iv_held(n0, iv),
        first_block_usable(n0),
    ensures
        iv_held(n1, iv),
        first_block_usable(n1),
        same_conds(n1, n0),
{
    let st = diffs_start(index);
    let tv0 = start_tvals(n0, dt, index);
    assert(agree_on(tv0, tvals(n0), 0, 4));
    assert(agree_on(tvals(n1), tvals(n0), 0, 4)) by {
        assert forall|k: int| 0 <= k < 4 implies #[trigger] tvals(n1)[k] == tvals(n0)[k] by {
            assert(tvals(n1)[k] == tv0[k]);
        }
    }
    assert(agree_on(vals(n1), vals(n0), 68, 72));
    lemma_iv_held_frame(n0, n1, iv);
    lemma_usable_conds(n1, n0);
}

/// Runs `klima1_3`, and while it gives up redraws the words and passes the
/// first round again; on success `Q[17]` and `Q[18]` meet their conditions.
/// `false` only when `SEARCH_LIMIT` attempts were not enough.
fn first_rounds_until_klima(m_block: &mut [u32; 32], n_cond_nodes: &mut [Node; 76], dt: [u32; 68], init_vector: [u32; 4]) -> (ok: bool)
    requires
        first_block_usable(*old(n_cond_nodes)),
        iv_held(*old(n_cond_nodes), init_vector@),
        steps_hold(vals(*old(n_cond_nodes)), old(m_block)@, 0, 16),
    ensures
        ok ==> steps_hold(vals(*final(n_cond_nodes)), final(m_block)@, 0, 16),
        ok ==> fcheck(final(n_cond_nodes)@, 17) == 0 && fcheck(final(n_cond_nodes)@, 18) == 0,
        ok ==> vals(*final(n_cond_nodes))[21] == 0 || (steps_hold(vals(*final(n_cond_nodes)), final(m_block)@, 17, 19)
            && drawn_q16(*final(n_cond_nodes))),
        same_conds(*final(n_cond_nodes), *old(n_cond_nodes)),
        first_block_usable(*final(n_cond_nodes)),
        iv_held(*final(n_cond_nodes), init_vector@),
        forall|k: int| 16 <= k < 32 ==> #[trigger] final(m_block)[k] == old(m_block)[k],
{
    let ghost n0 = *n_cond_nodes;
    let mut tries: u64 = 0;
    loop
        invariant
            n0 == *old(n_cond_nodes),
            same_conds(*n_cond_nodes, n0),
            first_block_usable(*n_cond_nodes),
            iv_held(*n_cond_nodes, init_vector@),
            forall|k: int| 16 <= k < 32 ==> #[trigger] m_block[k] == old(m_block)[k],
            steps_hold(vals(*n_cond_nodes), m_block@, 0, 16),
        decreases SEARCH_LIMIT - tries,
    {
        if tries == SEARCH_LIMIT {
            return false;
        }
        tries += 1;
        let ghost na = *n_cond_nodes;
        let gave_up = klima1_3(m_block, n_cond_nodes).0;
        proof {
            let nb = *n_cond_nodes;
            lemma_same_conds_trans(nb, na, n0);
            lemma_usable_conds(nb, na);
            assert(agree_on(tvals(nb), tvals(na), 0, 4));
            assert(agree_on(vals(nb), vals(na), 68, 72));
            lemma_iv_held_frame(na, nb, init_vector@);
            lemma_steps_frame(vals(na), vals(nb), m_block@, 0, 16);
        }
        if !gave_up {
            return true;
        }
        new_rand_mblock(m_block);
        let ghost nc = *n_cond_nodes;
        let ok = first_round(m_block, n_cond_nodes, dt);
        proof {
            let nd = *n_cond_nodes;
            lemma_same_conds_trans(nd, nc, n0);
            lemma_usable_conds(nd, nc);
            assert(agree_on(vals(nd), vals(nc), 68, 72));
            lemma_iv_held_frame(nc, nd, init_vector@);
        }
        if !ok {
            return false;
        }
    }
}


// ---------------------------------------------------------------------------
// Bitfields, the difference table, and the search for the first block.
// ---------------------------------------------------------------------------

/// The bit that condition `c` adds to bitfield `slot` of its node, if any:
/// bit `ind` to slot 0 for a one, to slot 1 for a zero; bit `crind` to slot 2
/// for a plain reference and to slot 3 for one across the chaining addition.
pub open spec fn slot_bit(c: Condition, slot: int) -> Option<i32> {
    if slot == 0 && c.cref == -1 {
        Some(c.ind)
    } else if slot == 1 && c.cref == -2 {
        Some(c.ind)
    } else if slot == 2 && c.cref > -1 && c.add_const == 0 {
        Some(c.crind)
    } else if slot == 3 && c.cref > -1 && c.add_const != 0 {
        Some(c.crind)
    } else {
        None
    }
}

/// Bitfield `slot` after the bits of the conditions `conds` are added, in
/// order, to `acc`.
pub open spec fn built_slot(conds: Seq<Condition>, slot: int, acc: u32) -> u32
    decreases conds.len(),
{
    if conds.len() == 0 {
        acc
    } else {
        let p = built_slot(conds.drop_last(), slot, acc);
        match slot_bit(conds.last(), slot) {
            Some(i) => addsub(p, i, 1),
            None => p,
        }
    }
}

/// The four bitfields of node `nd` once its conditions are added to them.
pub open spec fn built_bf(nd: Node) -> Seq<u32> {
    Seq::new(4, |j: int| built_slot(nd.list@, j, nd.bf[j]))
}

/// No condition asks for a negative bit position in a bitfield.
pub open spec fn bitfield_ok(conds: Seq<Condition>) -> bool {
    forall|k: int|
        0 <= k < conds.len() ==> {
            &&& (#[trigger] conds[k]).cref == -1 || conds[k].cref == -2 ==> conds[k].ind >= 0
            &&& conds[k].cref > -1 ==> conds[k].crind >= 0
        }
}

/// The bitfields of one node, from its conditions.
fn node_bitfield(nd: &Node) -> (bf: [u32; 4])
    requires
        bitfield_ok(nd.list@),
    ensures
        bf@ == built_bf(*nd),
{
    let mut bf = nd.bf;
    let len = nd.list.len();
    for j in 0..len
        invariant
            len == nd.list@.len(),
            bitfield_ok(nd.list@),
            forall|s: int| 0 <= s < 4 ==> #[trigger] bf@[s] == built_slot(nd.list@.take(j as int), s, nd.bf[s]),
    {
        let li = nd.list[j];
        proof {
            assert(nd.list@.take(j + 1).drop_last() =~= nd.list@.take(j as int));
            assert(nd.list@.take(j + 1).last() == li);
            assert(bitfield_ok(nd.list@) ==> (li.cref == -1 || li.cref == -2 ==> li.ind >= 0)) by {
                assert(nd.list@[j as int] == li);
            }
        }
        if li.cref == -1 {
            bf[0] = addsub_bit(bf[0], li.ind, 1);
        }
        if li.cref == -2 {
            bf[1] = addsub_bit(bf[1], li.ind, 1);
        }
        if (li.cref > -1) && (li.add_const == 0) {
            bf[2] = addsub_bit(bf[2], li.crind, 1);
        }
        if (li.cref > -1) && (li.add_const != 0) {
            bf[3] = addsub_bit(bf[3], li.crind, 1);
        }
        proof {
            assert forall|s: int| 0 <= s < 4 implies #[trigger] bf@[s] == built_slot(nd.list@.take(j + 1), s, nd.bf[s]) by {
                let t = nd.list@.take(j + 1);
                assert(t.drop_last() =~= nd.list@.take(j as int));
            }
        }
    }
    proof {
        assert(nd.list@.take(len as int) =~= nd.list@);
        assert(bf@ =~= built_bf(*nd));
    }
    bf
}

/// Fills the bitfields of the nodes `Q[0] .. Q[71]` from their conditions:
/// slot 0 gets the bits that must be one, slot 1 those that must be zero,
/// slots 2 and 3 the referenced bits (across the chaining addition in slot 3).
pub fn build_bitfield(n_cond_nodes: &mut [Node; 76])
    requires
        forall|k: int| 4 <= k < 76 ==> #[trigger] bitfield_ok(old(n_cond_nodes)[k].list@),
    ensures
        forall|k: int|
            #![trigger final(n_cond_nodes)[k]]
            0 <= k < 76 ==> {
                &&& final(n_cond_nodes)[k].val == old(n_cond_nodes)[k].val
                &&& final(n_cond_nodes)[k].tval == old(n_cond_nodes)[k].tval
                &&& final(n_cond_nodes)[k].list == old(n_cond_nodes)[k].list
                &&& final(n_cond_nodes)[k].bf@ == if k < 4 {
                    old(n_cond_nodes)[k].bf@
                } else {
                    built_bf(old(n_cond_nodes)[k])
                }
            },
{
    let ghost n0 = *n_cond_nodes;
    for k in 4..76
        invariant
            n0 == *old(n_cond_nodes),
            forall|j: int| 4 <= j < 76 ==> #[trigger] bitfield_ok(n0[j].list@),
            forall|j: int|
                #![trigger n_cond_nodes[j]]
                0 <= j < 76 ==> {
                    &&& n_cond_nodes[j].val == n0[j].val
                    &&& n_cond_nodes[j].tval == n0[j].tval
                    &&& n_cond_nodes[j].list == n0[j].list
                    &&& n_cond_nodes[j].bf@ == if 4 <= j < k {
                        built_bf(n0[j])
                    } else {
                        n0[j].bf@
                    }
                },
    {
        proof {
            assert(n_cond_nodes[k as int].list == n0[k as int].list);
            assert(n_cond_nodes[k as int].bf@ == n0[k as int].bf@);
            assert(n_cond_nodes[k as int].bf =~= n0[k as int].bf);
        }
        let bf = node_bitfield(&n_cond_nodes[k]);
        n_cond_nodes[k].bf = bf;
    }
}


/// The differences `Q'[k] - Q[k]` (modulo 2^32) that the first block's path
/// asks for at each step `k`, and at `k = 65, 66, 67` for the output words
/// `d, c, b`.
pub open spec fn path_differences() -> Seq<u32> {
    seq![
        0u32, 0u32, 0u32, 0u32, 0xffffffc0u32, 0x807fffc0u32,
        0xf87fffbfu32, 0xff7d8001u32, 0x7fffffc1u32, 0x80001000u32, 0xc0000000u32, 0x7fffdf80u32,
        0x81000000u32, 0x80000000u32, 0x7fff8008u32, 0x60000000u32, 0x80000000u32, 0x80000000u32,
        0x80020000u32, 0x80000000u32, 0x80000000u32, 0x80000000u32, 0u32, 0u32,
        0u32, 0u32, 0u32, 0u32, 0u32, 0u32,
        0u32, 0u32, 0u32, 0u32, 0u32, 0u32,
        0u32, 0u32, 0u32, 0u32, 0u32, 0u32,
        0u32, 0u32, 0u32, 0u32, 0u32, 0u32,
        0x80000000u32, 0x80000000u32, 0x80000000u32, 0x80000000u32, 0x80000000u32, 0x80000000u32,
        0x80000000u32, 0x80000000u32, 0x80000000u32, 0x80000000u32, 0x80000000u32, 0x80000000u32,
        0x80000000u32, 0x2000000u32, 0x82000000u32, 0x82000000u32, 0x80000000u32, 0x82000000u32,
        0x82000000u32, 0x82000000u32,
    ]
}

proof fn lemma_diff_bits()
    ensures
        (1u32 << 3u32) == 8u32 && (1u32 << 6u32) == 64u32 && (1u32 << 7u32) == 128u32 && (1u32 << 12u32) == 0x1000u32
            && (1u32 << 13u32) == 0x2000u32 && (1u32 << 15u32) == 0x8000u32 && (1u32 << 17u32) == 0x20000u32
            && (1u32 << 23u32) == 0x800000u32 && (1u32 << 24u32) == 0x1000000u32 && (1u32 << 25u32) == 0x2000000u32
            && (1u32 << 27u32) == 0x8000000u32 && (1u32 << 29u32) == 0x20000000u32 && (1u32 << 30u32) == 0x40000000u32
            && (1u32 << 31u32) == 0x80000000u32,
{
    assert((1u32 << 3u32) == 8u32 && (1u32 << 6u32) == 64u32 && (1u32 << 7u32) == 128u32 && (1u32 << 12u32) == 0x1000u32
        && (1u32 << 13u32) == 0x2000u32 && (1u32 << 15u32) == 0x8000u32 && (1u32 << 17u32) == 0x20000u32
        && (1u32 << 23u32) == 0x800000u32 && (1u32 << 24u32) == 0x1000000u32 && (1u32 << 25u32) == 0x2000000u32
        && (1u32 << 27u32) == 0x8000000u32 && (1u32 << 29u32) == 0x20000000u32 && (1u32 << 30u32) == 0x40000000u32
        && (1u32 << 31u32) == 0x80000000u32) by (bit_vector);
}

/// The table of differences the first block's path asks for, built bit by bit.
#[verifier::rlimit(40)]
pub fn construct_diff_table() -> (r: [u32; 68])
    ensures
        r@ == path_differences(),
{
    proof {
        lemma_diff_bits();
    }
    let mut diff_table: [u32; 68] = [0; 68];
    diff_table[0] = 0;
    diff_table[1] = 0;
    diff_table[2] = 0;
    diff_table[3] = 0;
    diff_table[4] = addsub_bit(0, 6, -1);
    diff_table[5] = addsub_bit(0, 6, -1);
    diff_table[5] = addsub_bit(diff_table[5], 23, 1);
    diff_table[5] = addsub_bit(diff_table[5], 31, 1);
    diff_table[6] = addsub_bit(0, 6, -1);
    diff_table[6] = addsub_bit(diff_table[6], 23, 1);
    diff_table[6] -= 1;
    diff_table[6] = diff_table[6].wrapping_sub(addsub_bit(0, 27, 1));
    diff_table[7] += 1;
    diff_table[7] = diff_table[7].wrapping_sub(addsub_bit(0, 15, 1));
    diff_table[7] = diff_table[7].wrapping_sub(addsub_bit(0, 17, 1));
    diff_table[7] = diff_table[7].wrapping_sub(addsub_bit(0, 23, 1));
    diff_table[8] += 1;
    diff_table[8] = diff_table[8].wrapping_sub(addsub_bit(0, 6, 1));
    diff_table[8] = diff_table[8].wrapping_add(addsub_bit(0, 31, 1));
    diff_table[9] += addsub_bit(0, 12, 1);
    diff_table[9] += addsub_bit(0, 31, 1);
    diff_table[10] += addsub_bit(0, 31, 1);
    diff_table[10] += addsub_bit(0, 30, 1);
    diff_table[11] += addsub_bit(0, 31, 1);
    diff_table[11] -= addsub_bit(0, 7, 1);
    diff_table[11] -= addsub_bit(0, 13, 1);
    diff_table[12] += addsub_bit(0, 24, 1);
    diff_table[12] += addsub_bit(0, 31, 1);
    diff_table[13] += addsub_bit(0, 31, 1);
    diff_table[14] += addsub_bit(0, 31, 1);
    diff_table[14] += addsub_bit(0, 3, 1);
    diff_table[14] -= addsub_bit(0, 15, 1);
    diff_table[15] += addsub_bit(0, 31, 1);
    diff_table[15] -= addsub_bit(0, 29, 1);
    diff_table[16] += addsub_bit(0, 31, 1);
    diff_table[17] += addsub_bit(0, 31, 1);
    diff_table[18] += addsub_bit(0, 31, 1);
    diff_table[18] += addsub_bit(0, 17, 1);
    diff_table[19] += addsub_bit(0, 31, 1);
    diff_table[20] += addsub_bit(0, 31, 1);
    diff_table[21] += addsub_bit(0, 31, 1);
    diff_table[48] += addsub_bit(0, 31, 1);
    diff_table[49] += addsub_bit(0, 31, -1);
    diff_table[50] += addsub_bit(0, 31, 1);
    diff_table[51] += addsub_bit(0, 31, -1);
    diff_table[52] += addsub_bit(0, 31, -1);
    diff_table[53] += addsub_bit(0, 31, -1);
    diff_table[54] += addsub_bit(0, 31, -1);
    diff_table[55] += addsub_bit(0, 31, -1);
    diff_table[56] += addsub_bit(0, 31, -1);
    diff_table[57] += addsub_bit(0, 31, -1);
    diff_table[58] += addsub_bit(0, 31, 1);
    diff_table[59] += addsub_bit(0, 31, 1);
    diff_table[60] += addsub_bit(0, 31, 1);
    diff_table[61] += addsub_bit(0, 32, 1);
    diff_table[61] += addsub_bit(0, 25, 1);
    diff_table[62] += addsub_bit(0, 31, 1);
    diff_table[62] += addsub_bit(0, 25, 1);
    diff_table[63] += addsub_bit(0, 31, -1);
    diff_table[63] += addsub_bit(0, 25, 1);
    diff_table[64] += addsub_bit(0, 31, 1);
    diff_table[65] += addsub_bit(0, 31, 1);
    diff_table[65] += addsub_bit(0, 25, 1);
    diff_table[66] += addsub_bit(0, 31, 1);
    diff_table[66] += addsub_bit(0, 25, 1);
    diff_table[67] += addsub_bit(0, 31, -1);
    diff_table[67] += addsub_bit(0, 25, 1);

    proof {
        assert(diff_table@ =~= path_differences());
    }
    diff_table
}


/// Whether `fcheck_cond` can look at `Q[i]` once the bitfields are built: a
/// node whose slot 3 comes out nonzero has conditions, the last naming a node.
pub open spec fn last_ref_usable(t: [Node; 76], i: int) -> bool {
    built_slot(t[4 + i].list@, 3, t[4 + i].bf[3]) != 0 ==> {
        &&& t[4 + i].list@.len() > 0
        &&& 0 <= t[4 + i].list@.last().crind < 76
    }
}

/// A condition table that the first-block search can work with: every
/// condition's bitfield position is non-negative, the conditions of
/// `Q[0] .. Q[16]` stay inside the word and the table, and the nodes checked
/// with `fcheck_cond` can be checked.
pub open spec fn table_usable(t: [Node; 76]) -> bool {
    &&& forall|k: int| 4 <= k < 76 ==> #[trigger] bitfield_ok(t[k].list@)
    &&& forall|i: int| 0 <= i < 17 ==> #[trigger] conds_usable(t[4 + i].list@)
    &&& last_ref_usable(t, 17)
    &&& last_ref_usable(t, 18)
    &&& last_ref_usable(t, 20)
    &&& forall|i: int| 69 <= i < 72 ==> #[trigger] last_ref_usable(t, i)
}

/// The differential the path asks of step `k` with values `q` and `qp`: the
/// XOR difference 2^31 in the third round from step 34 on, the modular
/// difference `dt[k]` elsewhere.
pub open spec fn path_step_ok(q: u32, qp: u32, dt: Seq<u32>, k: int) -> bool {
    if 32 <= k < 48 {
        k <= 33 || (qp ^ q) == 0x80000000u32
    } else {
        w32(qp - q) == dt[k]
    }
}

/// The computations of the blocks `m16` and `mp16` from the chaining value
/// `iv` follow the differential path at steps 0 .. 60, and their output words
/// `d, c, b` differ by `dt[65]`, `dt[66]`, `dt[67]`.
pub open spec fn first_path_holds(iv: Seq<u32>, m16: Seq<u32>, mp16: Seq<u32>) -> bool {
    let init = q_init(iv);
    let dt = path_differences();
    let cv = md5_compress(iv, m16);
    let cvp = md5_compress(iv, mp16);
    &&& forall|k: int| 0 <= k < 60 ==> #[trigger] path_step_ok(md5_q(init, m16, k), md5_q(init, mp16, k), dt, k)
    &&& w32(cvp[3] - cv[3]) == dt[65]
    &&& w32(cvp[2] - cv[2]) == dt[66]
    &&& w32(cvp[1] - cv[1]) == dt[67]
}

/// `(m, mp)` is a first-block pair from the chaining value `iv`, and `cv` the
/// chaining value after `m`: words 16 .. 32 of both are zero, `mp` differs
/// from `m` as `first_block_prime` says, and the two computations follow the
/// differential path (`first_path_holds`).
pub open spec fn first_pair_found(iv: Seq<u32>, cv: Seq<u32>, m: Seq<u32>, mp: Seq<u32>) -> bool {
    let m16 = m.subrange(0, 16);
    let mp16 = mp.subrange(0, 16);
    &&& m.len() == 32 && mp.len() == 32
    &&& m.subrange(16, 32) == Seq::new(16, |k: int| 0u32)
    &&& mp.subrange(16, 32) == m.subrange(16, 32)
    &&& mp16 == first_block_prime(m)
    &&& cv == md5_compress(iv, m16)
    &&& first_path_holds(iv, m16, mp16)
}

/// All 76 node values at the end of a successful search from `iv` with the
/// block `m16`: the chaining words `a, d, c, b`, then `Q[0] .. Q[63]`, the
/// chaining words again, and the output words `a, d, c, b`.
pub open spec fn final_values(iv: Seq<u32>, m16: Seq<u32>) -> Seq<u32> {
    let init = q_init(iv);
    let cv = md5_compress(iv, m16);
    Seq::new(
        76,
        |k: int|
            if k < 4 {
                init[k]
            } else if k < 68 {
                md5_q(init, m16, k - 4)
            } else if k < 72 {
                init[k - 68]
            } else {
                q_init(cv)[k - 72]
            },
    )
}

/// The bits of `Q[ind]` that break its conditions, from the node values `v`
/// and the node's bitfields `bf` and conditions `list`.
pub open spec fn broken_bits(v: Seq<u32>, bf: Seq<u32>, list: Seq<Condition>, ind: int) -> u32 {
    let x = v[4 + ind];
    let y = 0u32 | (!x & bf[0]) | (x & bf[1]) | ((v[4 + ind - 1] & bf[2]) ^ (x & bf[2]));
    if bf[3] != 0 {
        y | ((!v[list.last().crind as int] & bf[3]) ^ (x & bf[2]))
    } else {
        y
    }
}

/// `broken_bits` judges each bit the way `lemma_fcheck_bit` describes, on the
/// values `v` and the bitfields `bf`.
pub proof fn lemma_broken_bits_bit(v: Seq<u32>, bf: Seq<u32>, list: Seq<Condition>, ind: int, k: u32)
    requires
        k < 32,
    ensures
        ({
            let x = v[4 + ind];
            let p = v[4 + ind - 1];
            let r = v[list.last().crind as int];
            let y = broken_bits(v, bf, list, ind);
            let (b0, b1, b2, b3) = (bf[0], bf[1], bf[2], bf[3]);
            &&& (bit_of(b0, k) == 0 && bit_of(b1, k) == 0 && bit_of(b2, k) == 0 && bit_of(b3, k) == 0) ==> bit_of(y, k) == 0
            &&& (bit_of(b0, k) == 1 && bit_of(b1, k) == 0 && bit_of(b2, k) == 0 && bit_of(b3, k) == 0) ==> (bit_of(y, k) == 1)
                == (bit_of(x, k) == 0)
            &&& (bit_of(b0, k) == 0 && bit_of(b1, k) == 1 && bit_of(b2, k) == 0 && bit_of(b3, k) == 0) ==> (bit_of(y, k) == 1)
                == (bit_of(x, k) == 1)
            &&& (bit_of(b0, k) == 0 && bit_of(b1, k) == 0 && bit_of(b2, k) == 1 && b3 == 0) ==> (bit_of(y, k) == 1) == (bit_of(
                x,
                k,
            ) != bit_of(p, k))
            &&& (bit_of(b0, k) == 0 && bit_of(b1, k) == 0 && bit_of(b2, k) == 0 && bit_of(b3, k) == 1) ==> (bit_of(y, k) == 1)
                == (bit_of(r, k) == 0)
        }),
{
    lemma_check_word_bit(
        v[4 + ind],
        v[4 + ind - 1],
        v[list.last().crind as int],
        bf[0],
        bf[1],
        bf[2],
        bf[3],
        broken_bits(v, bf, list, ind),
        k,
    );
}

/// The output words `d, c, b` of the search from `iv` with the block `m16`
/// meet the conditions that `table` sets on them (its nodes 73 .. 76).
pub open spec fn output_conds_met(table: [Node; 76], iv: Seq<u32>, m16: Seq<u32>) -> bool {
    forall|i: int|
        69 <= i < 72 ==> #[trigger] broken_bits(final_values(iv, m16), built_bf(table[4 + i]), table[4 + i].list@, i) == 0
}

proof fn lemma_fcheck_broken_bits(n: [Node; 76], ind: int)
    requires
        fcheck_usable(n, ind),
        ind >= 1,
    ensures
        fcheck(n@, ind) == broken_bits(vals(n), n[4 + ind].bf@, n[4 + ind].list@, ind),
{
    reveal(fcheck);
    let nd = n[4 + ind];
    assert(vals(n)[4 + ind] == nd.val);
    assert(vals(n)[4 + ind - 1] == n[4 + ind - 1].val);
    if nd.bf[3] != 0 {
        let c = nd.list@.last().crind as int;
        assert(vals(n)[c] == n[c].val);
    }
}

/// Values that follow every step from `init` are the `Q` words of the compression.
proof fn lemma_steps_are_q(v: Seq<u32>, m: Seq<u32>, init: Seq<u32>, k: int)
    requires
        v.len() == 76,
        v.subrange(0, 4) == init,
        steps_hold(v, m, 0, 64),
        -4 <= k < 64,
    ensures
        v[k + 4] == md5_q(init, m, k),
    decreases k + 4,
{
    if k >= 0 {
        lemma_steps_are_q(v, m, init, k - 1);
        lemma_steps_are_q(v, m, init, k - 2);
        lemma_steps_are_q(v, m, init, k - 3);
        lemma_steps_are_q(v, m, init, k - 4);
        assert(step_holds(v, m, k));
    } else {
        assert(v.subrange(0, 4)[k + 4] == v[k + 4]);
    }
}

/// A check from step 0 that found the whole path and the output in order
/// gives a first-block pair.
#[verifier::spinoff_prover]
#[verifier::rlimit(50)]
proof fn lemma_first_pair(np: [Node; 76], n: [Node; 76], iv: Seq<u32>, m: Seq<u32>, cv: Seq<u32>, mp: Seq<u32>)
    requires
        diffs_post(np, n, m, path_differences(), 0i32, -1i32),
        iv_held(np, iv),
        m.len() == 32,
        m.subrange(16, 32) == Seq::new(16, |k: int| 0u32),
        mp.len() == 32,
        mp.subrange(0, 16) == first_block_prime(m),
        mp.subrange(16, 32) == m.subrange(16, 32),
        cv == seq![n[72].val, n[75].val, n[74].val, n[73].val],
    ensures
        first_pair_found(iv, cv, m, mp),
        vals(n) == final_values(iv, m.subrange(0, 16)),
{
    let dt = path_differences();
    let v = vals(n);
    let tv = tvals(n);
    let v0 = vals(np);
    let tv0 = tvals(np);
    let init = q_init(iv);
    let m16 = m.subrange(0, 16);
    let mp16 = mp.subrange(0, 16);
    assert(start_tvals(np, dt, 0) == tv0);
    assert(v.subrange(0, 4) =~= init) by {
        assert(v0.subrange(0, 4) == init);
        assert forall|k: int| 0 <= k < 4 implies #[trigger] v.subrange(0, 4)[k] == init[k] by {
            assert(v[k] == v0[k]);
            assert(v0.subrange(0, 4)[k] == v0[k]);
        }
    }
    assert(tv.subrange(0, 4) =~= init) by {
        assert(tv0.subrange(0, 4) == init);
        assert forall|k: int| 0 <= k < 4 implies #[trigger] tv.subrange(0, 4)[k] == init[k] by {
            assert(tv[k] == tv0[k]);
            assert(tv0.subrange(0, 4)[k] == tv0[k]);
        }
    }
    assert forall|k: int| 0 <= k < 64 implies #[trigger] m[w_of(k)] == m16[w_of(k)] by {
        lemma_smap_range(k);
    }
    lemma_steps_msg_frame(v, m, m16, 0, 64);
    assert(forall|k: int| -4 <= k < 64 ==> v[k + 4] == #[trigger] md5_q(init, m16, k)) by {
        assert forall|k: int| -4 <= k < 64 implies v[k + 4] == #[trigger] md5_q(init, m16, k) by {
            lemma_steps_are_q(v, m16, init, k);
        }
    }
    assert(forall|k: int| -4 <= k < 64 ==> tv[k + 4] == #[trigger] md5_q(init, mp16, k)) by {
        assert forall|k: int| -4 <= k < 64 implies tv[k + 4] == #[trigger] md5_q(init, mp16, k) by {
            lemma_steps_are_q(tv, mp16, init, k);
        }
    }
    assert forall|k: int| 0 <= k < 60 implies #[trigger] path_step_ok(md5_q(init, m16, k), md5_q(init, mp16, k), dt, k) by {
        assert(check_ok(v, tv, dt, k));
        assert(v[k + 4] == md5_q(init, m16, k));
        assert(tv[k + 4] == md5_q(init, mp16, k));
    }
    assert(v[72int + 0] == w32(v[64int + 0] + v[0int]) && tv[72int + 0] == w32(tv[64int + 0] + v[0int]));
    assert(v[72int + 1] == w32(v[64int + 1] + v[1int]) && tv[72int + 1] == w32(tv[64int + 1] + v[1int]));
    assert(v[72int + 2] == w32(v[64int + 2] + v[2int]) && tv[72int + 2] == w32(tv[64int + 2] + v[2int]));
    assert(v[72int + 3] == w32(v[64int + 3] + v[3int]) && tv[72int + 3] == w32(tv[64int + 3] + v[3int]));
    assert(md5_q(init, m16, 60) == v[64] && md5_q(init, m16, 61) == v[65]);
    assert(md5_q(init, m16, 62) == v[66] && md5_q(init, m16, 63) == v[67]);
    assert(md5_q(init, mp16, 60) == tv[64] && md5_q(init, mp16, 61) == tv[65]);
    assert(md5_q(init, mp16, 62) == tv[66] && md5_q(init, mp16, 63) == tv[67]);
    assert(v[0] == iv[0] && v[1] == iv[3] && v[2] == iv[2] && v[3] == iv[1]) by {
        assert(v.subrange(0, 4)[0] == v[0] && v.subrange(0, 4)[1] == v[1]);
        assert(v.subrange(0, 4)[2] == v[2] && v.subrange(0, 4)[3] == v[3]);
    }
    assert(cv =~= md5_compress(iv, m16)) by {
        assert(v[72] == n[72].val && v[73] == n[73].val && v[74] == n[74].val && v[75] == n[75].val);
    }
    let cvp = md5_compress(iv, mp16);
    assert(out_ok(n, dt, 69) && out_ok(n, dt, 70) && out_ok(n, dt, 71));
    assert(cvp[3] == tv[73] && cvp[2] == tv[74] && cvp[1] == tv[75]);
    assert(cv[3] == v[73] && cv[2] == v[74] && cv[1] == v[75]);
    assert(vals(n) =~= final_values(iv, m16)) by {
        assert forall|k: int| 0 <= k < 76 implies #[trigger] vals(n)[k] == final_values(iv, m16)[k] by {
            if k < 4 {
                assert(v.subrange(0, 4)[k] == v[k]);
            } else if k < 68 {
                assert(v[(k - 4) + 4] == md5_q(init, m16, k - 4));
            } else if k < 72 {
                assert(v[k] == v0[k]);
                assert(v0.subrange(68, 72) == init);
                assert(v0.subrange(68, 72)[k - 68] == v0[k]);
            }
        }
    }
}

/// Whether the condition table can be searched with: the exact test of
/// `table_usable`.
pub fn first_table_usable(table: &[Node; 76]) -> (r: bool)
    ensures
        r == table_usable(*table),
{
    let mut k: usize = 4;
    while k < 76
        invariant
            4 <= k <= 76,
            forall|j: int| 4 <= j < k ==> #[trigger] bitfield_ok(table[j].list@),
        decreases 76 - k,
    {
        let len = table[k].list.len();
        let mut j: usize = 0;
        while j < len
            invariant
                len == table[k as int].list@.len(),
                j <= len,
                4 <= k < 76,
                forall|i: int| 0 <= i < j ==> {
                    &&& (#[trigger] table[k as int].list@[i]).cref == -1 || table[k as int].list@[i].cref == -2
                        ==> table[k as int].list@[i].ind >= 0
                    &&& table[k as int].list@[i].cref > -1 ==> table[k as int].list@[i].crind >= 0
                },
            decreases len - j,
        {
            let c = table[k].list[j];
            if (c.cref == -1 || c.cref == -2) && c.ind < 0 {
                assert(table[k as int].list@[j as int] == c);
                assert(!bitfield_ok(table[k as int].list@));
                return false;
            }
            if c.cref > -1 && c.crind < 0 {
                assert(table[k as int].list@[j as int] == c);
                assert(!bitfield_ok(table[k as int].list@));
                return false;
            }
            j += 1;
        }
        k += 1;
    }
    let mut i: usize = 0;
    while i < 17
        invariant
            i <= 17,
            forall|j: int| 4 <= j < 76 ==> #[trigger] bitfield_ok(table[j].list@),
            forall|j: int| 0 <= j < i ==> #[trigger] conds_usable(table[4 + j].list@),
        decreases 17 - i,
    {
        let len = table[4 + i].list.len();
        let mut j: usize = 0;
        while j < len
            invariant
                len == table[4 + i as int].list@.len(),
                j <= len,
                i < 17,
                forall|l: int|
                    0 <= l < j ==> {
                        &&& 0 <= #[trigger] table[4 + i as int].list@[l].ind < 32
                        &&& table[4 + i as int].list@[l].cref >= 0 ==> table[4 + i as int].list@[l].cref < 72 && 0
                            <= table[4 + i as int].list@[l].crind < 32
                    },
            decreases len - j,
        {
            let c = table[4 + i].list[j];
            if c.ind < 0 || c.ind >= 32 {
                assert(table[4 + i as int].list@[j as int] == c);
                assert(!conds_usable(table[4 + i as int].list@));
                return false;
            }
            if c.cref >= 0 && (c.cref >= 72 || c.crind < 0 || c.crind >= 32) {
                assert(table[4 + i as int].list@[j as int] == c);
                assert(!conds_usable(table[4 + i as int].list@));
                return false;
            }
            j += 1;
        }
        i += 1;
    }
    last_ref_check(table, 17) && last_ref_check(table, 18) && last_ref_check(table, 20) && last_ref_check(table, 69)
        && last_ref_check(table, 70) && last_ref_check(table, 71)
}

/// The exact test of `last_ref_usable` for one node.
fn last_ref_check(table: &[Node; 76], i: usize) -> (r: bool)
    requires
        i < 72,
        bitfield_ok(table[4 + i as int].list@),
    ensures
        r == last_ref_usable(*table, i as int),
{
    let bf = node_bitfield(&table[4 + i]);
    if bf[3] == 0 {
        return true;
    }
    let len = table[4 + i].list.len();
    if len == 0 {
        return false;
    }
    let c = table[4 + i].list[len - 1];
    0 <= c.crind && c.crind < 76
}

/// Searches for a first-block pair from the chaining value `init_vector`
/// with the conditions of `table`: returns the chaining value after `M`,
/// `M` and `M'` (32 words each, the last 16 zero). `None` only when a
/// randomised loop used up `SEARCH_LIMIT` attempts.
pub fn block1(init_vector: [u32; 4], table: [Node; 76]) -> (r: Option<([u32; 4], [u32; 32], [u32; 32])>)
    requires
        table_usable(table),
    ensures
        r matches Some(t) ==> first_pair_found(init_vector@, t.0@, t.1@, t.2@),
        r matches Some(t) ==> output_conds_met(table, init_vector@, t.1@.subrange(0, 16)),
{
    let mut g_n19: u32 = 0;
    let mut re = table;
    build_bitfield(&mut re);
    let ghost built = re;
    proof {
        assert forall|i: int| 0 <= i < 16 implies #[trigger] conds_usable(re[4 + i].list@) by {
            assert(re[4 + i].list == table[4 + i].list);
            assert(conds_usable(table[4 + i].list@));
        }
        assert(re[20].list == table[20].list);
        assert(conds_usable(table[4int + 16].list@));
        assert forall|i: int| (i == 17 || i == 18 || i == 20 || 69 <= i < 72) implies #[trigger] fcheck_usable(re, i) by {
            assert(re[4 + i].list == table[4 + i].list);
            assert(re[4 + i].bf@ == built_bf(table[4 + i]));
            assert(re[4 + i].bf[3] == built_bf(table[4 + i])[3]);
            assert(last_ref_usable(table, i));
        }
        assert(first_block_usable(re));
    }
    let dt = construct_diff_table();
    let mut m_block: [u32; 32] = [0; 32];
    new_rand_mblock(&mut m_block);
    proof {
        assert(m_block@.subrange(16, 32) =~= Seq::new(16, |k: int| 0u32));
    }
    let ghost nb = re;
    let ghost mb = m_block@;
    if !first_block(init_vector, &mut m_block, &mut re, dt, &mut g_n19) {
        return None;
    }
    proof {
        lemma_usable_conds(re, nb);
        assert(m_block@.subrange(16, 32) =~= mb.subrange(16, 32));
    }
    let mut tries: u64 = 0;
    loop
        invariant
            first_block_usable(re),
            same_conds(re, built),
            forall|k: int| 4 <= k < 76 ==> #[trigger] built[k].bf@ == built_bf(table[k]) && built[k].list == table[k].list,
            iv_held(re, init_vector@),
            dt@ == path_differences(),
            m_block@.subrange(16, 32) == Seq::new(16, |k: int| 0u32),
        decreases SEARCH_LIMIT - tries,
    {
        let ghost np = re;
        let ghost m = m_block@;
        let step = check_diffs(&mut m_block, &mut re, 0, dt);
        proof {
            lemma_check_diffs_frame(np, re, m, dt@, 0, step, init_vector@);
            lemma_same_conds_trans(re, np, built);
        }
        if step <= -1 {
            let cv = [re[RELATIVE_INDEX + 68].val, re[RELATIVE_INDEX + 71].val, re[RELATIVE_INDEX + 70].val, re[RELATIVE_INDEX + 69].val];
            let m_block_before = m_block;
            m_block[4] = addsub_bit(m_block[4], 31, 1);
            m_block[11] = addsub_bit(m_block[11], 15, 1);
            m_block[14] = addsub_bit(m_block[14], 31, 1);
            proof {
                lemma_bit_values();
                assert(step == -1);
                assert(m_block@.subrange(0, 16) =~= first_block_prime(m));
                assert(m_block@.subrange(16, 32) =~= m.subrange(16, 32));
                assert(cv@ =~= seq![re[72].val, re[75].val, re[74].val, re[73].val]);
                lemma_first_pair(np, re, init_vector@, m, cv@, m_block@);
                assert forall|i: int| 69 <= i < 72 implies #[trigger] broken_bits(
                    final_values(init_vector@, m_block_before@.subrange(0, 16)),
                    built_bf(table[4 + i]),
                    table[4 + i].list@,
                    i,
                ) == 0 by {
                    assert(out_ok(re, dt@, i));
                    assert(fcheck_usable(re, i));
                    lemma_fcheck_broken_bits(re, i);
                    assert(re[4 + i].bf == built[4 + i].bf && re[4 + i].list == built[4 + i].list);
                    assert(built[4 + i].bf@ == built_bf(table[4 + i]));
                }
            }
            return Some((cv, m_block_before, m_block));
        }
        if tries == SEARCH_LIMIT {
            return None;
        }
        tries += 1;
        let ghost nb = re;
        let ghost mb = m_block@;
        if !first_block(init_vector, &mut m_block, &mut re, dt, &mut g_n19) {
            return None;
        }
        proof {
            lemma_usable_conds(re, nb);
            lemma_same_conds_trans(re, nb, built);
            assert(m_block@.subrange(16, 32) =~= mb.subrange(16, 32));
        }
    }
}

} // verus!
