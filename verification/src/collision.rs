//! The whole search: a first block, then a second block from the chaining
//! value it leaves, put together into two 32-word messages; and the bytes
//! those messages are written as.

use vstd::prelude::*;
use crate::block_1::{block1, first_block_prime, first_pair_found, first_path_holds, output_conds_met, table_usable, Node};
use crate::block_2::{
    block2, cond_usable, q_values, run_ok, second_block_cv, second_block_prime, second_pair_found, xor_path,
};
use crate::md5::{md5_compress, q_init};

verus! {

/// `(m, mp)` are two-block messages from the chaining value `iv`, and `cv`
/// the chaining value after either: the first blocks are a first-block pair
/// following the differential path, and the second blocks, compressed from
/// the chaining value after `m`'s first block and from that value with the
/// differences `second_block_cv` adds, show the XOR differences of the second
/// path from step 21 on and both give `cv`.
pub open spec fn two_blocks_found(iv: Seq<u32>, cv: Seq<u32>, m: Seq<u32>, mp: Seq<u32>) -> bool {
    let m1 = m.subrange(0, 16);
    let m2 = m.subrange(16, 32);
    let mp1 = mp.subrange(0, 16);
    let mp2 = mp.subrange(16, 32);
    let cv1 = md5_compress(iv, m1);
    &&& m.len() == 32 && mp.len() == 32
    &&& mp1 == first_block_prime(m)
    &&& first_path_holds(iv, m1, mp1)
    &&& mp2 == second_block_prime(m2)
    &&& xor_path(q_init(cv1), q_init(second_block_cv(cv1)), m2, mp2, 21, 64)
    &&& cv == md5_compress(cv1, m2)
    &&& cv == md5_compress(second_block_cv(cv1), mp2)
}

/// The chaining value after the two blocks of a 32-word message.
pub open spec fn md5_two_blocks(iv: Seq<u32>, m: Seq<u32>) -> Seq<u32> {
    md5_compress(md5_compress(iv, m.subrange(0, 16)), m.subrange(16, 32))
}

/// Two-block messages collide whenever the first blocks leave chaining values
/// with the differences that the second block was built for.
pub proof fn lemma_two_blocks_collide(iv: Seq<u32>, cv: Seq<u32>, m: Seq<u32>, mp: Seq<u32>)
    requires
        two_blocks_found(iv, cv, m, mp),
        md5_compress(iv, mp.subrange(0, 16)) == second_block_cv(md5_compress(iv, m.subrange(0, 16))),
    ensures
        md5_two_blocks(iv, m) == cv,
        md5_two_blocks(iv, mp) == cv,
{
}

/// The two messages of a search always differ, and so do their bytes: word 4
/// of the first blocks differs in its top bit, which is bit 7 of byte 19.
pub proof fn lemma_messages_differ(iv: Seq<u32>, cv: Seq<u32>, m: Seq<u32>, mp: Seq<u32>)
    requires
        two_blocks_found(iv, cv, m, mp),
    ensures
        m != mp,
        le_bytes(m) != le_bytes(mp),
{
    let x = m[4];
    assert(mp[4] == mp.subrange(0, 16)[4]);
    assert(mp[4] == crate::md5::w32(x + 0x8000_0000));
    let y = mp[4];
    assert(y == x ^ 0x8000_0000u32) by (bit_vector)
        requires
            y == ((x + 0x8000_0000u32) % 0x1_0000_0000) as u32,
    ;
    assert(((x >> 24u32) & 0xff) as u8 != ((y >> 24u32) & 0xff) as u8) by (bit_vector)
        requires
            y == x ^ 0x8000_0000u32,
    ;
    assert(le_bytes(m)[19] == ((x >> 24u32) & 0xff) as u8);
    assert(le_bytes(mp)[19] == ((y >> 24u32) & 0xff) as u8);
}

/// The two messages of both blocks put together: block 2's chaining value,
/// then for each message the first 16 words of block 1's followed by block 2's.
pub open spec fn joined(cv2: Seq<u32>, m1: Seq<u32>, mp1: Seq<u32>, m2: Seq<u32>, mp2: Seq<u32>) -> (Seq<u32>, Seq<u32>, Seq<u32>) {
    (cv2, m1.subrange(0, 16) + m2, mp1.subrange(0, 16) + mp2)
}

/// Puts the results of the two blocks together: block 2's chaining value,
/// and words 16 .. 32 of both messages of block 1 replaced by block 2's.
pub fn join_blocks(
    first: ([u32; 4], [u32; 32], [u32; 32]),
    second: ([u32; 4], [u32; 16], [u32; 16]),
) -> (r: ([u32; 4], [u32; 32], [u32; 32]))
    ensures
        (r.0@, r.1@, r.2@) == joined(second.0@, first.1@, first.2@, second.1@, second.2@),
{
    let (_cv1, mut m, mut mp) = first;
    let (cv2, m2, mp2) = second;
    let ghost m0 = m@;
    let ghost mp0 = mp@;
    for i in 16..32
        invariant
            m0 == first.1@,
            mp0 == first.2@,
            m2 == second.1,
            mp2 == second.2,
            forall|k: int| 0 <= k < 16 ==> #[trigger] m@[k] == m0[k],
            forall|k: int| 0 <= k < 16 ==> #[trigger] mp@[k] == mp0[k],
            forall|k: int| 16 <= k < i ==> #[trigger] m@[k] == m2@[k - 16],
            forall|k: int| 16 <= k < i ==> #[trigger] mp@[k] == mp2@[k - 16],
    {
        m[i] = m2[i - 16];
        mp[i] = mp2[i - 16];
    }
    proof {
        assert(m@ =~= m0.subrange(0, 16) + m2@);
        assert(mp@ =~= mp0.subrange(0, 16) + mp2@);
    }
    (cv2, m, mp)
}

/// `(cv, m, mp)` is a first-block pair from `iv` followed by a second-block
/// pair (with the conditions `cond2`) from the chaining value it leaves: `cv`
/// is block 2's chaining value, and each message is the first 16 words of
/// block 1's followed by block 2's.
#[verifier::opaque]
pub open spec fn pieces_joined(iv: Seq<u32>, cond2: [[u32; 3]; 309], cv: Seq<u32>, m: Seq<u32>, mp: Seq<u32>) -> bool {
    exists|cv1: Seq<u32>, m1: Seq<u32>, mp1: Seq<u32>, m2: Seq<u32>, mp2: Seq<u32>|
        {
            &&& #[trigger] first_pair_found(iv, cv1, m1, mp1)
            &&& #[trigger] second_pair_found(cond2, cv1, cv, m2, mp2)
            &&& (cv, m, mp) == joined(cv, m1, mp1, m2, mp2)
        }
}

/// A first-block pair followed by a second-block pair from the chaining
/// value it leaves are two-block messages.
proof fn lemma_joined_found(
    iv: Seq<u32>,
    table1: [Node; 76],
    cond2: [[u32; 3]; 309],
    first: ([u32; 4], [u32; 32], [u32; 32]),
    second: ([u32; 4], [u32; 16], [u32; 16]),
    t: ([u32; 4], [u32; 32], [u32; 32]),
)
    requires
        first_pair_found(iv, first.0@, first.1@, first.2@),
        output_conds_met(table1, iv, first.1@.subrange(0, 16)),
        second_pair_found(cond2, first.0@, second.0@, second.1@, second.2@),
        (t.0@, t.1@, t.2@) == joined(second.0@, first.1@, first.2@, second.1@, second.2@),
    ensures
        pieces_joined(iv, cond2, t.0@, t.1@, t.2@),
        two_blocks_found(iv, t.0@, t.1@, t.2@),
        output_conds_met(table1, iv, t.1@.subrange(0, 16)),
        forall|i: int|
            0 <= i < 286 && cond2[i][0] <= 6 ==> #[trigger] run_ok(
                cond2,
                q_values(q_init(md5_compress(iv, t.1@.subrange(0, 16))), t.1@.subrange(16, 32)),
                i,
            ),
{
    let m = t.1@;
    let mp = t.2@;
    assert(m.subrange(0, 16) =~= first.1@.subrange(0, 16));
    assert(mp.subrange(0, 16) =~= first.2@.subrange(0, 16));
    assert(m.subrange(16, 32) =~= second.1@);
    assert(mp.subrange(16, 32) =~= second.2@);
    assert(first_block_prime(m) =~= first_block_prime(first.1@));
    assert(t.0@ == second.0@);
    reveal(pieces_joined);
    assert(first_pair_found(iv, first.0@, first.1@, first.2@));
    assert(second_pair_found(cond2, first.0@, t.0@, second.1@, second.2@));
}

/// Searches for a first block from `init_vector` with the conditions of
/// `table1` and then for a second block from the chaining value it leaves
/// with those of `cond2`; returns the chaining value after the second block
/// and the two 32-word messages, block 1's words followed by block 2's.
/// `None` only when a randomised loop used up `SEARCH_LIMIT` attempts.
pub fn calculate_m_and_mprime(init_vector: [u32; 4], table1: [Node; 76], cond2: [[u32; 3]; 309]) -> (r: Option<
    ([u32; 4], [u32; 32], [u32; 32]),
>)
    requires
        table_usable(table1),
        cond_usable(cond2, 0, 286),
    ensures
        r matches Some(t) ==> pieces_joined(init_vector@, cond2, t.0@, t.1@, t.2@),
        r matches Some(t) ==> two_blocks_found(init_vector@, t.0@, t.1@, t.2@),
        r matches Some(t) ==> output_conds_met(table1, init_vector@, t.1@.subrange(0, 16)),
        r matches Some(t) ==> forall|i: int|
            0 <= i < 286 && cond2[i][0] <= 6 ==> #[trigger] run_ok(
                cond2,
                q_values(q_init(md5_compress(init_vector@, t.1@.subrange(0, 16))), t.1@.subrange(16, 32)),
                i,
            ),
{
    let first = match block1(init_vector, table1) {
        Some(t) => t,
        None => return None,
    };
    let second = match block2(first.0, cond2) {
        Some(t) => t,
        None => return None,
    };
    let r = join_blocks(first, second);
    proof {
        lemma_joined_found(init_vector@, table1, cond2, first, second, r);
    }
    Some(r)
}

/// The bytes of the words `words`, each least significant byte first.
pub open spec fn le_bytes(words: Seq<u32>) -> Seq<u8> {
    Seq::new(words.len() * 4, |k: int| ((words[k / 4] >> ((8 * (k % 4)) as u32)) & 0xff) as u8)
}

/// Appends the 32 words of `block` to `out`, each least significant byte first.
pub fn add_to_output(block: [u32; 32], out: &mut Vec<u8>)
    ensures
        final(out)@ == old(out)@ + le_bytes(block@),
{
    for i in 0..32
        invariant
            out@ == old(out)@ + le_bytes(block@.take(i as int)),
    {
        let hex = block[i];
        let ghost before = out@;
        out.push((hex & 0xff) as u8);
        out.push(((hex >> 8) & 0xff) as u8);
        out.push(((hex >> 16) & 0xff) as u8);
        out.push(((hex >> 24) & 0xff) as u8);
        proof {
            let t = block@.take(i + 1);
            let p = block@.take(i as int);
            assert forall|k: int| 0 <= k < p.len() * 4 implies #[trigger] le_bytes(t)[k] == le_bytes(p)[k] by {
                assert(t[k / 4] == p[k / 4]);
            }
            assert(t[i as int] == hex);
            assert((hex >> 0u32) == hex) by (bit_vector);
            assert((4 * i + 0) / 4 == i && (4 * i + 0) % 4 == 0);
            assert((4 * i + 1) / 4 == i && (4 * i + 1) % 4 == 1);
            assert((4 * i + 2) / 4 == i && (4 * i + 2) % 4 == 2);
            assert((4 * i + 3) / 4 == i && (4 * i + 3) % 4 == 3);
            assert(le_bytes(t)[4 * i + 0] == (hex & 0xff) as u8);
            assert(le_bytes(t)[4 * i + 1] == ((hex >> 8) & 0xff) as u8);
            assert(le_bytes(t)[4 * i + 2] == ((hex >> 16) & 0xff) as u8);
            assert(le_bytes(t)[4 * i + 3] == ((hex >> 24) & 0xff) as u8);
            assert(le_bytes(t).len() == le_bytes(p).len() + 4);
            assert(out@.len() == before.len() + 4);
            assert forall|k: int| 0 <= k < out@.len() implies #[trigger] out@[k] == (old(out)@ + le_bytes(t))[k] by {
                if k < before.len() {
                    assert(out@[k] == before[k]);
                } else {
                    let j = k - old(out)@.len();
                    assert(0 <= j < le_bytes(t).len());
                    if j < 4 * i {
                        assert(out@[k] == before[k]);
                        assert(before[k] == le_bytes(p)[j]);
                    }
                }
            }
            assert(out@ =~= old(out)@ + le_bytes(t));
        }
    }
    proof {
        assert(block@.take(32) =~= block@);
    }
}

} // verus!
