//! MD5 constants, round functions and the step recurrence.
//!
//! The working values of a compression are numbered `Q[-4] .. Q[63]`:
//! `Q[-4] = a`, `Q[-3] = d`, `Q[-2] = c`, `Q[-1] = b` come from the chaining
//! value, and step `i` produces
//! `Q[i] = Q[i-1] + rotl(phi_i(Q[i-1], Q[i-2], Q[i-3]) + Q[i-4] + m[W[i]] + T[i], S[i])`
//! with all additions taken modulo 2^32.

use vstd::prelude::*;

verus! {

/// Rotation amount of each step.
pub const SMAP: [i32; 64] = [
    7, 12, 17, 22, 7, 12, 17, 22, 7, 12, 17, 22, 7, 12, 17, 22,
    5, 9, 14, 20, 5, 9, 14, 20, 5, 9, 14, 20, 5, 9, 14, 20,
    4, 11, 16, 23, 4, 11, 16, 23, 4, 11, 16, 23, 4, 11, 16, 23,
    6, 10, 15, 21, 6, 10, 15, 21, 6, 10, 15, 21, 6, 10, 15, 21,
];

/// Additive constant of each step.
pub const TMAP: [u32; 64] = [
    0xd76aa478, 0xe8c7b756, 0x242070db, 0xc1bdceee, 0xf57c0faf, 0x4787c62a, 0xa8304613, 0xfd469501,
    0x698098d8, 0x8b44f7af, 0xffff5bb1, 0x895cd7be, 0x6b901122, 0xfd987193, 0xa679438e, 0x49b40821,
    0xf61e2562, 0xc040b340, 0x265e5a51, 0xe9b6c7aa, 0xd62f105d, 0x02441453, 0xd8a1e681, 0xe7d3fbc8,
    0x21e1cde6, 0xc33707d6, 0xf4d50d87, 0x455a14ed, 0xa9e3e905, 0xfcefa3f8, 0x676f02d9, 0x8d2a4c8a,
    0xfffa3942, 0x8771f681, 0x6d9d6122, 0xfde5380c, 0xa4beea44, 0x4bdecfa9, 0xf6bb4b60, 0xbebfbc70,
    0x289b7ec6, 0xeaa127fa, 0xd4ef3085, 0x04881d05, 0xd9d4d039, 0xe6db99e5, 0x1fa27cf8, 0xc4ac5665,
    0xf4292244, 0x432aff97, 0xab9423a7, 0xfc93a039, 0x655b59c3, 0x8f0ccc92, 0xffeff47d, 0x85845dd1,
    0x6fa87e4f, 0xfe2ce6e0, 0xa3014314, 0x4e0811a1, 0xf7537e82, 0xbd3af235, 0x2ad7d2bb, 0xeb86d391,
];

/// Index of the message word that each step consumes.
pub const MMAP: [usize; 64] = [
    0, 1, 2, 3, 4, 5, 6, 7, 8, 9, 10, 11, 12, 13, 14, 15,
    1, 6, 11, 0, 5, 10, 15, 4, 9, 14, 3, 8, 13, 2, 7, 12,
    5, 8, 11, 14, 1, 4, 7, 10, 13, 0, 3, 6, 9, 12, 15, 2,
    0, 7, 14, 5, 12, 3, 10, 1, 8, 15, 6, 13, 4, 11, 2, 9,
];

pub open spec fn s_of(i: int) -> u32 {
    SMAP@[i] as u32
}

pub open spec fn t_of(i: int) -> u32 {
    TMAP@[i]
}

pub open spec fn w_of(i: int) -> int {
    MMAP@[i] as int
}

/// Left rotation of a 32-bit word by `s` bits, `0 < s < 32`.
pub open spec fn rotl(x: u32, s: u32) -> u32 {
    (x << s) | (x >> ((32 - s) as u32))
}

/// Right rotation of a 32-bit word by `s` bits, `0 < s < 32`.
pub open spec fn rotr(x: u32, s: u32) -> u32 {
    (x >> s) | (x << ((32 - s) as u32))
}

pub proof fn lemma_rot_inverse(x: u32, s: u32)
    requires
        0 < s < 32,
    ensures
        rotr(rotl(x, s), s) == x,
        rotl(rotr(x, s), s) == x,
{
    assert(rotr(rotl(x, s), s) == x) by (bit_vector)
        requires
            0 < s < 32,
    ;
    assert(rotl(rotr(x, s), s) == x) by (bit_vector)
        requires
            0 < s < 32,
    ;
}


/// Reduction of an integer modulo 2^32, as a word.
pub open spec fn w32(v: int) -> u32 {
    (v % 0x1_0000_0000) as u32
}

pub broadcast proof fn lemma_wrapping_add_is_w32(x: u32, y: u32)
    ensures
        #[trigger] x.wrapping_add(y) == w32(x + y),
{
}

pub broadcast proof fn lemma_wrapping_sub_is_w32(x: u32, y: u32)
    ensures
        #[trigger] x.wrapping_sub(y) == w32(x - y),
{
}

pub broadcast proof fn lemma_w32_absorb(a: int, b: int)
    ensures
        #[trigger] w32(w32(a) + b) == w32(a + b),
        #[trigger] w32(b - w32(a)) == w32(b - a),
        w32(w32(a) - b) == w32(a - b),
{
    let m: int = 0x1_0000_0000;
    vstd::arithmetic::div_mod::lemma_add_mod_noop_right(b, a, m);
    vstd::arithmetic::div_mod::lemma_sub_mod_noop_right(b, a, m);
    vstd::arithmetic::div_mod::lemma_add_mod_noop_right(-b, a, m);
    assert(w32(a) as int == a % m);
    assert((a % m + b) % m == (a + b) % m);
    assert((b - a % m) % m == (b - a) % m);
    assert((a % m - b) % m == (a - b) % m);
}

pub broadcast proof fn lemma_w32_id(x: u32)
    ensures
        #[trigger] w32(x as int) == x,
{
}

pub proof fn lemma_smap_range(i: int)
    requires
        0 <= i < 64,
    ensures
        4 <= SMAP@[i] <= 23,
        0 < s_of(i) < 32,
        0 <= w_of(i) < 16,
        i < 16 ==> w_of(i) == i,
{
}

/// The round functions of MD5.
pub open spec fn f_fn(x: u32, y: u32, z: u32) -> u32 {
    (x & y) | (!x & z)
}

pub open spec fn g_fn(x: u32, y: u32, z: u32) -> u32 {
    (x & z) | (y & !z)
}

pub open spec fn h_fn(x: u32, y: u32, z: u32) -> u32 {
    x ^ y ^ z
}

pub open spec fn i_fn(x: u32, y: u32, z: u32) -> u32 {
    y ^ (x | !z)
}

/// The round function used by step `i`.
pub open spec fn round_fn(i: int, x: u32, y: u32, z: u32) -> u32 {
    if i < 16 {
        f_fn(x, y, z)
    } else if i < 32 {
        g_fn(x, y, z)
    } else if i < 48 {
        h_fn(x, y, z)
    } else {
        i_fn(x, y, z)
    }
}

/// `Q[i]` computed from `Q[i-1] .. Q[i-4]` and the message word `w` of step `i`.
#[verifier::opaque]
pub open spec fn md5_step(i: int, q1: u32, q2: u32, q3: u32, q4: u32, w: u32) -> u32 {
    w32(q1 + rotl(w32(round_fn(i, q1, q2, q3) + q4 + w + t_of(i)), s_of(i)))
}

/// The message word that makes step `i` produce `q` from `Q[i-1] .. Q[i-4]`.
#[verifier::opaque]
pub open spec fn unstep(i: int, q: u32, q1: u32, q2: u32, q3: u32, q4: u32) -> u32 {
    w32(rotr(w32(q - q1), s_of(i)) - round_fn(i, q1, q2, q3) - q4 - t_of(i))
}

/// The ways the code writes a rotation all agree with `rotl` / `rotr`.
pub proof fn lemma_rot_forms(x: u32, s: u32)
    requires
        0 < s < 32,
    ensures
        (x << s) ^ (x >> ((32 - s) as u32)) == rotl(x, s),
        (x >> ((32 - s) as u32)) | (x << s) == rotl(x, s),
        (x >> s) ^ (x << ((32 - s) as u32)) == rotr(x, s),
        (x << ((32 - s) as u32)) | (x >> s) == rotr(x, s),
        (x << s) + (x >> ((32 - s) as u32)) == rotl(x, s),
{
    assert((x << s) ^ (x >> ((32 - s) as u32)) == rotl(x, s)) by (bit_vector)
        requires
            0 < s < 32,
    ;
    assert((x >> ((32 - s) as u32)) | (x << s) == rotl(x, s)) by (bit_vector);
    assert((x >> s) ^ (x << ((32 - s) as u32)) == rotr(x, s)) by (bit_vector)
        requires
            0 < s < 32,
    ;
    assert((x << ((32 - s) as u32)) | (x >> s) == rotr(x, s)) by (bit_vector);
    assert((x << s) + (x >> ((32 - s) as u32)) == rotl(x, s)) by (bit_vector)
        requires
            0 < s < 32,
    ;
}

/// Step `i` maps the word `unstep(i, q, ..)` to `q`, and no other word does.
pub proof fn lemma_unstep(i: int, q: u32, q1: u32, q2: u32, q3: u32, q4: u32, w: u32)
    requires
        0 <= i < 64,
    ensures
        md5_step(i, q1, q2, q3, q4, unstep(i, q, q1, q2, q3, q4)) == q,
        md5_step(i, q1, q2, q3, q4, w) == q <==> w == unstep(i, q, q1, q2, q3, q4),
{
    broadcast use lemma_w32_absorb, lemma_w32_id;

    reveal(md5_step);
    reveal(unstep);
    lemma_smap_range(i);
    let s = s_of(i);
    let f = round_fn(i, q1, q2, q3);
    let t = t_of(i);
    let v = w32(q - q1);
    let u = unstep(i, q, q1, q2, q3, q4);
    lemma_rot_inverse(v, s);
    assert(w32(f + q4 + u + t) == w32(rotr(v, s) as int));
    assert(md5_step(i, q1, q2, q3, q4, u) == w32(q1 + v));
    assert(w32(q1 + w32(q - q1)) == w32(q1 + (q - q1)));
    if md5_step(i, q1, q2, q3, q4, w) == q {
        let z = w32(f + q4 + w + t);
        lemma_rot_inverse(z, s);
        assert(w32(q1 + rotl(z, s)) == q);
        assert(w32(q - q1) == w32(w32(q1 + rotl(z, s)) - q1));
        assert(w32(q1 + rotl(z, s) - q1) == rotl(z, s));
        assert(rotr(v, s) == z);
        assert(u == w32(w32(f + q4 + w + t) - f - q4 - t));
        assert(w32(f + q4 + w + t - f - q4 - t) == w);
    }
}

/// Left rotation by `s` bits, `0 < s < 32`.
pub fn cls(x: u32, s: i32) -> (r: u32)
    requires
        0 < s < 32,
    ensures
        r == rotl(x, s as u32),
{
    let k = s as u32;
    proof {
        lemma_rot_forms(x, k);
    }
    (x << k) ^ (x >> (32 - k))
}

/// Right rotation by `s` bits, `0 < s < 32`.
pub fn crs(x: u32, s: i32) -> (r: u32)
    requires
        0 < s < 32,
    ensures
        r == rotr(x, s as u32),
{
    let k = s as u32;
    proof {
        lemma_rot_forms(x, k);
    }
    (x >> k) ^ (x << (32 - k))
}

/// Right rotation by `num` bits, `0 < num < 32`.
pub fn md5_rr(var: u32, num: i32) -> (r: u32)
    requires
        0 < num < 32,
    ensures
        r == rotr(var, num as u32),
{
    let k = num as u32;
    proof {
        lemma_rot_forms(var, k);
    }
    let temp: u32 = var >> k;
    (var << (32 - k)) | temp
}

/// Left rotation by `num` bits, `0 < num < 32`.
pub fn md5_rl(var: u32, num: i32) -> (r: u32)
    requires
        0 < num < 32,
    ensures
        r == rotl(var, num as u32),
{
    let k = num as u32;
    proof {
        lemma_rot_forms(var, k);
    }
    let temp: u32 = var << k;
    (var >> (32 - k)) | temp
}

pub fn md5_f(x: u32, y: u32, z: u32) -> (r: u32)
    ensures
        r == f_fn(x, y, z),
{
    (x & y) | (!x & z)
}

pub fn md5_g(x: u32, y: u32, z: u32) -> (r: u32)
    ensures
        r == g_fn(x, y, z),
{
    (x & z) | (y & !z)
}

pub fn md5_h(x: u32, y: u32, z: u32) -> (r: u32)
    ensures
        r == h_fn(x, y, z),
{
    x ^ y ^ z
}

pub fn md5_i(x: u32, y: u32, z: u32) -> (r: u32)
    ensures
        r == i_fn(x, y, z),
{
    y ^ (x | !z)
}

/// The round function of step `i`: F below 16, G below 32, H below 48, I above.
pub fn get_md5_round_func(b: u32, c: u32, d: u32, i: usize) -> (r: u32)
    ensures
        r == round_fn(i as int, b, c, d),
{
    if i < 16 {
        return md5_f(b, c, d);
    }
    if i < 32 {
        return md5_g(b, c, d);
    }
    if i < 48 {
        return md5_h(b, c, d);
    }
    md5_i(b, c, d)
}

/// The single-bit mask of bit `bit - 1`, for `1 <= bit <= 32`.
pub fn shifting(bit: u32) -> (r: u32)
    requires
        1 <= bit <= 32,
    ensures
        r == 1u32 << ((bit - 1) as u32),
{
    1 << (bit - 1)
}

/// `Q[k]` of the compression of the words `m` (indexed by `W`), where `init`
/// holds `Q[-4], Q[-3], Q[-2], Q[-1]`, that is the chaining words `a, d, c, b`.
pub open spec fn md5_q(init: Seq<u32>, m: Seq<u32>, k: int) -> u32
    decreases k + 4,
{
    if k < 0 {
        init[k + 4]
    } else {
        md5_step(
            k,
            md5_q(init, m, k - 1),
            md5_q(init, m, k - 2),
            md5_q(init, m, k - 3),
            md5_q(init, m, k - 4),
            m[w_of(k)],
        )
    }
}

/// The `Q[-4] .. Q[-1]` words of a chaining value `cv = (a, b, c, d)`.
pub open spec fn q_init(cv: Seq<u32>) -> Seq<u32> {
    seq![cv[0], cv[3], cv[2], cv[1]]
}

/// The MD5 compression function: the chaining value `(a, b, c, d)` that
/// follows `cv` after the 16-word block `m`.
pub open spec fn md5_compress(cv: Seq<u32>, m: Seq<u32>) -> Seq<u32> {
    let init = q_init(cv);
    seq![
        w32(cv[0] + md5_q(init, m, 60)),
        w32(cv[1] + md5_q(init, m, 63)),
        w32(cv[2] + md5_q(init, m, 62)),
        w32(cv[3] + md5_q(init, m, 61)),
    ]
}

/// The chaining value `(a, b, c, d)` whose `Q[-4] .. Q[-1]` words are `init`.
pub open spec fn init_cv(init: Seq<u32>) -> Seq<u32> {
    seq![init[0], init[3], init[2], init[1]]
}

pub proof fn lemma_init_cv(init: Seq<u32>, cv: Seq<u32>)
    requires
        init.len() == 4,
        cv.len() == 4,
    ensures
        q_init(init_cv(init)) == init,
        init_cv(q_init(cv)) == cv,
{
    assert(q_init(init_cv(init)) =~= init);
    assert(init_cv(q_init(cv)) =~= cv);
}

} // verus!
