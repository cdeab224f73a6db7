use md5ium::block_2::{md5_1_step, md5_20_steps, phi, recalc_0_15};
use md5ium::collision::add_to_output;
use md5ium::md5::{cls, crs, get_md5_round_func, md5_f, md5_g, md5_h, md5_i, md5_rl, md5_rr, shifting, MMAP, SMAP, TMAP};

const IV: [u32; 4] = [0x67452301, 0xefcdab89, 0x98badcfe, 0x10325476];

/// The chaining value after one block, computed with the library's step functions.
fn compress(iv: [u32; 4], block: [u32; 16]) -> [u32; 4] {
    let mut m = block;
    let mut mp = block;
    let mut q = [0u32; 68];
    let mut qp = [0u32; 68];
    q[0] = iv[0];
    q[1] = iv[3];
    q[2] = iv[2];
    q[3] = iv[1];
    qp[..4].copy_from_slice(&q[..4]);
    md5_20_steps(&mut m, &mut q, &mut mp, &mut qp);
    for j in 21..64 {
        md5_1_step(&mut m, &mut q, &mut mp, &mut qp, j);
    }
    [
        q[64].wrapping_add(q[0]),
        q[67].wrapping_add(q[3]),
        q[66].wrapping_add(q[2]),
        q[65].wrapping_add(q[1]),
    ]
}

fn digest_hex(cv: [u32; 4]) -> String {
    let mut words = [0u32; 32];
    words[..4].copy_from_slice(&cv);
    let mut out = Vec::new();
    add_to_output(words, &mut out);
    out[..16].iter().map(|b| format!("{:02x}", b)).collect()
}

#[test]
fn rotation_round_trip() {
    assert_eq!(crs(cls(0x12345678, 7), 7), 0x12345678);
}

#[test]
fn rotation_values() {
    assert_eq!(cls(0x80000001, 1), 0x00000003);
    assert_eq!(crs(0x80000001, 1), 0xc0000000);
    assert_eq!(cls(0x12345678, 8), 0x34567812);
    assert_eq!(md5_rl(0x12345678, 8), cls(0x12345678, 8));
    assert_eq!(md5_rr(0x12345678, 8), crs(0x12345678, 8));
    assert_eq!(md5_rr(md5_rl(0xdeadbeef, 13), 13), 0xdeadbeef);
}

#[test]
fn round_functions() {
    assert_eq!(md5_f(0xffffffff, 0x12345678, 0x9abcdef0), 0x12345678);
    assert_eq!(md5_f(0, 0x12345678, 0x9abcdef0), 0x9abcdef0);
    assert_eq!(md5_g(0x12345678, 0x9abcdef0, 0xffffffff), 0x12345678);
    assert_eq!(md5_g(0x12345678, 0x9abcdef0, 0), 0x9abcdef0);
    assert_eq!(md5_h(0xf0f0f0f0, 0x0ff00ff0, 0x00000001), 0xff00ff01);
    assert_eq!(md5_i(0, 0x12345678, 0), 0xedcba987);
    assert_eq!(md5_i(0, 0x12345678, 0xffffffff), 0x12345678);
    assert_eq!(get_md5_round_func(1, 2, 3, 0), md5_f(1, 2, 3));
    assert_eq!(get_md5_round_func(1, 2, 3, 16), md5_g(1, 2, 3));
    assert_eq!(get_md5_round_func(1, 2, 3, 40), md5_h(1, 2, 3));
    assert_eq!(get_md5_round_func(1, 2, 3, 63), md5_i(1, 2, 3));
}

#[test]
fn shifting_masks() {
    assert_eq!(shifting(1), 1);
    assert_eq!(shifting(13), 0x1000);
    assert_eq!(shifting(32), 0x80000000);
}

#[test]
fn tables_of_steps() {
    assert_eq!(SMAP[0], 7);
    assert_eq!(SMAP[63], 21);
    assert_eq!(TMAP[0], 0xd76aa478);
    assert_eq!(TMAP[63], 0xeb86d391);
    assert_eq!(MMAP[16], 1);
    assert_eq!(MMAP[63], 9);
}

#[test]
fn digest_of_empty_message() {
    let mut block = [0u32; 16];
    block[0] = 0x80;
    assert_eq!(digest_hex(compress(IV, block)), "d41d8cd98f00b204e9800998ecf8427e");
}

#[test]
fn digest_of_abc() {
    let mut block = [0u32; 16];
    block[0] = 0x80636261;
    block[14] = 24;
    assert_eq!(digest_hex(compress(IV, block)), "900150983cd24fb0d6963f7d28e17f72");
}

#[test]
fn phi_picks_the_round_function() {
    let mut q = [0u32; 68];
    q[4] = 0x11111111;
    q[5] = 0x22222222;
    q[6] = 0x44444444;
    assert_eq!(phi(&mut q, 7), md5_f(0x44444444, 0x22222222, 0x11111111));
    assert_eq!(phi(&mut q, 24), md5_g(q[23], q[22], q[21]));
}

#[test]
fn words_recomputed_from_values_give_the_values_back() {
    let mut q = [0u32; 68];
    q[0] = IV[0];
    q[1] = IV[3];
    q[2] = IV[2];
    q[3] = IV[1];
    for i in 4..20 {
        q[i] = (i as u32).wrapping_mul(0x9e3779b9) ^ 0x5bd1e995;
    }
    let wanted = q;
    let mut m = [0u32; 16];
    let mut mp = [0u32; 16];
    recalc_0_15(&mut q, &mut m, &mut mp);
    assert_eq!(mp[4], m[4].wrapping_sub(0x80000000));
    assert_eq!(mp[11], m[11].wrapping_sub(0x8000));
    assert_eq!(mp[14], m[14].wrapping_sub(0x80000000));
    assert_eq!(mp[0], m[0]);
    let mut again = [0u32; 68];
    again[..4].copy_from_slice(&wanted[..4]);
    let mut again1 = again;
    md5_20_steps(&mut m, &mut again, &mut mp, &mut again1);
    assert_eq!(&again[..20], &wanted[..20]);
}
