use md5ium::block_2::{
    modif_for_cond, q0_q15_attempt, q0_q1_attempt, q7_q10_attempt, second_table_usable, verify_conditions, DIFFERENCES,
};
use md5ium::md5::{cls, get_md5_round_func, MMAP, SMAP, TMAP};

/// A table whose first 300 entries say nothing (kind 5) about `Q[k / 5]`
/// and whose last 9 are zero.
fn quiet_table() -> [[u32; 3]; 309] {
    let mut t = [[0u32; 3]; 309];
    for k in 0..300 {
        t[k] = [(k / 5) as u32, 1, 5];
    }
    t
}

#[test]
fn differences_of_the_second_block() {
    assert_eq!(DIFFERENCES[0], 0x82000000);
    assert_eq!(DIFFERENCES[21], 0x80000000);
    assert_eq!(DIFFERENCES[22], 0);
    assert_eq!(DIFFERENCES[33], 0);
    assert_eq!(DIFFERENCES[34], 0x80000000);
    assert_eq!(DIFFERENCES[61], 0x82000000);
    assert_eq!(DIFFERENCES[63], 0x86000000);
}

#[test]
fn usable_second_tables() {
    assert!(!second_table_usable(&[[0u32; 3]; 309]));
    assert!(second_table_usable(&quiet_table()));
    let mut t = quiet_table();
    t[10] = [2, 0, 1];
    assert!(!second_table_usable(&t));
    t[10] = [2, 33, 1];
    assert!(!second_table_usable(&t));
    t[10] = [64, 3, 1];
    assert!(!second_table_usable(&t));
    t[10] = [2, 32, 1];
    assert!(second_table_usable(&t));
    let mut t = quiet_table();
    for k in 280..309 {
        t[k] = [56, 1, 5];
    }
    assert!(!second_table_usable(&t));
}

#[test]
fn forced_conditions_then_hold() {
    let mut t = quiet_table();
    // Q[1]: bit 0 one, bit 1 zero, bit 4 as in Q[0], bit 5 as in Q[-1], bit 6 the complement of Q[0]'s.
    t[5] = [1, 1, 1];
    t[6] = [1, 2, 0];
    t[7] = [1, 5, 2];
    t[8] = [1, 6, 3];
    t[9] = [1, 7, 4];
    let mut q = [0u32; 68];
    q[3] = 0x20;
    q[4] = 0x10;
    q[5] = 0xffff_fff2;
    assert!(!verify_conditions(q, 0, 52, t));
    modif_for_cond(&mut q, 2, t);
    assert_eq!(q[5], 0xffff_fff1);
    assert!(verify_conditions(q, 0, 52, t));
    assert!(verify_conditions(q, 0, 274, t));
    assert_eq!(q[3], 0x20);
    assert_eq!(q[4], 0x10);
}

#[test]
fn broken_condition_is_found() {
    let mut t = quiet_table();
    t[5] = [1, 32, 1];
    let mut q = [0u32; 68];
    assert!(!verify_conditions(q, 0, 274, t));
    q[5] = 0x8000_0000;
    assert!(verify_conditions(q, 0, 274, t));
    assert!(verify_conditions(q, 6, 274, t));
}

fn step11(q14: u32, q13: u32, q12: u32, q11: u32, w: u32) -> u32 {
    q14.wrapping_add(cls(
        get_md5_round_func(q14, q13, q12, 11).wrapping_add(q11).wrapping_add(w).wrapping_add(TMAP[11]),
        SMAP[11],
    ))
}

fn prime_of(m: [u32; 16]) -> [u32; 16] {
    let mut mp = m;
    mp[4] = mp[4].wrapping_add(0x8000_0000);
    mp[11] = mp[11].wrapping_sub(0x8000);
    mp[14] = mp[14].wrapping_add(0x8000_0000);
    mp
}

fn check_attempt(q10: u32, w: [u32; 4], drawn: [u32; 4]) {
    let mut m = [0x3c3c_3c3cu32; 16];
    let mut mp = prime_of(m);
    let mut q = [0u32; 68];
    q[10] = q10;
    let mut qp = [0u32; 68];
    let hit = q7_q10_attempt(&mut m, &mut mp, &mut q, &mut qp, w);
    assert_eq!(&q[11..15], &drawn);
    let q15 = step11(drawn[3], drawn[2], drawn[1], drawn[0], 0x3c3c_3c3c);
    let fits = (q15 & 0xfff81fff) == q15 && (q15 | 0x00081080) == q15 && ((drawn[3] ^ q15) & 0xff000000) == 0;
    assert_eq!(hit, fits);
    assert_eq!(mp, prime_of(m));
    if !hit {
        assert_eq!(q[15], q15);
        assert_eq!(m, [0x3c3c_3c3cu32; 16]);
        assert_eq!(qp, [0u32; 68]);
    }
}

#[test]
fn drawn_values_take_their_fixed_bits() {
    check_attempt(0, [0, 0, 0, 0], [0x043283c0, 0x1c0101c1, 0x078383c0, 0x000583c3]);
}

#[test]
fn drawn_values_keep_free_bits_and_copy_bits() {
    check_attempt(0x8000_0002, [0xffff_ffff; 4], [0xe47efffe, 0xfc7d7dfd, 0xfffbeffc, 0xfffdefff]);
}

fn step(i: usize, q1: u32, q2: u32, q3: u32, q4: u32, w: u32) -> u32 {
    q1.wrapping_add(cls(
        get_md5_round_func(q1, q2, q3, i).wrapping_add(q4).wrapping_add(w).wrapping_add(TMAP[i]),
        SMAP[i],
    ))
}

fn chaining_start() -> [u32; 68] {
    let mut q = [0u32; 68];
    q[0] = 0x67452301;
    q[1] = 0x10325476;
    q[2] = 0x98badcfe;
    q[3] = 0xefcdab89;
    q
}

#[test]
fn drawn_first_values_give_their_words() {
    let t = quiet_table();
    let mut w = [0u32; 16];
    for k in 0..16 {
        w[k] = (k as u32).wrapping_mul(0x0101_0101) ^ 0x8000_8000;
    }
    let mut m = [0u32; 16];
    let mut mp = [0u32; 16];
    let mut q = chaining_start();
    let mut qp = chaining_start();
    let done = q0_q15_attempt(&mut m, &mut mp, &mut q, &mut qp, t, w);
    assert_eq!(&q[4..20], &w);
    assert_eq!(&q[0..4], &chaining_start()[0..4]);
    assert_eq!(mp, prime_of(m));
    for k in 0..16 {
        assert_eq!(step(k, q[k + 3], q[k + 2], q[k + 1], q[k], m[k]), q[k + 4]);
    }
    let bits = ((m[4] | m[14]) & 0x8000_0000) != 0 && (m[11] & 0x8000) != 0;
    if bits {
        for k in 16..21 {
            assert_eq!(step(k, q[k + 3], q[k + 2], q[k + 1], q[k], m[MMAP[k] as usize]), q[k + 4]);
        }
        assert_eq!(done, (q[19] ^ qp[19]) == 0xa000_0000 && verify_conditions(q, 0, 274, t));
    } else {
        assert!(!done);
        assert_eq!(qp, chaining_start());
    }
}

#[test]
fn drawn_q0_q1_take_their_conditions() {
    let mut t = quiet_table();
    t[5] = [1, 1, 1];
    let mut m = [0u32; 16];
    let mut mp = [0u32; 16];
    let mut q = chaining_start();
    for k in 6..20 {
        q[k] = (k as u32).wrapping_mul(0x9e37_79b9);
    }
    let mut qp = chaining_start();
    let done = q0_q1_attempt(&mut m, &mut mp, &mut q, &mut qp, t, 0x1000_0000, 0x2222_2222);
    assert_eq!(q[5], 0x1000_0001);
    assert_eq!(q[4], 0x2222_2222);
    assert_eq!(mp, prime_of(m));
    for k in 0..21 {
        assert_eq!(step(k, q[k + 3], q[k + 2], q[k + 1], q[k], m[MMAP[k] as usize]), q[k + 4]);
        assert_eq!(step(k, qp[k + 3], qp[k + 2], qp[k + 1], qp[k], mp[MMAP[k] as usize]), qp[k + 4]);
    }
    let expected =
        (q[19] ^ qp[19]) == 0xa000_0000 && (q[24] ^ qp[24]) == 0x8000_0000 && verify_conditions(q, 0, 286, t);
    assert_eq!(done, expected);
}

#[test]
fn one_bit_asked_twice_alike_is_forced_once() {
    let mut t = quiet_table();
    // Q[1] bit 0: one, and as in Q[0] (which has it set).
    t[5] = [1, 1, 1];
    t[6] = [1, 1, 2];
    let mut q = [0u32; 68];
    q[4] = 0x1;
    q[5] = 0x10;
    modif_for_cond(&mut q, 2, t);
    assert_eq!(q[5], 0x11);
    assert!(verify_conditions(q, 0, 52, t));
    let once = q;
    modif_for_cond(&mut q, 2, t);
    assert_eq!(q, once);
}
