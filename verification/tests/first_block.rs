use md5ium::block_1::{
    build_bitfield, check_diffs, construct_diff_table, fcheck_cond, first_table_usable, new_rand_mblock,
    single_msg_modif, Condition, Node,
};
use md5ium::cond_file::build_condition_list;
use md5ium::md5::{cls, md5_f, md5_g, MMAP, SMAP, TMAP};
use md5ium::block_1::klima4_9;
use md5ium::md5::get_md5_round_func;
use md5ium::block_1::{first_round, first_round_pass, klima1_3, klima_draw, round2_check_diffs, tunnel_step};

fn empty_table() -> [Node; 76] {
    build_condition_list(&Vec::new()).unwrap()
}

fn cond(ind: i32, cref: i32, crind: i32, add_const: i32) -> Condition {
    Condition { ind, cref, crind, add_const }
}

const EXPECTED_DT: [u32; 68] = [
    0, 0, 0, 0, 0xffffffc0, 0x807fffc0, 0xf87fffbf, 0xff7d8001, 0x7fffffc1, 0x80001000, 0xc0000000, 0x7fffdf80,
    0x81000000, 0x80000000, 0x7fff8008, 0x60000000, 0x80000000, 0x80000000, 0x80020000, 0x80000000, 0x80000000,
    0x80000000, 0, 0, 0, 0, 0, 0, 0, 0, 0, 0, 0, 0, 0, 0, 0, 0, 0, 0, 0, 0, 0, 0, 0, 0, 0, 0, 0x80000000,
    0x80000000, 0x80000000, 0x80000000, 0x80000000, 0x80000000, 0x80000000, 0x80000000, 0x80000000, 0x80000000,
    0x80000000, 0x80000000, 0x80000000, 0x2000000, 0x82000000, 0x82000000, 0x80000000, 0x82000000, 0x82000000,
    0x82000000,
];

#[test]
fn difference_table() {
    let dt = construct_diff_table();
    assert_eq!(dt, EXPECTED_DT);
    assert_eq!(dt[4], 0u32.wrapping_sub(1 << 6));
    assert_eq!(dt[5], 0u32.wrapping_sub(1 << 6).wrapping_add(1 << 23).wrapping_add(1 << 31));
}

#[test]
fn bitfields_from_conditions() {
    let mut t = empty_table();
    t[9].list = vec![cond(3, -1, 0, 0), cond(7, -2, 0, 0), cond(9, 4, 9, 0), cond(2, 67, 2, 1), cond(3, -1, 0, 0)];
    t[2].list = vec![cond(1, -1, 0, 0)];
    build_bitfield(&mut t);
    assert_eq!(t[9].bf, [16, 128, 512, 4]);
    assert_eq!(t[2].bf, [0, 0, 0, 0]);
    assert_eq!(t[10].bf, [0, 0, 0, 0]);
    assert_eq!(t[9].list.len(), 5);
}

#[test]
fn message_word_recomputed_for_forced_value() {
    let mut t = empty_table();
    t[0].val = 0x67452301;
    t[1].val = 0x10325476;
    t[2].val = 0x98badcfe;
    t[3].val = 0xefcdab89;
    for k in 0..4 {
        t[68 + k].val = t[k].val;
    }
    t[4].val = 0x0000_00f2;
    t[7].val = 0xffff_ffff;
    t[4].list = vec![cond(0, -1, 0, 0), cond(1, -2, 0, 0), cond(20, 3, 20, 0)];
    let w = single_msg_modif(0, &mut t);
    let q0 = t[4].val;
    assert_eq!(q0, 0x0010_00f1);
    let recomputed = t[3].val.wrapping_add(cls(
        md5_f(t[3].val, t[2].val, t[1].val).wrapping_add(t[0].val).wrapping_add(w).wrapping_add(TMAP[0]),
        SMAP[0],
    ));
    assert_eq!(recomputed, q0);
}

#[test]
fn fcheck_flags_broken_bits() {
    let mut t = empty_table();
    t[21].list = vec![cond(3, -1, 0, 0), cond(4, -2, 0, 0)];
    build_bitfield(&mut t);
    t[21].val = 0;
    assert_eq!(fcheck_cond(17, &mut t), 0x8);
    t[21].val = 0x18;
    assert_eq!(fcheck_cond(17, &mut t), 0x10);
    t[21].val = 0x8;
    assert_eq!(fcheck_cond(17, &mut t), 0);
}

#[test]
fn fcheck_compares_with_the_previous_value() {
    let mut t = empty_table();
    t[22].list = vec![cond(5, 17, 5, 0)];
    build_bitfield(&mut t);
    t[21].val = 0x20;
    t[22].val = 0;
    assert_eq!(fcheck_cond(18, &mut t), 0x20);
    t[22].val = 0x20;
    assert_eq!(fcheck_cond(18, &mut t), 0);
}

#[test]
fn usable_tables() {
    let t = empty_table();
    assert!(first_table_usable(&t));
    let mut t = empty_table();
    t[4].list = vec![cond(32, -1, 0, 0)];
    assert!(!first_table_usable(&t));
    let mut t = empty_table();
    t[40].list = vec![cond(-1, -1, 0, 0)];
    assert!(!first_table_usable(&t));
    let mut t = empty_table();
    t[75].list = vec![cond(3, 2, 80, 1)];
    assert!(first_table_usable(&t));
    t[75].list = vec![cond(3, 2, 5, 1), cond(4, 2, 80, 1)];
    assert!(!first_table_usable(&t));
    t[75].list = vec![cond(3, 2, 5, 1), cond(4, 2, 75, 1)];
    assert!(first_table_usable(&t));
}

#[test]
fn random_words_fill_the_first_block_only() {
    let mut m = [7u32; 32];
    new_rand_mblock(&mut m);
    assert_eq!(&m[16..], &[7u32; 16]);
}

/// The first step at which the modular difference breaks the table, found
/// with plain MD5 steps.
fn first_failing_round1_step(iv: [u32; 4], m: [u32; 16], dt: &[u32; 68]) -> Option<usize> {
    let mut mp = m;
    mp[4] = mp[4].wrapping_add(0x8000_0000);
    mp[11] = mp[11].wrapping_add(0x8000);
    mp[14] = mp[14].wrapping_add(0x8000_0000);
    let mut q = vec![iv[0], iv[3], iv[2], iv[1]];
    let mut qp = q.clone();
    for i in 0..16 {
        let k = i + 4;
        let a = q[k - 1].wrapping_add(cls(
            md5_f(q[k - 1], q[k - 2], q[k - 3]).wrapping_add(q[k - 4]).wrapping_add(m[i]).wrapping_add(TMAP[i]),
            SMAP[i],
        ));
        let b = qp[k - 1].wrapping_add(cls(
            md5_f(qp[k - 1], qp[k - 2], qp[k - 3]).wrapping_add(qp[k - 4]).wrapping_add(mp[i]).wrapping_add(TMAP[i]),
            SMAP[i],
        ));
        q.push(a);
        qp.push(b);
        if b.wrapping_sub(a) != dt[i] {
            return Some(i);
        }
    }
    None
}

#[test]
fn differential_check_stops_at_the_first_broken_step() {
    let iv = [0x67452301, 0xefcdab89, 0x98badcfe, 0x10325476];
    let dt = construct_diff_table();
    for seed in 0..20u32 {
        let mut t = empty_table();
        t[0].val = iv[0];
        t[0].tval = iv[0];
        t[1].val = iv[3];
        t[1].tval = iv[3];
        t[2].val = iv[2];
        t[2].tval = iv[2];
        t[3].val = iv[1];
        t[3].tval = iv[1];
        let mut m = [0u32; 32];
        for i in 0..16 {
            m[i] = seed.wrapping_mul(0x01000193).wrapping_add(i as u32).rotate_left(seed % 32);
        }
        let expected = first_failing_round1_step(iv, m[..16].try_into().unwrap(), &dt);
        let before = m;
        let r = check_diffs(&mut m, &mut t, 0, dt);
        assert_eq!(m, before);
        if let Some(i) = expected {
            assert_eq!(r, i as i32);
        } else {
            assert!(r >= 16 || r == -1);
        }
    }
}

fn step(i: usize, q1: u32, q2: u32, q3: u32, q4: u32, w: u32) -> u32 {
    q1.wrapping_add(cls(
        get_md5_round_func(q1, q2, q3, i).wrapping_add(q4).wrapping_add(w).wrapping_add(TMAP[i]),
        SMAP[i],
    ))
}

#[test]
fn tunnel_words_reproduce_the_values() {
    let iv = [0x67452301u32, 0x10325476, 0x98badcfe, 0xefcdab89];
    let mut t = empty_table();
    for k in 0..4 {
        t[k].val = iv[k];
        t[68 + k].val = iv[k];
    }
    for k in 4..24 {
        t[k].val = (k as u32).wrapping_mul(0x2545f491) ^ 0x9e3779b9;
    }
    let mut m = [0x5555_aaaau32; 32];
    let mut g: u32 = 0x1234;
    let q19 = g;
    klima4_9(&mut m, &mut t, &mut g);
    assert_eq!(t[23].val, q19);
    assert_eq!(g, 0x2235);
    assert_eq!(&m[6..], &[0x5555_aaaau32; 26]);
    let q = |k: i32| t[(k + 4) as usize].val;
    assert_eq!(step(0, q(-1), q(-2), q(-3), q(-4), m[0]), q(0));
    assert_eq!(step(1, q(0), q(-1), q(-2), q(-3), m[1]), q(1));
    for i in 2..6 {
        let k = i as i32;
        assert_eq!(step(i, q(k - 1), q(k - 2), q(k - 3), q(k - 4), m[i]), q(k));
    }
    assert_eq!(step(16, q(15), q(14), q(13), q(12), m[1]), q(16));
    assert_eq!(step(19, q(18), q(17), q(16), q(15), m[0]), q(19));
    assert_eq!(step(20, q(19), q(18), q(17), q(16), m[5]), q(20));
}

fn table_with_iv(iv: [u32; 4]) -> [Node; 76] {
    let mut t = empty_table();
    for k in 0..4 {
        t[k].val = iv[k];
        t[k].tval = iv[k];
        t[68 + k].val = iv[k];
    }
    t
}

#[test]
fn first_round_passes_when_the_differences_are_met() {
    let iv = [0x67452301u32, 0x10325476, 0x98badcfe, 0xefcdab89];
    let mut m = [0u32; 32];
    for i in 0..32 {
        m[i] = (i as u32).wrapping_mul(0x0100_0193) ^ 0xa5a5_5a5a;
    }
    let mut mp = m;
    mp[4] = mp[4].wrapping_add(0x8000_0000);
    mp[11] = mp[11].wrapping_add(0x8000);
    mp[14] = mp[14].wrapping_add(0x8000_0000);
    let mut q = vec![iv[0], iv[1], iv[2], iv[3]];
    let mut qp = q.clone();
    let mut dt = [0u32; 68];
    for i in 0..16 {
        let k = i + 4;
        q.push(step(i, q[k - 1], q[k - 2], q[k - 3], q[k - 4], m[i]));
        qp.push(step(i, qp[k - 1], qp[k - 2], qp[k - 3], qp[k - 4], mp[i]));
        dt[i] = qp[k].wrapping_sub(q[k]);
    }
    let mut t = table_with_iv(iv);
    let before = m;
    assert!(first_round(&mut m, &mut t, dt));
    assert_eq!(m, before);
    for k in 0..20 {
        assert_eq!(t[k].val, q[k]);
        assert_eq!(t[k].tval, qp[k]);
    }
}

#[test]
fn one_first_round_pass_goes_through_on_a_consistent_round() {
    let iv = [0x67452301u32, 0x10325476, 0x98badcfe, 0xefcdab89];
    let mut m = [0u32; 32];
    for i in 0..32 {
        m[i] = (i as u32).wrapping_mul(0x0100_0193) ^ 0xa5a5_5a5a;
    }
    let mut mp = m;
    mp[4] = mp[4].wrapping_add(0x8000_0000);
    mp[11] = mp[11].wrapping_add(0x8000);
    mp[14] = mp[14].wrapping_add(0x8000_0000);
    let mut q = vec![iv[0], iv[1], iv[2], iv[3]];
    let mut qp = q.clone();
    let mut dt = [0u32; 68];
    for i in 0..16 {
        let k = i + 4;
        q.push(step(i, q[k - 1], q[k - 2], q[k - 3], q[k - 4], m[i]));
        qp.push(step(i, qp[k - 1], qp[k - 2], qp[k - 3], qp[k - 4], mp[i]));
        dt[i] = qp[k].wrapping_sub(q[k]);
    }
    let mut t = table_with_iv(iv);
    let before = m;
    assert!(first_round_pass(&mut m, &mut t, &dt).0);
    assert_eq!(m, before);
    for k in 0..20 {
        assert_eq!(t[k].val, q[k]);
        assert_eq!(t[k].tval, qp[k]);
    }
}

#[test]
fn tunnel_draw_not_needed_when_conditions_hold() {
    let mut t = table_with_iv([1, 2, 3, 4]);
    t[20].val = 0x1111;
    t[21].val = 0x2222;
    t[22].val = 0x3333;
    let mut m = [9u32; 32];
    assert!(!klima1_3(&mut m, &mut t).0);
    assert_eq!(t[20].val, 0x1111);
    assert_eq!(t[21].val, 0);
    assert_eq!(t[22].val, 0x3333);
    assert_eq!(m, [9u32; 32]);
}

#[test]
fn tunnel_draw_gives_up_on_contradictory_conditions() {
    let mut t = table_with_iv([1, 2, 3, 4]);
    t[21].list = vec![cond(3, -1, 0, 0), cond(3, -2, 0, 0)];
    build_bitfield(&mut t);
    let mut m = [9u32; 32];
    let (gave_up, _) = klima1_3(&mut m, &mut t);
    assert!(gave_up);
    assert_eq!(m, [9u32; 32]);
}

#[test]
fn tunnel_draw_meets_satisfiable_conditions() {
    let mut t = table_with_iv([1, 2, 3, 4]);
    t[20].list = vec![cond(0, -1, 0, 0)];
    t[21].list = vec![cond(5, -1, 0, 0)];
    build_bitfield(&mut t);
    let mut m = [0x0f0f_0f0fu32; 32];
    let gave_up = klima1_3(&mut m, &mut t).0;
    assert!(!gave_up);
    {
        assert_eq!(fcheck_cond(17, &mut t), 0);
        assert_eq!(fcheck_cond(18, &mut t), 0);
        let q = |k: usize| t[k + 4].val;
        assert_eq!(q(16) & 1, 1);
        assert_eq!(q(17) & 0x20, 0x20);
        assert_eq!(step(17, q(16), q(15), q(14), q(13), m[6]), q(17));
        assert_eq!(step(18, q(17), q(16), q(15), q(14), m[11]), q(18));
    }
}

#[test]
fn one_tunnel_draw_applies_the_conditions_and_steps() {
    let mut t = table_with_iv([1, 2, 3, 4]);
    t[20].list = vec![cond(0, -1, 0, 0), cond(4, -2, 0, 0)];
    build_bitfield(&mut t);
    let m = [0x0f0f_0f0fu32; 32];
    let ok = klima_draw(&m, &mut t, 0x1234_5670);
    assert!(ok);
    assert_eq!(t[20].val, 0x1234_5661);
    let q = |k: usize| t[k + 4].val;
    assert_eq!(step(17, q(16), q(15), q(14), q(13), m[6]), q(17));
    assert_eq!(step(18, q(17), q(16), q(15), q(14), m[11]), q(18));
    assert_eq!(fcheck_cond(17, &mut t), 0);
    assert_eq!(fcheck_cond(18, &mut t), 0);
}

#[test]
fn one_tunnel_draw_reports_a_broken_condition() {
    let mut t = table_with_iv([1, 2, 3, 4]);
    t[21].list = vec![cond(3, -1, 0, 0), cond(3, -2, 0, 0)];
    build_bitfield(&mut t);
    let m = [9u32; 32];
    assert!(!klima_draw(&m, &mut t, 0xdead_beef));
    assert_ne!(fcheck_cond(17, &mut t), 0);
}

#[test]
fn tunnel_step_is_the_next_counter_then_the_check() {
    let table = || {
        let mut t = empty_table();
        for k in 4..24 {
            t[k].val = (k as u32).wrapping_mul(0x2545f491) ^ 0x9e3779b9;
        }
        t
    };
    let mut t = table();
    let dt = construct_diff_table();
    let mut m = [0x5555_aaaau32; 32];
    let mut g: u32 = 0x1234;
    let mut t2 = table();
    let mut m2 = m;
    let mut g2 = g;
    let r = tunnel_step(&mut m, &mut t, &mut g, dt);
    klima4_9(&mut m2, &mut t2, &mut g2);
    let r2 = check_diffs(&mut m2, &mut t2, 20, dt);
    assert_eq!(r, r2);
    assert_eq!(m, m2);
    assert_eq!(g, g2);
    for k in 0..76 {
        assert_eq!(t[k].val, t2[k].val);
        assert_eq!(t[k].tval, t2[k].tval);
    }
}

#[test]
fn second_round_uses_g_from_any_start() {
    let mut t = empty_table();
    t[6].val = 1;
    t[6].tval = 1;
    let mut m = [0u32; 32];
    let mut mp = [0u32; 16];
    let dt = [0u32; 68];
    let r = round2_check_diffs(&mut m, &mut mp, &mut t, 4, dt);
    assert_eq!(r, 0x1337);
    let g_step = |i: usize, q1: u32, q2: u32, q3: u32, q4: u32, w: u32| {
        q1.wrapping_add(cls(md5_g(q1, q2, q3).wrapping_add(q4).wrapping_add(w).wrapping_add(TMAP[i]), SMAP[i]))
    };
    assert_eq!(t[8].val, cls(1u32.wrapping_add(TMAP[4]), SMAP[4]));
    for i in 4..32 {
        let k = i + 4;
        assert_eq!(t[k].val, g_step(i, t[k - 1].val, t[k - 2].val, t[k - 3].val, t[k - 4].val, m[MMAP[i]]));
        assert_eq!(t[k].tval, t[k].val);
    }
    assert_eq!(t[6].val, 1);
    assert_eq!(t[36].val, 0);
}
