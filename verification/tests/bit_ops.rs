use md5ium::bits::{addsub_bit, fix_n19, get_bit, set_bit};

#[test]
fn get_bit_reads_one_bit() {
    assert_eq!(get_bit(0x8000_0001, 0), 1);
    assert_eq!(get_bit(0x8000_0001, 1), 0);
    assert_eq!(get_bit(0x8000_0001, 31), 1);
}

#[test]
fn set_bit_sets_and_clears() {
    assert_eq!(set_bit(0, 5, 1), 0x20);
    assert_eq!(set_bit(0x20, 5, 1), 0x20);
    assert_eq!(set_bit(0x21, 5, 0), 0x01);
    assert_eq!(set_bit(0x01, 5, 0), 0x01);
    assert_eq!(set_bit(0xffff_ffff, 31, -1), 0x7fff_ffff);
}

#[test]
fn addsub_bit_adds_and_takes_away() {
    assert_eq!(addsub_bit(0, 6, -1), 0xffff_ffc0);
    assert_eq!(addsub_bit(0xffff_ffff, 0, 1), 0);
    assert_eq!(addsub_bit(5, 31, 1), 0x8000_0005);
    assert_eq!(addsub_bit(5, 31, -1), 0x8000_0005);
    assert_eq!(addsub_bit(5, 32, 1), 5);
    assert_eq!(addsub_bit(5, 40, -1), 5);
}

#[test]
fn addsub_bit_round_trip() {
    for &x in &[0u32, 1, 0x7fff_ffff, 0x8000_0000, 0xdead_beef] {
        for i in 0..34 {
            assert_eq!(addsub_bit(addsub_bit(x, i, 1), i, -1), x);
            assert_eq!(addsub_bit(addsub_bit(x, i, -1), i, 1), x);
        }
    }
}

#[test]
fn fix_n19_carries_past_bits_12_and_26() {
    let mut g = 0x1000u32;
    fix_n19(&mut g);
    assert_eq!(g, 0x2000);
    let mut g = 0x0400_0000u32;
    fix_n19(&mut g);
    assert_eq!(g, 0x0800_0000);
    let mut g = 0x0400_1000u32;
    fix_n19(&mut g);
    assert_eq!(g, 0x0800_2000);
    let mut g = 0x0000_0fffu32;
    fix_n19(&mut g);
    assert_eq!(g, 0x0000_0fff);
    let mut g = 0x03ff_f000u32;
    fix_n19(&mut g);
    assert_eq!(g, 0x0800_0000);
    for start in [0u32, 0x0fff, 0x3ff_ffff, 0xffff_ffff, 0x1234_5678] {
        let mut g = start;
        fix_n19(&mut g);
        assert_eq!(get_bit(g, 12), 0);
        assert_eq!(get_bit(g, 26), 0);
    }
}
