use md5ium::collision::add_to_output;
use md5ium::block_2::{md5_1_step, md5_20_steps};

#[test]
fn words_are_written_least_significant_byte_first() {
    let mut block = [0u32; 32];
    block[0] = 0x0403_0201;
    block[1] = 0xddcc_bbaa;
    block[31] = 0x8000_0001;
    let mut out = vec![0xee];
    add_to_output(block, &mut out);
    assert_eq!(out.len(), 1 + 128);
    assert_eq!(&out[..9], &[0xee, 0x01, 0x02, 0x03, 0x04, 0xaa, 0xbb, 0xcc, 0xdd]);
    assert_eq!(&out[125..], &[0x01, 0x00, 0x00, 0x80]);
    assert!(out[9..125].iter().all(|&b| b == 0));
}

#[test]
fn blocks_are_appended_in_order() {
    let a = [0x1111_1111u32; 32];
    let b = [0x2222_2222u32; 32];
    let mut out = Vec::new();
    add_to_output(a, &mut out);
    add_to_output(b, &mut out);
    assert_eq!(out.len(), 256);
    assert!(out[..128].iter().all(|&x| x == 0x11));
    assert!(out[128..].iter().all(|&x| x == 0x22));
}

fn hex_bytes(s: &str) -> Vec<u8> {
    (0..s.len()).step_by(2).map(|i| u8::from_str_radix(&s[i..i + 2], 16).unwrap()).collect()
}

fn words(bytes: &[u8]) -> [u32; 16] {
    let mut w = [0u32; 16];
    for i in 0..16 {
        w[i] = u32::from_le_bytes([bytes[4 * i], bytes[4 * i + 1], bytes[4 * i + 2], bytes[4 * i + 3]]);
    }
    w
}

fn compress(iv: [u32; 4], block: [u32; 16]) -> [u32; 4] {
    let mut m = block;
    let mut mp = block;
    let mut q = [0u32; 68];
    let mut qp = [0u32; 68];
    q[0] = iv[0];
    q[1] = iv[3];
    q[2] = iv[2];
    q[3] = iv[1];
    qp[..4].copy_from_slice(&q[..4]);
    md5_20_steps(&mut m, &mut q, &mut mp, &mut qp);
    for j in 21..64 {
        md5_1_step(&mut m, &mut q, &mut mp, &mut qp, j);
    }
    [q[64].wrapping_add(q[0]), q[67].wrapping_add(q[3]), q[66].wrapping_add(q[2]), q[65].wrapping_add(q[1])]
}

const IV: [u32; 4] = [0x67452301, 0xefcdab89, 0x98badcfe, 0x10325476];

/// A published two-block MD5 collision with the message differences this
/// library searches for.
#[test]
fn a_known_two_block_collision_has_the_searched_shape() {
    let m = hex_bytes(
        &[
            "d131dd02c5e6eec4693d9a0698aff95c2fcab58712467eab4004583eb8fb7f89",
            "55ad340609f4b30283e488832571415a085125e8f7cdc99fd91dbdf280373c5b",
            "d8823e3156348f5bae6dacd436c919c6dd53e2b487da03fd02396306d248cda0",
            "e99f33420f577ee8ce54b67080a80d1ec69821bcb6a8839396f9652b6ff72a70",
        ]
        .concat(),
    );
    let mp = hex_bytes(
        &[
            "d131dd02c5e6eec4693d9a0698aff95c2fcab50712467eab4004583eb8fb7f89",
            "55ad340609f4b30283e4888325f1415a085125e8f7cdc99fd91dbd7280373c5b",
            "d8823e3156348f5bae6dacd436c919c6dd53e23487da03fd02396306d248cda0",
            "e99f33420f577ee8ce54b67080280d1ec69821bcb6a8839396f965ab6ff72a70",
        ]
        .concat(),
    );
    assert_ne!(m, mp);
    let (m1, m2) = (words(&m[..64]), words(&m[64..]));
    let (mp1, mp2) = (words(&mp[..64]), words(&mp[64..]));
    for k in 0..16 {
        let d1 = mp1[k].wrapping_sub(m1[k]);
        let d2 = mp2[k].wrapping_sub(m2[k]);
        match k {
            4 | 14 => {
                assert_eq!(d1, 0x8000_0000);
                assert_eq!(d2, 0x8000_0000);
            }
            11 => {
                assert_eq!(d1, 0x8000);
                assert_eq!(d2, 0u32.wrapping_sub(0x8000));
            }
            _ => {
                assert_eq!(d1, 0);
                assert_eq!(d2, 0);
            }
        }
    }
    let cv1 = compress(IV, m1);
    let cvp1 = compress(IV, mp1);
    assert_eq!(
        [cvp1[0] ^ cv1[0], cvp1[1] ^ cv1[1], cvp1[2] ^ cv1[2], cvp1[3] ^ cv1[3]],
        [0x8000_0000, 0x8200_0000, 0x8600_0000, 0x8200_0000]
    );
    let cv2 = compress(cv1, m2);
    assert_eq!(compress(cvp1, mp2), cv2);
    let mut pad = [0u32; 16];
    pad[0] = 0x80;
    pad[14] = 1024;
    let digest = compress(cv2, pad);
    let mut block = [0u32; 32];
    block[..4].copy_from_slice(&digest);
    let mut out = Vec::new();
    add_to_output(block, &mut out);
    let hex: String = out[..16].iter().map(|b| format!("{:02x}", b)).collect();
    assert_eq!(hex, "79054025255fb1a26e4bc422aef54eb4");
}
