use sha1::compress;
use sha1::Sha1;
use sha1::Sha1Error;

fn hex(bytes: &[u8]) -> String {
    let digits = b"0123456789abcdef";
    let mut s = String::new();
    for &b in bytes {
        s.push(digits[(b >> 4) as usize] as char);
        s.push(digits[(b & 0x0f) as usize] as char);
    }
    s
}

fn digest_hex_of(data: &[u8]) -> String {
    let mut ctx = Sha1::new();
    ctx.update(data).unwrap();
    hex(&ctx.finalize().unwrap())
}

#[test]
fn empty_input_known_answer() {
    let mut ctx = Sha1::new();
    let d = ctx.finalize().unwrap();
    assert_eq!(hex(&d), "da39a3ee5e6b4b0d3255bfef95601890afd80709");
}

#[test]
fn abc_known_answer() {
    assert_eq!(digest_hex_of(b"abc"), "a9993e364706816aba3e25717850c26c9cd0d89d");
}

#[test]
fn padding_boundary_55_one_trailing_block() {
    assert_eq!(digest_hex_of(&[b'a'; 55]), "c1c8bbdc22796e28c0e15163d20899b65621d65a");
}

#[test]
fn padding_boundary_56_two_trailing_blocks() {
    assert_eq!(digest_hex_of(&[b'a'; 56]), "c2db330f6083854c99d4b5bfb6e8f29f201be699");
}

#[test]
fn padding_boundary_63_two_trailing_blocks() {
    assert_eq!(digest_hex_of(&[b'a'; 63]), "03f09f5b158a7a8cdad920bddc29b81c18a551f5");
}

#[test]
fn padding_boundary_64_one_whole_block_then_padding() {
    assert_eq!(digest_hex_of(&[b'a'; 64]), "0098ba824b5c16427bd7a1122a5a442a25ec644d");
}

#[test]
fn padding_boundary_65_across_blocks() {
    assert_eq!(digest_hex_of(&[b'a'; 65]), "11655326c708d70319be2610e8a57d9a5b959d3b");
}

#[test]
fn two_whole_blocks() {
    assert_eq!(digest_hex_of(&[b'a'; 128]), "ad5b3fdbcb526778c2839d2f151ea753995e26a0");
}

fn mixed_input(n: usize) -> Vec<u8> {
    let mut v = Vec::new();
    for i in 0..n {
        v.push((33 + (i % 90)) as u8);
    }
    v
}

#[test]
fn streaming_split_equivalence() {
    let data = mixed_input(130);
    let expected = "f8451056e28a984c4b803c58df74a1d315dd00b3";
    assert_eq!(digest_hex_of(&data), expected);

    // One update per byte.
    let mut ctx = Sha1::new();
    for i in 0..data.len() {
        ctx.update(&data[i..i + 1]).unwrap();
    }
    assert_eq!(hex(&ctx.finalize().unwrap()), expected);

    // A block-aligned split and an odd split.
    for split in [vec![64, 66], vec![1, 63, 64, 2], vec![130], vec![0, 130, 0]] {
        let mut ctx = Sha1::new();
        let mut at = 0;
        for part in split {
            ctx.update(&data[at..at + part]).unwrap();
            at += part;
        }
        assert_eq!(hex(&ctx.finalize().unwrap()), expected);
    }
}

#[test]
fn cumulative_length_across_updates() {
    // 64 + 1 bytes absorbed in two calls: the bit-length trailer covers both.
    let mut ctx = Sha1::new();
    ctx.update(&[b'a'; 64]).unwrap();
    ctx.update(b"a").unwrap();
    assert_eq!(hex(&ctx.finalize().unwrap()), "11655326c708d70319be2610e8a57d9a5b959d3b");
}

#[test]
fn finalize_twice_fails() {
    let mut ctx = Sha1::new();
    ctx.update(b"abc").unwrap();
    assert!(ctx.finalize().is_ok());
    assert_eq!(ctx.finalize(), Err(Sha1Error::AlreadyFinalized));
}

#[test]
fn update_after_finalize_fails() {
    let mut ctx = Sha1::new();
    ctx.finalize().unwrap();
    assert_eq!(ctx.update(b"late"), Err(Sha1Error::AlreadyFinalized));
}

const IV: [u32; 5] = [0x67452301, 0xEFCDAB89, 0x98BADCFE, 0x10325476, 0xC3D2E1F0];

#[test]
fn compress_empty_padding_block() {
    // The padding of the empty message is a single block: 0x80 then zeros,
    // with a zero bit count. Compressing it from the initial state must
    // give the state whose big-endian serialization is the empty digest.
    let mut state = IV;
    let mut block = [0u8; 64];
    block[0] = 0x80;
    compress(&mut state, &[block]);
    assert_eq!(state, [0xda39a3ee, 0x5e6b4b0d, 0x3255bfef, 0x95601890, 0xafd80709]);
}

#[test]
fn compress_blocks_in_order() {
    let mut b1 = [0u8; 64];
    let mut b2 = [0u8; 64];
    for i in 0..64 {
        b1[i] = i as u8;
        b2[i] = (255 - i) as u8;
    }
    let mut all_at_once = IV;
    compress(&mut all_at_once, &[b1, b2]);
    let mut one_by_one = IV;
    compress(&mut one_by_one, &[b1]);
    compress(&mut one_by_one, &[b2]);
    assert_eq!(all_at_once, one_by_one);
    // Order matters: the reversed list gives a different state.
    let mut reversed = IV;
    compress(&mut reversed, &[b2, b1]);
    assert_ne!(all_at_once, reversed);
}

#[test]
fn compress_is_deterministic() {
    let mut b = [0u8; 64];
    for i in 0..64 {
        b[i] = (i * 7) as u8;
    }
    let mut s1 = IV;
    let mut s2 = IV;
    compress(&mut s1, &[b, b, b]);
    compress(&mut s2, &[b, b, b]);
    assert_eq!(s1, s2);
}

#[test]
fn compress_on_no_blocks_is_identity() {
    let mut state = IV;
    compress(&mut state, &[]);
    assert_eq!(state, IV);
}
