//! End-to-end tests of the CTR engine, with a software AES-128-ECB standing
//! in for the hardware block engine: before each simulated completion
//! interrupt, the current key and counter fields are read out and encrypted,
//! exactly as the hardware would.

use aes::cipher::{Array, BlockCipherEncrypt, KeyInit};
use aes::Aes128;
use nrf5x_aes::aes::{AesECB, CryptOutcome, SymError};

fn hex(s: &str) -> Vec<u8> {
    let digits: Vec<u8> = s
        .bytes()
        .filter(|b| !b.is_ascii_whitespace())
        .map(|b| match b {
            b'0'..=b'9' => b - b'0',
            b'a'..=b'f' => b - b'a' + 10,
            b'A'..=b'F' => b - b'A' + 10,
            _ => panic!("not a hex digit"),
        })
        .collect();
    digits.chunks(2).map(|p| (p[0] << 4) | p[1]).collect()
}

/// One hardware block operation: AES-128-ECB of `block` under `key`.
fn aes_block(key: &[u8], block: &[u8]) -> Vec<u8> {
    let mut k = [0u8; 16];
    k.copy_from_slice(key);
    let mut b = [0u8; 16];
    b.copy_from_slice(block);
    let cipher = Aes128::new(&Array::from(k));
    let mut blk = Array::from(b);
    cipher.encrypt_block(&mut blk);
    blk.as_slice().to_vec()
}

/// Drive an accepted request to completion, simulating the hardware. Returns
/// the callback's buffers and the number of block operations performed.
fn run_request(
    engine: &mut AesECB,
    source: Vec<u8>,
    dest: Vec<u8>,
    start: usize,
    end: usize,
) -> (Option<Vec<u8>>, Vec<u8>, usize) {
    let r = engine.crypt(Some(source), dest, start, end);
    assert!(r.is_none(), "the request was not accepted");
    let mut ops = 0usize;
    loop {
        assert!(engine.interrupts_armed());
        let key = engine.key_block();
        let ctr = engine.counter_block();
        let block = aes_block(&key, &ctr);
        ops += 1;
        match engine.handle_interrupt(true, &block) {
            CryptOutcome::Pending => continue,
            CryptOutcome::Done(src, out) => return (src, out, ops),
            CryptOutcome::Idle => panic!("no request was in flight"),
        }
    }
}

fn engine_with(key: &[u8], iv: &[u8]) -> AesECB {
    let mut e = AesECB::new();
    assert_eq!(e.set_key(&key.to_vec()), Ok(()));
    assert_eq!(e.set_iv(&iv.to_vec()), Ok(()));
    e
}

/// The expected AES-128-CTR transform of `data` under `key`, starting from
/// counter `iv`, computed directly from the standard definition.
fn ctr_reference(key: &[u8], iv: &[u8], data: &[u8]) -> Vec<u8> {
    let mut ctr = iv.to_vec();
    let mut out = Vec::new();
    for chunk in data.chunks(16) {
        let ks = aes_block(key, &ctr);
        for (i, b) in chunk.iter().enumerate() {
            out.push(ks[i] ^ b);
        }
        // big-endian increment
        for j in (0..16).rev() {
            ctr[j] = ctr[j].wrapping_add(1);
            if ctr[j] != 0 {
                break;
            }
        }
    }
    out
}

#[test]
fn nist_ctr_aes128_vector() {
    // NIST SP 800-38A, F.5.1 (CTR-AES128.Encrypt)
    let key = hex("2b7e151628aed2a6abf7158809cf4f3c");
    let iv = hex("f0f1f2f3f4f5f6f7f8f9fafbfcfdfeff");
    let pt = hex(
        "6bc1bee22e409f96e93d7e117393172a \
         ae2d8a571e03ac9c9eb76fac45af8e51 \
         30c81c46a35ce411e5fbc1191a0a52ef \
         f69f2445df4f9b17ad2b417be66c3710",
    );
    let ct = hex(
        "874d6191b620e3261bef6864990db6ce \
         9806f66b7970fdff8617187bb9fffdff \
         5ae4df3edbd5d35e5b4f09020db03eab \
         1e031dda2fbe03d1792170a0f3009cee",
    );
    let mut e = engine_with(&key, &iv);
    let (src, out, ops) = run_request(&mut e, pt.clone(), vec![0u8; 64], 0, 64);
    assert_eq!(src, Some(pt));
    assert_eq!(out, ct);
    assert_eq!(ops, 4);
}

#[test]
fn round_trip_restores_plaintext() {
    let key = hex("000102030405060708090a0b0c0d0e0f");
    let iv = hex("00112233445566778899aabbccddeeff");
    let pt: Vec<u8> = (0..77u8).map(|i| i.wrapping_mul(37).wrapping_add(11)).collect();
    let mut e = engine_with(&key, &iv);
    let (_, ct, _) = run_request(&mut e, pt.clone(), vec![0u8; 77], 0, 77);
    assert_ne!(ct, pt);
    // decrypt with the same key and the same initial counter
    assert_eq!(e.set_iv(&iv), Ok(()));
    let (_, back, _) = run_request(&mut e, ct, vec![0u8; 77], 0, 77);
    assert_eq!(back, pt);
}

#[test]
fn round_trip_with_offset_span() {
    let key = hex("c0ffee00c0ffee00c0ffee00c0ffee00");
    let iv = hex("00000000000000000000000000000001");
    let pt: Vec<u8> = (0..30u8).collect();
    let mut e = engine_with(&key, &iv);
    // the destination span is [5, 35); the source is read from offset 0
    let dest = vec![0xa5u8; 40];
    let (_, ct, _) = run_request(&mut e, pt.clone(), dest, 5, 35);
    // bytes outside the span keep their old value
    assert_eq!(&ct[..5], &[0xa5u8; 5][..]);
    assert_eq!(&ct[35..], &[0xa5u8; 5][..]);
    assert_eq!(e.set_iv(&iv), Ok(()));
    let (_, back, _) = run_request(&mut e, ct[5..35].to_vec(), vec![0u8; 40], 5, 35);
    assert_eq!(&back[5..35], &pt[..]);
}

#[test]
fn keystream_matches_standard_ctr() {
    let key = hex("8899aabbccddeeff0011223344556677");
    let iv = hex("fedcba98765432100123456789abcdef");
    for len in [1usize, 15, 16, 17, 31, 32, 33, 127, 128] {
        let pt: Vec<u8> = (0..len).map(|i| (i * 7 + 3) as u8).collect();
        let mut e = engine_with(&key, &iv);
        let (_, out, ops) = run_request(&mut e, pt.clone(), vec![0u8; len], 0, len);
        assert_eq!(out, ctr_reference(&key, &iv, &pt), "length {}", len);
        assert_eq!(ops, (len + 15) / 16, "length {}", len);
    }
}

#[test]
fn set_key_wrong_length_keeps_old_key() {
    let mut e = AesECB::new();
    let good = hex("2b7e151628aed2a6abf7158809cf4f3c");
    assert_eq!(e.set_key(&good), Ok(()));
    assert_eq!(e.set_key(&vec![0u8; 15]), Err(SymError::InvalidArgument));
    assert_eq!(e.set_key(&vec![0u8; 17]), Err(SymError::InvalidArgument));
    assert_eq!(e.set_key(&Vec::new()), Err(SymError::InvalidArgument));
    assert_eq!(e.key_block(), good);
}

#[test]
fn set_iv_wrong_length_fails() {
    let mut e = AesECB::new();
    let good = hex("000102030405060708090a0b0c0d0eff");
    assert_eq!(e.set_iv(&good), Ok(()));
    assert_eq!(e.set_iv(&vec![0u8; 15]), Err(SymError::InvalidArgument));
    assert_eq!(e.set_iv(&vec![0u8; 17]), Err(SymError::InvalidArgument));
    assert_eq!(e.counter_block(), good);
}

#[test]
fn crypt_missing_source_fails_synchronously() {
    let key = hex("2b7e151628aed2a6abf7158809cf4f3c");
    let iv = vec![0u8; 16];
    let mut e = engine_with(&key, &iv);
    let dest = vec![7u8; 32];
    match e.crypt(None, dest.clone(), 0, 32) {
        Some((err, src, d)) => {
            assert_eq!(err, Err(SymError::InvalidArgument));
            assert!(src.is_none());
            assert_eq!(d, dest);
        },
        None => panic!("a missing source must fail synchronously"),
    }
    // the engine is untouched: a well-formed request still goes through
    let (_, out, ops) = run_request(&mut e, vec![0u8; 16], vec![0u8; 16], 0, 16);
    assert_eq!(out, aes_block(&key, &iv));
    assert_eq!(ops, 1);
}

#[test]
fn crypt_oversized_span_fails_synchronously() {
    let key = hex("2b7e151628aed2a6abf7158809cf4f3c");
    let mut e = engine_with(&key, &vec![0u8; 16]);
    let src = vec![1u8; 129];
    let dest = vec![2u8; 129];
    match e.crypt(Some(src.clone()), dest.clone(), 0, 129) {
        Some((err, s, d)) => {
            assert_eq!(err, Err(SymError::SizeExceeded));
            assert_eq!(s, Some(src));
            assert_eq!(d, dest);
        },
        None => panic!("a 129-byte span must fail synchronously"),
    }
    // one byte less is the maximum and goes through
    let pt = vec![1u8; 128];
    let (_, out, ops) = run_request(&mut e, pt.clone(), vec![0u8; 128], 0, 128);
    assert_eq!(ops, 8);
    assert_eq!(out, ctr_reference(&key, &vec![0u8; 16], &pt));
}

#[test]
fn three_block_request_issues_three_operations() {
    let key = hex("2b7e151628aed2a6abf7158809cf4f3c");
    let iv = hex("0000000000000000000000000000 00ff");
    let mut e = engine_with(&key, &iv);
    let (_, _, ops) = run_request(&mut e, vec![0x5au8; 40], vec![0u8; 40], 0, 40);
    assert_eq!(ops, 3);
    // counter after completion: the initial value plus 3, big-endian,
    // independent of the data encrypted — here 0x00ff + 3 carries over
    assert_eq!(e.counter_block(), hex("0000000000000000000000000000 0102"));
    assert!(!e.interrupts_armed());
}

#[test]
fn counter_wraps_around_at_all_ones() {
    let key = hex("2b7e151628aed2a6abf7158809cf4f3c");
    let iv = vec![0xffu8; 16];
    let mut e = engine_with(&key, &iv);
    let (_, _, ops) = run_request(&mut e, vec![0u8; 16], vec![0u8; 16], 0, 16);
    assert_eq!(ops, 1);
    assert_eq!(e.counter_block(), vec![0u8; 16]);
}

#[test]
fn zero_key_zero_counter_two_blocks() {
    // key, counter and plaintext all zero: the ciphertext is the first two
    // keystream blocks verbatim — the encryptions of counter 0 and counter 1.
    let key = vec![0u8; 16];
    let iv = vec![0u8; 16];
    let mut e = engine_with(&key, &iv);
    let (_, out, ops) = run_request(&mut e, vec![0u8; 32], vec![0u8; 32], 0, 32);
    assert_eq!(ops, 2);
    let block0 = aes_block(&key, &vec![0u8; 16]);
    // independent anchor: the well-known AES-128(0^16, 0^16) value
    assert_eq!(block0, hex("66e94bd4ef8a2c3b884cfa59ca342b2e"));
    let mut ctr1 = vec![0u8; 16];
    ctr1[15] = 1;
    let block1 = aes_block(&key, &ctr1);
    assert_eq!(&out[..16], &block0[..]);
    assert_eq!(&out[16..], &block1[..]);
}

#[test]
fn spurious_interrupts_do_nothing() {
    let key = hex("2b7e151628aed2a6abf7158809cf4f3c");
    let iv = hex("00112233445566778899aabbccddeeff");
    let mut e = engine_with(&key, &iv);
    // no completion event
    assert!(matches!(e.handle_interrupt(false, &vec![0u8; 16]), CryptOutcome::Idle));
    // a completion with no request in flight
    assert!(matches!(e.handle_interrupt(true, &vec![3u8; 16]), CryptOutcome::Idle));
    assert_eq!(e.key_block(), key);
    assert_eq!(e.counter_block(), iv);
    assert!(!e.interrupts_armed());
}

#[test]
fn disable_disarms_the_interrupt() {
    let key = hex("2b7e151628aed2a6abf7158809cf4f3c");
    let mut e = engine_with(&key, &vec![0u8; 16]);
    e.enable();
    assert!(e.crypt(Some(vec![0u8; 16]), vec![0u8; 16], 0, 16).is_none());
    assert!(e.interrupts_armed());
    e.disable();
    assert!(!e.interrupts_armed());
    // the key and counter configuration survives a disable
    assert_eq!(e.key_block(), key);
}

#[test]
fn counter_continues_across_requests() {
    // without a fresh set_iv, a second request picks the counter up where
    // the first one left it, so two chained 16-byte requests equal one
    // 32-byte request
    let key = hex("2b7e151628aed2a6abf7158809cf4f3c");
    let iv = hex("000102030405060708090a0b0c0d0e0f");
    let pt: Vec<u8> = (0..32u8).collect();
    let mut chained = engine_with(&key, &iv);
    let (_, first, _) = run_request(&mut chained, pt[..16].to_vec(), vec![0u8; 16], 0, 16);
    let (_, second, _) = run_request(&mut chained, pt[16..].to_vec(), vec![0u8; 16], 0, 16);
    let mut whole = engine_with(&key, &iv);
    let (_, both, _) = run_request(&mut whole, pt.clone(), vec![0u8; 32], 0, 32);
    assert_eq!(&both[..16], &first[..]);
    assert_eq!(&both[16..], &second[..]);
}

#[test]
fn source_longer_than_span_is_cut_off() {
    let key = hex("2b7e151628aed2a6abf7158809cf4f3c");
    let iv = hex("000102030405060708090a0b0c0d0e0f");
    // only the first end - start bytes of the source are consumed
    let src: Vec<u8> = (0..25u8).collect();
    let mut e = engine_with(&key, &iv);
    let (_, out, _) = run_request(&mut e, src.clone(), vec![9u8; 16], 4, 14);
    let expect = ctr_reference(&key, &iv, &src[..10]);
    assert_eq!(&out[4..14], &expect[..]);
    assert_eq!(&out[..4], &[9u8; 4][..]);
    assert_eq!(&out[14..], &[9u8; 2][..]);
}
