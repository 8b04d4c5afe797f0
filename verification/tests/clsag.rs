use blocknet_crypto::clsag::{
    blocknet_clsag_key_image, blocknet_clsag_sign, blocknet_clsag_verify, clsag_sign_with,
    clsag_verify, ClsagSignature,
};
use blocknet_crypto::group::{Point, Scalar as LibScalar};
use blocknet_crypto::keys::{blocknet_key_image, blocknet_ristretto_keygen_from_seed};
use blocknet_crypto::ring::RING_SIZE;
use curve25519_dalek::constants::{RISTRETTO_BASEPOINT_POINT, RISTRETTO_BASEPOINT_TABLE};
use curve25519_dalek::ristretto::RistrettoPoint;
use curve25519_dalek::scalar::Scalar;
use sha2::{Digest, Sha512};

const SIG_LEN: usize = 32 + RING_SIZE * 32 + 32;

fn generate_keypair() -> (Scalar, RistrettoPoint) {
    let privkey = Scalar::random(&mut rand::thread_rng());
    let pubkey = &privkey * RISTRETTO_BASEPOINT_TABLE;
    (privkey, pubkey)
}

fn keypairs() -> Vec<(Scalar, RistrettoPoint)> {
    (0..RING_SIZE).map(|_| generate_keypair()).collect()
}

fn ring_bytes_of(keypairs: &[(Scalar, RistrettoPoint)]) -> Vec<u8> {
    let mut ring_bytes = Vec::new();
    for (_, pubkey) in keypairs {
        ring_bytes.extend_from_slice(pubkey.compress().as_bytes());
    }
    ring_bytes
}

/// A ring, its bytes, and a good signature by the given member.
fn signed(
    secret_index: usize,
    message: &[u8],
) -> (Vec<(Scalar, RistrettoPoint)>, Vec<u8>, Vec<u8>) {
    let keypairs = keypairs();
    let ring_bytes = ring_bytes_of(&keypairs);
    let mut signature = vec![0u8; SIG_LEN];
    let mut sig_len: usize = 0;
    let result = blocknet_clsag_sign(
        &ring_bytes,
        RING_SIZE,
        secret_index,
        keypairs[secret_index].0.as_bytes(),
        message,
        &mut signature,
        &mut sig_len,
    );
    assert_eq!(result, 0);
    assert_eq!(sig_len, SIG_LEN);
    (keypairs, ring_bytes, signature)
}

fn hash_to_point(p: &RistrettoPoint) -> RistrettoPoint {
    let mut hasher = Sha512::new();
    hasher.update(b"blocknet_hash_to_point");
    hasher.update(p.compress().as_bytes());
    RistrettoPoint::from_uniform_bytes(&hasher.finalize().into())
}

fn challenge(message: &[u8], l: &RistrettoPoint, r: &RistrettoPoint) -> Scalar {
    let mut hasher = Sha512::new();
    hasher.update(b"blocknet_clsag_c");
    hasher.update(message);
    hasher.update(l.compress().as_bytes());
    hasher.update(r.compress().as_bytes());
    Scalar::from_bytes_mod_order_wide(&hasher.finalize().into())
}

fn lib_point(p: &RistrettoPoint) -> Point {
    Point { bytes: p.compress().to_bytes() }
}

fn lib_scalar(s: &Scalar) -> LibScalar {
    LibScalar { bytes: s.to_bytes() }
}

/// Bytes whose little-endian value is the group order.
fn order_bytes() -> [u8; 32] {
    let mut bytes = (-Scalar::ONE).to_bytes();
    bytes[0] += 1;
    bytes
}

#[test]
fn test_clsag_sign_verify() {
    let ring_size = RING_SIZE;
    let secret_index = 7;

    let mut keypairs: Vec<(Scalar, RistrettoPoint)> = Vec::new();
    for _ in 0..ring_size {
        keypairs.push(generate_keypair());
    }

    let mut ring_bytes = vec![0u8; ring_size * 32];
    for (i, (_, pubkey)) in keypairs.iter().enumerate() {
        ring_bytes[i * 32..(i + 1) * 32].copy_from_slice(pubkey.compress().as_bytes());
    }

    let message = b"Test transaction";
    let mut signature = vec![0u8; 32 + ring_size * 32 + 32];
    let mut sig_len: usize = 0;

    let sign_result = blocknet_clsag_sign(
        &ring_bytes,
        ring_size,
        secret_index,
        keypairs[secret_index].0.as_bytes(),
        message,
        &mut signature,
        &mut sig_len,
    );
    assert_eq!(sign_result, 0);
    assert_eq!(sig_len, 32 + ring_size * 32 + 32);

    let verify_result =
        blocknet_clsag_verify(&ring_bytes, ring_size, message, &signature[..sig_len]);
    assert_eq!(verify_result, 0);

    let wrong_message = b"Wrong message!!!";
    let wrong_verify =
        blocknet_clsag_verify(&ring_bytes, ring_size, wrong_message, &signature[..sig_len]);
    assert_eq!(wrong_verify, -1);
}

#[test]
fn test_different_ring_positions() {
    let ring_size = RING_SIZE;

    for secret_index in 0..ring_size {
        let mut keypairs: Vec<(Scalar, RistrettoPoint)> = Vec::new();
        for _ in 0..ring_size {
            keypairs.push(generate_keypair());
        }

        let mut ring_bytes = vec![0u8; ring_size * 32];
        for (i, (_, pubkey)) in keypairs.iter().enumerate() {
            ring_bytes[i * 32..(i + 1) * 32].copy_from_slice(pubkey.compress().as_bytes());
        }

        let message = b"Test";
        let mut signature = vec![0u8; 32 + ring_size * 32 + 32];
        let mut sig_len: usize = 0;

        let sign_result = blocknet_clsag_sign(
            &ring_bytes,
            ring_size,
            secret_index,
            keypairs[secret_index].0.as_bytes(),
            message,
            &mut signature,
            &mut sig_len,
        );
        assert_eq!(sign_result, 0, "Failed to sign at index {}", secret_index);

        let verify_result =
            blocknet_clsag_verify(&ring_bytes, ring_size, message, &signature[..sig_len]);
        assert_eq!(
            verify_result, 0,
            "Failed to verify at index {}",
            secret_index
        );
    }
}

#[test]
fn test_key_image_linkability() {
    let (privkey, pubkey) = generate_keypair();

    let ring_size = RING_SIZE;

    let mut ring1: Vec<RistrettoPoint> = vec![pubkey];
    for _ in 1..ring_size {
        ring1.push(generate_keypair().1);
    }

    let mut ring2: Vec<RistrettoPoint> = vec![pubkey];
    for _ in 1..ring_size {
        ring2.push(generate_keypair().1);
    }

    let mut ring1_bytes = vec![0u8; ring_size * 32];
    let mut ring2_bytes = vec![0u8; ring_size * 32];
    for i in 0..ring_size {
        ring1_bytes[i * 32..(i + 1) * 32].copy_from_slice(ring1[i].compress().as_bytes());
        ring2_bytes[i * 32..(i + 1) * 32].copy_from_slice(ring2[i].compress().as_bytes());
    }

    let message = b"Transaction";
    let mut sig1 = vec![0u8; 32 + ring_size * 32 + 32];
    let mut sig2 = vec![0u8; 32 + ring_size * 32 + 32];
    let mut len1: usize = 0;
    let mut len2: usize = 0;

    blocknet_clsag_sign(
        &ring1_bytes,
        ring_size,
        0,
        privkey.as_bytes(),
        message,
        &mut sig1,
        &mut len1,
    );

    blocknet_clsag_sign(
        &ring2_bytes,
        ring_size,
        0,
        privkey.as_bytes(),
        message,
        &mut sig2,
        &mut len2,
    );

    let mut ki1 = [0u8; 32];
    let mut ki2 = [0u8; 32];
    blocknet_clsag_key_image(&sig1, ring_size, &mut ki1);
    blocknet_clsag_key_image(&sig2, ring_size, &mut ki2);

    assert_eq!(ki1, ki2);
}

#[test]
fn signature_key_image_is_that_of_the_private_key() {
    let (keypairs, _, signature) = signed(2, b"spend");
    let mut from_signature = [0u8; 32];
    let mut from_key = [0u8; 32];
    assert_eq!(blocknet_clsag_key_image(&signature, RING_SIZE, &mut from_signature), 0);
    assert_eq!(blocknet_key_image(keypairs[2].0.as_bytes(), &mut from_key), 0);
    assert_eq!(from_signature, from_key);
    assert_eq!(&signature[SIG_LEN - 32..], &from_key[..]);
}

#[test]
fn key_images_of_different_signers_differ() {
    let (_, _, first) = signed(0, b"spend");
    let (_, _, second) = signed(0, b"spend");
    assert_ne!(&first[SIG_LEN - 32..], &second[SIG_LEN - 32..]);
}

#[test]
fn sign_refuses_a_wrong_ring_size() {
    let keypairs = keypairs();
    let ring_bytes = ring_bytes_of(&keypairs);
    let mut signature = vec![7u8; SIG_LEN];
    let mut sig_len: usize = 9;
    for ring_size in [0, 1, RING_SIZE - 1, RING_SIZE + 1, usize::MAX] {
        let result = blocknet_clsag_sign(
            &ring_bytes,
            ring_size,
            0,
            keypairs[0].0.as_bytes(),
            b"m",
            &mut signature,
            &mut sig_len,
        );
        assert_eq!(result, -2);
    }
    assert_eq!(signature, vec![7u8; SIG_LEN]);
    assert_eq!(sig_len, 9);
}

#[test]
fn sign_refuses_an_index_outside_the_ring() {
    let keypairs = keypairs();
    let ring_bytes = ring_bytes_of(&keypairs);
    let mut signature = vec![7u8; SIG_LEN];
    let mut sig_len: usize = 9;
    for secret_index in [RING_SIZE, RING_SIZE + 1, usize::MAX] {
        let result = blocknet_clsag_sign(
            &ring_bytes,
            RING_SIZE,
            secret_index,
            keypairs[0].0.as_bytes(),
            b"m",
            &mut signature,
            &mut sig_len,
        );
        assert_eq!(result, -2);
    }
    assert_eq!(signature, vec![7u8; SIG_LEN]);
    assert_eq!(sig_len, 9);
}

#[test]
fn sign_refuses_a_private_key_that_is_not_canonical() {
    let keypairs = keypairs();
    let ring_bytes = ring_bytes_of(&keypairs);
    let mut signature = vec![7u8; SIG_LEN];
    let mut sig_len: usize = 9;
    let result = blocknet_clsag_sign(
        &ring_bytes,
        RING_SIZE,
        0,
        &order_bytes(),
        b"m",
        &mut signature,
        &mut sig_len,
    );
    assert_eq!(result, -1);
    assert_eq!(signature, vec![7u8; SIG_LEN]);
    assert_eq!(sig_len, 9);
}

#[test]
fn sign_refuses_a_ring_key_that_is_no_group_element() {
    let keypairs = keypairs();
    let mut ring_bytes = ring_bytes_of(&keypairs);
    ring_bytes[15 * 32..].copy_from_slice(&[0xffu8; 32]);
    let mut signature = vec![7u8; SIG_LEN];
    let mut sig_len: usize = 9;
    let result = blocknet_clsag_sign(
        &ring_bytes,
        RING_SIZE,
        0,
        keypairs[0].0.as_bytes(),
        b"m",
        &mut signature,
        &mut sig_len,
    );
    assert_eq!(result, -1);
    assert_eq!(signature, vec![7u8; SIG_LEN]);
    assert_eq!(sig_len, 9);
}

#[test]
fn sign_refuses_a_private_key_of_another_member() {
    let keypairs = keypairs();
    let ring_bytes = ring_bytes_of(&keypairs);
    let mut signature = vec![7u8; SIG_LEN];
    let mut sig_len: usize = 9;
    let result = blocknet_clsag_sign(
        &ring_bytes,
        RING_SIZE,
        4,
        keypairs[5].0.as_bytes(),
        b"m",
        &mut signature,
        &mut sig_len,
    );
    assert_eq!(result, -3);
    assert_eq!(signature, vec![7u8; SIG_LEN]);
    assert_eq!(sig_len, 9);
}

#[test]
fn sign_leaves_the_bytes_after_the_signature() {
    let keypairs = keypairs();
    let ring_bytes = ring_bytes_of(&keypairs);
    let mut signature = vec![7u8; SIG_LEN + 10];
    let mut sig_len: usize = 0;
    let result = blocknet_clsag_sign(
        &ring_bytes,
        RING_SIZE,
        15,
        keypairs[15].0.as_bytes(),
        b"",
        &mut signature,
        &mut sig_len,
    );
    assert_eq!(result, 0);
    assert_eq!(sig_len, SIG_LEN);
    assert_eq!(&signature[SIG_LEN..], &[7u8; 10][..]);
    assert_eq!(blocknet_clsag_verify(&ring_bytes, RING_SIZE, b"", &signature[..SIG_LEN]), 0);
}

#[test]
fn signing_twice_draws_new_nonces() {
    let keypairs = keypairs();
    let ring_bytes = ring_bytes_of(&keypairs);
    let mut first = vec![0u8; SIG_LEN];
    let mut second = vec![0u8; SIG_LEN];
    let mut sig_len: usize = 0;
    for signature in [&mut first, &mut second] {
        let result = blocknet_clsag_sign(
            &ring_bytes,
            RING_SIZE,
            3,
            keypairs[3].0.as_bytes(),
            b"m",
            signature,
            &mut sig_len,
        );
        assert_eq!(result, 0);
    }
    for i in 0..RING_SIZE + 1 {
        assert_ne!(first[32 * i..32 * i + 32], second[32 * i..32 * i + 32]);
    }
}

#[test]
fn verify_refuses_a_wrong_length_or_ring_size() {
    let (_, ring_bytes, signature) = signed(6, b"m");
    assert_eq!(blocknet_clsag_verify(&ring_bytes, RING_SIZE, b"m", &signature[1..]), -2);
    assert_eq!(blocknet_clsag_verify(&ring_bytes, RING_SIZE, b"m", b""), -2);
    assert_eq!(blocknet_clsag_verify(&ring_bytes, RING_SIZE - 1, b"m", &signature), -2);
    assert_eq!(
        blocknet_clsag_verify(&ring_bytes, RING_SIZE - 1, b"m", &signature[32..]),
        -2
    );
    assert_eq!(blocknet_clsag_verify(&ring_bytes, usize::MAX, b"m", &signature), -2);
}

#[test]
fn verify_refuses_a_change_in_any_block() {
    let (_, ring_bytes, signature) = signed(6, b"m");
    let other = Scalar::random(&mut rand::thread_rng());
    let other_point = (&other * RISTRETTO_BASEPOINT_TABLE).compress().to_bytes();
    for i in 0..RING_SIZE + 2 {
        let mut changed = signature.clone();
        let value = if i == RING_SIZE + 1 { other_point } else { other.to_bytes() };
        changed[32 * i..32 * i + 32].copy_from_slice(&value);
        assert_eq!(blocknet_clsag_verify(&ring_bytes, RING_SIZE, b"m", &changed), -1);
    }
}

#[test]
fn verify_refuses_bytes_that_are_not_canonical() {
    let (_, ring_bytes, signature) = signed(6, b"m");
    for i in 0..RING_SIZE + 1 {
        let mut changed = signature.clone();
        changed[32 * i..32 * i + 32].copy_from_slice(&order_bytes());
        assert_eq!(blocknet_clsag_verify(&ring_bytes, RING_SIZE, b"m", &changed), -1);
    }
    let mut changed = signature.clone();
    changed[SIG_LEN - 32..].copy_from_slice(&[0xffu8; 32]);
    assert_eq!(blocknet_clsag_verify(&ring_bytes, RING_SIZE, b"m", &changed), -1);
    let mut ring_changed = ring_bytes.clone();
    ring_changed[0..32].copy_from_slice(&[0xffu8; 32]);
    assert_eq!(blocknet_clsag_verify(&ring_changed, RING_SIZE, b"m", &signature), -1);
}

#[test]
fn verify_refuses_another_ring() {
    let (_, ring_bytes, signature) = signed(6, b"m");
    let mut swapped = ring_bytes.clone();
    swapped[0..32].copy_from_slice(&ring_bytes[32..64]);
    swapped[32..64].copy_from_slice(&ring_bytes[0..32]);
    assert_eq!(blocknet_clsag_verify(&swapped, RING_SIZE, b"m", &signature), -1);
}

#[test]
fn sign_with_fixed_nonces_gives_the_formula() {
    let keypairs: Vec<(Scalar, RistrettoPoint)> = (0..3u64)
        .map(|i| {
            let x = Scalar::from(100 + i);
            (x, &x * RISTRETTO_BASEPOINT_TABLE)
        })
        .collect();
    let message = b"fixed";
    let x = keypairs[1].0;
    let alpha = Scalar::from(9u64);
    let s0 = Scalar::from(20u64);
    let s2 = Scalar::from(22u64);
    let image = x * hash_to_point(&keypairs[1].1);

    let c2 = challenge(
        message,
        &(&alpha * RISTRETTO_BASEPOINT_TABLE),
        &(alpha * hash_to_point(&keypairs[1].1)),
    );
    let c0 = challenge(
        message,
        &(s2 * RISTRETTO_BASEPOINT_POINT + c2 * keypairs[2].1),
        &(s2 * hash_to_point(&keypairs[2].1) + c2 * image),
    );
    let c1 = challenge(
        message,
        &(s0 * RISTRETTO_BASEPOINT_POINT + c0 * keypairs[0].1),
        &(s0 * hash_to_point(&keypairs[0].1) + c0 * image),
    );
    let s1 = alpha - c1 * x;

    let ring: Vec<Point> = keypairs.iter().map(|(_, p)| lib_point(p)).collect();
    let responses = vec![lib_scalar(&s0), lib_scalar(&Scalar::ZERO), lib_scalar(&s2)];
    let sig =
        clsag_sign_with(&ring, 1, &lib_scalar(&x), message, &lib_scalar(&alpha), responses);
    assert_eq!(sig.c0.bytes, c0.to_bytes());
    assert_eq!(sig.s.len(), 3);
    assert_eq!(sig.s[0].bytes, s0.to_bytes());
    assert_eq!(sig.s[1].bytes, s1.to_bytes());
    assert_eq!(sig.s[2].bytes, s2.to_bytes());
    assert_eq!(sig.key_image.bytes, image.compress().to_bytes());
    assert!(clsag_verify(&ring, message, &sig));
    assert!(!clsag_verify(&ring, b"other", &sig));
}

#[test]
fn a_ring_of_one_closes() {
    let x = Scalar::from(5u64);
    let ring = vec![lib_point(&(&x * RISTRETTO_BASEPOINT_TABLE))];
    let sig = clsag_sign_with(
        &ring,
        0,
        &lib_scalar(&x),
        b"alone",
        &lib_scalar(&Scalar::from(8u64)),
        vec![lib_scalar(&Scalar::ZERO)],
    );
    assert!(clsag_verify(&ring, b"alone", &sig));
}

#[test]
fn every_member_can_make_a_good_signature_of_its_key_image() {
    let (keypairs, ring_bytes, signature) = signed(6, b"m");
    let sig = ClsagSignature::parse(&signature, RING_SIZE).expect("good signature");
    let x = keypairs[6].0;

    let mut c = Scalar::from_bytes_mod_order(sig.c0.bytes);
    let image = x * hash_to_point(&keypairs[6].1);
    for i in 0..6 {
        let s = Scalar::from_bytes_mod_order(sig.s[i].bytes);
        c = challenge(
            b"m",
            &(s * RISTRETTO_BASEPOINT_POINT + c * keypairs[i].1),
            &(s * hash_to_point(&keypairs[i].1) + c * image),
        );
    }
    let alpha = Scalar::from_bytes_mod_order(sig.s[6].bytes) + c * x;

    let ring: Vec<Point> = keypairs.iter().map(|(_, p)| lib_point(p)).collect();
    let responses: Vec<LibScalar> = sig.s.clone();
    let again =
        clsag_sign_with(&ring, 6, &lib_scalar(&x), b"m", &lib_scalar(&alpha), responses);
    let mut bytes: Vec<u8> = Vec::new();
    for block in again.to_blocks() {
        bytes.extend_from_slice(&block);
    }
    assert_eq!(bytes, signature);
    assert_eq!(blocknet_clsag_verify(&ring_bytes, RING_SIZE, b"m", &bytes), 0);
}

#[test]
fn one_nonce_for_two_messages_gives_the_private_key_away() {
    let x = Scalar::from(1234u64);
    let ring = vec![lib_point(&(&x * RISTRETTO_BASEPOINT_TABLE))];
    let alpha = lib_scalar(&Scalar::from(77u64));
    let answer = |message: &[u8]| {
        let zero = vec![lib_scalar(&Scalar::ZERO)];
        let sig = clsag_sign_with(&ring, 0, &lib_scalar(&x), message, &alpha, zero);
        (
            Scalar::from_bytes_mod_order(sig.c0.bytes),
            Scalar::from_bytes_mod_order(sig.s[0].bytes),
        )
    };
    let (c, s) = answer(b"first");
    let (d, t) = answer(b"second");
    assert_ne!(c, d);
    assert_eq!((s - t) * (d - c).invert(), x);
}

#[test]
fn a_generated_key_pair_signs() {
    let keypairs = keypairs();
    let mut pair = [0u8; 64];
    assert_eq!(blocknet_ristretto_keygen_from_seed(&[5u8; 32], &mut pair), 0);
    let mut ring_bytes = ring_bytes_of(&keypairs);
    ring_bytes[11 * 32..12 * 32].copy_from_slice(&pair[32..]);
    let private_key: [u8; 32] = pair[..32].try_into().expect("half");
    let mut signature = vec![0u8; SIG_LEN];
    let mut sig_len: usize = 0;
    let result = blocknet_clsag_sign(
        &ring_bytes,
        RING_SIZE,
        11,
        &private_key,
        b"m",
        &mut signature,
        &mut sig_len,
    );
    assert_eq!(result, 0);
    assert_eq!(blocknet_clsag_verify(&ring_bytes, RING_SIZE, b"m", &signature), 0);
}

#[test]
fn parse_and_to_blocks_are_inverse() {
    let (_, _, signature) = signed(1, b"m");
    let sig = ClsagSignature::parse(&signature, RING_SIZE).expect("good signature");
    let blocks = sig.to_blocks();
    assert_eq!(blocks.len(), RING_SIZE + 2);
    let mut bytes: Vec<u8> = Vec::new();
    for block in &blocks {
        bytes.extend_from_slice(block);
    }
    assert_eq!(bytes, signature);
}

#[test]
fn parse_refuses_what_is_no_signature() {
    let (_, _, signature) = signed(1, b"m");
    let mut changed = signature.clone();
    changed[32..64].copy_from_slice(&[0xffu8; 32]);
    assert!(ClsagSignature::parse(&changed, RING_SIZE).is_none());
    let mut changed = signature.clone();
    changed[SIG_LEN - 32..].copy_from_slice(&[0xffu8; 32]);
    assert!(ClsagSignature::parse(&changed, RING_SIZE).is_none());
}

#[test]
fn key_image_is_copied_for_any_ring_size() {
    let mut signature = vec![1u8; 32 * 5];
    signature[32 * 3..32 * 4].copy_from_slice(&[9u8; 32]);
    let mut image = [0u8; 32];
    assert_eq!(blocknet_clsag_key_image(&signature, 2, &mut image), 0);
    assert_eq!(image, [9u8; 32]);
}
