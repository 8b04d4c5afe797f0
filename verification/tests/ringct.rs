use blocknet_crypto::bytes::{bytes_equal, read_block, write_blocks};
use blocknet_crypto::group::{Point, Scalar as LibScalar};
use blocknet_crypto::keys::blocknet_key_image;
use blocknet_crypto::ring::{next_member, read_points, read_scalars, RING_SIZE};
use blocknet_crypto::ringct::{
    blocknet_ringct_key_image, blocknet_ringct_pseudo_output, blocknet_ringct_sign,
    blocknet_ringct_verify, commitment_differences, ringct_sign_with, ringct_verify,
    RingctSignature,
};
use bulletproofs::PedersenGens;
use curve25519_dalek::constants::{RISTRETTO_BASEPOINT_POINT, RISTRETTO_BASEPOINT_TABLE};
use curve25519_dalek::ristretto::RistrettoPoint;
use curve25519_dalek::scalar::Scalar;
use sha2::{Digest, Sha512};

const SIG_LEN: usize = 32 + RING_SIZE * 32 + RING_SIZE * 32 + 32 + 32;

fn generate_keypair() -> (Scalar, RistrettoPoint) {
    let privkey = Scalar::random(&mut rand::thread_rng());
    let pubkey = &privkey * RISTRETTO_BASEPOINT_TABLE;
    (privkey, pubkey)
}

/// A ring whose members hold the given amounts, with a pseudo-output.
struct Setup {
    keypairs: Vec<(Scalar, RistrettoPoint)>,
    blindings: Vec<Scalar>,
    ring_keys: Vec<u8>,
    ring_commitments: Vec<u8>,
    pseudo_blinding: Scalar,
    pseudo_output: [u8; 32],
}

fn setup(secret_index: usize, amount: u64, pseudo_amount: u64) -> Setup {
    let pc_gens = PedersenGens::default();
    let mut keypairs = Vec::new();
    let mut blindings = Vec::new();
    let mut ring_keys = Vec::new();
    let mut ring_commitments = Vec::new();
    for i in 0..RING_SIZE {
        let pair = generate_keypair();
        let blinding = Scalar::random(&mut rand::thread_rng());
        let value = if i == secret_index { amount } else { 70 + i as u64 };
        let commitment = pc_gens.commit(Scalar::from(value), blinding);
        ring_keys.extend_from_slice(pair.1.compress().as_bytes());
        ring_commitments.extend_from_slice(commitment.compress().as_bytes());
        keypairs.push(pair);
        blindings.push(blinding);
    }
    let pseudo_blinding = Scalar::random(&mut rand::thread_rng());
    let pseudo_output =
        pc_gens.commit(Scalar::from(pseudo_amount), pseudo_blinding).compress().to_bytes();
    Setup { keypairs, blindings, ring_keys, ring_commitments, pseudo_blinding, pseudo_output }
}

fn sign(s: &Setup, secret_index: usize, message: &[u8], out: &mut [u8], len: &mut usize) -> i32 {
    blocknet_ringct_sign(
        &s.ring_keys,
        &s.ring_commitments,
        RING_SIZE,
        secret_index,
        s.keypairs[secret_index].0.as_bytes(),
        s.blindings[secret_index].as_bytes(),
        &s.pseudo_output,
        s.pseudo_blinding.as_bytes(),
        message,
        out,
        len,
    )
}

fn verify(s: &Setup, message: &[u8], signature: &[u8]) -> i32 {
    blocknet_ringct_verify(&s.ring_keys, &s.ring_commitments, RING_SIZE, message, signature)
}

/// A ring with a good signature by the given member.
fn signed(secret_index: usize, message: &[u8]) -> (Setup, Vec<u8>) {
    let s = setup(secret_index, 1000, 1000);
    let mut signature = vec![0u8; SIG_LEN];
    let mut len: usize = 0;
    assert_eq!(sign(&s, secret_index, message, &mut signature, &mut len), 0);
    assert_eq!(len, SIG_LEN);
    (s, signature)
}

fn hash_to_point(p: &RistrettoPoint) -> RistrettoPoint {
    let mut hasher = Sha512::new();
    hasher.update(b"blocknet_hash_to_point");
    hasher.update(p.compress().as_bytes());
    RistrettoPoint::from_uniform_bytes(&hasher.finalize().into())
}

fn challenge(
    message: &[u8],
    l: &RistrettoPoint,
    r: &RistrettoPoint,
    d: &RistrettoPoint,
) -> Scalar {
    let mut hasher = Sha512::new();
    hasher.update(b"blocknet_ringct_c");
    hasher.update(message);
    hasher.update(l.compress().as_bytes());
    hasher.update(r.compress().as_bytes());
    hasher.update(d.compress().as_bytes());
    Scalar::from_bytes_mod_order_wide(&hasher.finalize().into())
}

fn lib_point(p: &RistrettoPoint) -> Point {
    Point { bytes: p.compress().to_bytes() }
}

fn lib_scalar(s: &Scalar) -> LibScalar {
    LibScalar { bytes: s.to_bytes() }
}

/// Bytes whose little-endian value is the group order.
fn order_bytes() -> [u8; 32] {
    let mut bytes = (-Scalar::ONE).to_bytes();
    bytes[0] += 1;
    bytes
}

#[test]
fn test_ringct_sign_verify() {
    let ring_size = RING_SIZE;
    let secret_index = 5;
    let amount = 1000u64;

    let pc_gens = PedersenGens::default();

    let mut keypairs: Vec<(Scalar, RistrettoPoint)> = Vec::new();
    let mut commitments: Vec<(Scalar, RistrettoPoint)> = Vec::new();

    for i in 0..ring_size {
        let (priv_key, pub_key) = generate_keypair();
        keypairs.push((priv_key, pub_key));

        let blinding = Scalar::random(&mut rand::thread_rng());
        let val = if i == secret_index {
            Scalar::from(amount)
        } else {
            Scalar::from(5000u64 + i as u64 * 1000)
        };
        let commitment = pc_gens.commit(val, blinding);
        commitments.push((blinding, commitment));
    }

    let pseudo_blinding = Scalar::random(&mut rand::thread_rng());
    let pseudo_output = pc_gens.commit(Scalar::from(amount), pseudo_blinding);

    let mut ring_key_bytes = vec![0u8; ring_size * 32];
    let mut ring_commit_bytes = vec![0u8; ring_size * 32];
    for i in 0..ring_size {
        ring_key_bytes[i * 32..(i + 1) * 32].copy_from_slice(keypairs[i].1.compress().as_bytes());
        ring_commit_bytes[i * 32..(i + 1) * 32]
            .copy_from_slice(commitments[i].1.compress().as_bytes());
    }

    let message = b"Test RingCT transaction";
    let sig_len = 32 + ring_size * 32 + ring_size * 32 + 32 + 32;
    let mut signature = vec![0u8; sig_len];
    let mut actual_sig_len: usize = 0;

    let sign_result = blocknet_ringct_sign(
        &ring_key_bytes,
        &ring_commit_bytes,
        ring_size,
        secret_index,
        keypairs[secret_index].0.as_bytes(),
        commitments[secret_index].0.as_bytes(),
        pseudo_output.compress().as_bytes(),
        pseudo_blinding.as_bytes(),
        message,
        &mut signature,
        &mut actual_sig_len,
    );
    assert_eq!(sign_result, 0, "Signing failed");
    assert_eq!(actual_sig_len, sig_len);

    let verify_result = blocknet_ringct_verify(
        &ring_key_bytes,
        &ring_commit_bytes,
        ring_size,
        message,
        &signature[..actual_sig_len],
    );
    assert_eq!(verify_result, 0, "Verification failed");

    let wrong_message = b"Wrong message!";
    let wrong_verify = blocknet_ringct_verify(
        &ring_key_bytes,
        &ring_commit_bytes,
        ring_size,
        wrong_message,
        &signature[..actual_sig_len],
    );
    assert_eq!(wrong_verify, -1, "Should fail on wrong message");
}

#[test]
fn test_ringct_wrong_amount_fails() {
    let ring_size = RING_SIZE;
    let secret_index = 3;
    let real_amount = 1000u64;
    let fake_amount = 9999u64;

    let pc_gens = PedersenGens::default();

    let mut keypairs: Vec<(Scalar, RistrettoPoint)> = Vec::new();
    let mut commitments: Vec<(Scalar, RistrettoPoint)> = Vec::new();

    for i in 0..ring_size {
        let (priv_key, pub_key) = generate_keypair();
        keypairs.push((priv_key, pub_key));

        let blinding = Scalar::random(&mut rand::thread_rng());
        let val = if i == secret_index {
            Scalar::from(real_amount)
        } else {
            Scalar::from(5000u64)
        };
        let commitment = pc_gens.commit(val, blinding);
        commitments.push((blinding, commitment));
    }

    let pseudo_blinding = Scalar::random(&mut rand::thread_rng());
    let pseudo_output = pc_gens.commit(Scalar::from(fake_amount), pseudo_blinding);

    let mut ring_key_bytes = vec![0u8; ring_size * 32];
    let mut ring_commit_bytes = vec![0u8; ring_size * 32];
    for i in 0..ring_size {
        ring_key_bytes[i * 32..(i + 1) * 32].copy_from_slice(keypairs[i].1.compress().as_bytes());
        ring_commit_bytes[i * 32..(i + 1) * 32]
            .copy_from_slice(commitments[i].1.compress().as_bytes());
    }

    let message = b"Fraudulent transaction";
    let sig_len = 32 + ring_size * 32 + ring_size * 32 + 32 + 32;
    let mut signature = vec![0u8; sig_len];
    let mut actual_sig_len: usize = 0;

    let sign_result = blocknet_ringct_sign(
        &ring_key_bytes,
        &ring_commit_bytes,
        ring_size,
        secret_index,
        keypairs[secret_index].0.as_bytes(),
        commitments[secret_index].0.as_bytes(),
        pseudo_output.compress().as_bytes(),
        pseudo_blinding.as_bytes(),
        message,
        &mut signature,
        &mut actual_sig_len,
    );
    assert_eq!(sign_result, 0);

    let verify_result = blocknet_ringct_verify(
        &ring_key_bytes,
        &ring_commit_bytes,
        ring_size,
        message,
        &signature[..actual_sig_len],
    );
    assert_eq!(verify_result, -1, "Fraudulent amount must be rejected!");
}

#[test]
fn first_middle_and_last_member_sign() {
    for secret_index in [0, 8, 15] {
        let (s, signature) = signed(secret_index, b"m");
        assert_eq!(verify(&s, b"m", &signature), 0, "index {}", secret_index);
    }
}

#[test]
fn a_wrong_blinding_factor_is_refused() {
    let mut s = setup(4, 1000, 1000);
    s.blindings[4] += Scalar::ONE;
    let mut signature = vec![0u8; SIG_LEN];
    let mut len: usize = 0;
    assert_eq!(sign(&s, 4, b"m", &mut signature, &mut len), 0);
    assert_eq!(verify(&s, b"m", &signature), -1);
}

#[test]
fn blinding_factors_are_reduced() {
    let pc_gens = PedersenGens::default();
    let mut s = setup(2, 1000, 1000);
    let raw = [0xffu8; 32];
    let blinding = Scalar::from_bytes_mod_order(raw);
    let commitment = pc_gens.commit(Scalar::from(1000u64), blinding);
    s.ring_commitments[64..96].copy_from_slice(commitment.compress().as_bytes());
    let mut signature = vec![0u8; SIG_LEN];
    let mut len: usize = 0;
    let result = blocknet_ringct_sign(
        &s.ring_keys,
        &s.ring_commitments,
        RING_SIZE,
        2,
        s.keypairs[2].0.as_bytes(),
        &raw,
        &s.pseudo_output,
        s.pseudo_blinding.as_bytes(),
        b"m",
        &mut signature,
        &mut len,
    );
    assert_eq!(result, 0);
    assert_eq!(verify(&s, b"m", &signature), 0);

    let s2 = setup(2, 1000, 1000);
    let pseudo = pc_gens.commit(Scalar::from(1000u64), blinding).compress().to_bytes();
    let result = blocknet_ringct_sign(
        &s2.ring_keys,
        &s2.ring_commitments,
        RING_SIZE,
        2,
        s2.keypairs[2].0.as_bytes(),
        s2.blindings[2].as_bytes(),
        &pseudo,
        &raw,
        b"m",
        &mut signature,
        &mut len,
    );
    assert_eq!(result, 0);
    assert_eq!(verify(&s2, b"m", &signature), 0);
}

#[test]
fn signature_carries_key_image_and_pseudo_output() {
    let (s, signature) = signed(9, b"m");
    let mut image = [0u8; 32];
    let mut pseudo = [0u8; 32];
    let mut expected = [0u8; 32];
    assert_eq!(blocknet_ringct_key_image(&signature, RING_SIZE, &mut image), 0);
    assert_eq!(blocknet_ringct_pseudo_output(&signature, RING_SIZE, &mut pseudo), 0);
    assert_eq!(blocknet_key_image(s.keypairs[9].0.as_bytes(), &mut expected), 0);
    assert_eq!(image, expected);
    assert_eq!(pseudo, s.pseudo_output);
}

#[test]
fn one_key_gives_one_key_image_in_two_rings() {
    let (privkey, pubkey) = generate_keypair();
    let mut images = Vec::new();
    for (index, message) in [(1usize, b"first"), (8usize, b"other")] {
        let mut s = setup(index, 500, 500);
        s.keypairs[index] = (privkey, pubkey);
        s.ring_keys[32 * index..32 * index + 32].copy_from_slice(pubkey.compress().as_bytes());
        let mut signature = vec![0u8; SIG_LEN];
        let mut len: usize = 0;
        assert_eq!(sign(&s, index, message, &mut signature, &mut len), 0);
        let mut image = [0u8; 32];
        assert_eq!(blocknet_ringct_key_image(&signature, RING_SIZE, &mut image), 0);
        images.push(image);
    }
    assert_eq!(images[0], images[1]);
}

#[test]
fn ringct_sign_refuses_a_wrong_ring_size_or_index() {
    let s = setup(0, 1000, 1000);
    let mut signature = vec![7u8; SIG_LEN];
    let mut len: usize = 9;
    for (ring_size, index) in
        [(0, 0), (15, 0), (17, 0), (usize::MAX, 0), (RING_SIZE, RING_SIZE), (RING_SIZE, usize::MAX)]
    {
        let result = blocknet_ringct_sign(
            &s.ring_keys,
            &s.ring_commitments,
            ring_size,
            index,
            s.keypairs[0].0.as_bytes(),
            s.blindings[0].as_bytes(),
            &s.pseudo_output,
            s.pseudo_blinding.as_bytes(),
            b"m",
            &mut signature,
            &mut len,
        );
        assert_eq!(result, -2);
    }
    assert_eq!(signature, vec![7u8; SIG_LEN]);
    assert_eq!(len, 9);
}

#[test]
fn ringct_sign_refuses_a_private_key_that_is_not_canonical() {
    let s = setup(0, 1000, 1000);
    let mut signature = vec![7u8; SIG_LEN];
    let mut len: usize = 9;
    let result = blocknet_ringct_sign(
        &s.ring_keys,
        &s.ring_commitments,
        RING_SIZE,
        0,
        &order_bytes(),
        s.blindings[0].as_bytes(),
        &s.pseudo_output,
        s.pseudo_blinding.as_bytes(),
        b"m",
        &mut signature,
        &mut len,
    );
    assert_eq!(result, -1);
    assert_eq!(signature, vec![7u8; SIG_LEN]);
    assert_eq!(len, 9);
}

#[test]
fn ringct_sign_refuses_what_is_no_group_element() {
    let mut signature = vec![7u8; SIG_LEN];
    let mut len: usize = 9;

    let mut s = setup(0, 1000, 1000);
    s.pseudo_output = [0xffu8; 32];
    assert_eq!(sign(&s, 0, b"m", &mut signature, &mut len), -1);

    let mut s = setup(0, 1000, 1000);
    s.ring_keys[32..64].copy_from_slice(&[0xffu8; 32]);
    assert_eq!(sign(&s, 0, b"m", &mut signature, &mut len), -1);

    let mut s = setup(0, 1000, 1000);
    s.ring_commitments[15 * 32..].copy_from_slice(&[0xffu8; 32]);
    assert_eq!(sign(&s, 0, b"m", &mut signature, &mut len), -1);

    assert_eq!(signature, vec![7u8; SIG_LEN]);
    assert_eq!(len, 9);
}

#[test]
fn ringct_sign_refuses_a_private_key_of_another_member() {
    let mut s = setup(0, 1000, 1000);
    s.keypairs[0].0 = s.keypairs[1].0;
    let mut signature = vec![7u8; SIG_LEN];
    let mut len: usize = 9;
    assert_eq!(sign(&s, 0, b"m", &mut signature, &mut len), -3);
    assert_eq!(signature, vec![7u8; SIG_LEN]);
    assert_eq!(len, 9);
}

#[test]
fn ringct_sign_leaves_the_bytes_after_the_signature() {
    let s = setup(15, 1000, 1000);
    let mut signature = vec![7u8; SIG_LEN + 5];
    let mut len: usize = 0;
    assert_eq!(sign(&s, 15, b"", &mut signature, &mut len), 0);
    assert_eq!(len, SIG_LEN);
    assert_eq!(&signature[SIG_LEN..], &[7u8; 5][..]);
    assert_eq!(verify(&s, b"", &signature[..SIG_LEN]), 0);
}

#[test]
fn ringct_verify_refuses_a_wrong_length_or_ring_size() {
    let (s, signature) = signed(6, b"m");
    assert_eq!(verify(&s, b"m", &signature[1..]), -2);
    assert_eq!(verify(&s, b"m", b""), -2);
    for ring_size in [0, 15, 17, usize::MAX] {
        assert_eq!(
            blocknet_ringct_verify(&s.ring_keys, &s.ring_commitments, ring_size, b"m", &signature),
            -2
        );
    }
}

#[test]
fn ringct_verify_refuses_a_change_in_any_block() {
    let (s, signature) = signed(6, b"m");
    let other = Scalar::random(&mut rand::thread_rng());
    let other_point = (&other * RISTRETTO_BASEPOINT_TABLE).compress().to_bytes();
    for i in [0, 1, RING_SIZE, RING_SIZE + 1, 2 * RING_SIZE, 2 * RING_SIZE + 1, 2 * RING_SIZE + 2] {
        let mut changed = signature.clone();
        let value = if i > 2 * RING_SIZE { other_point } else { other.to_bytes() };
        changed[32 * i..32 * i + 32].copy_from_slice(&value);
        assert_eq!(verify(&s, b"m", &changed), -1);
    }
}

#[test]
fn ringct_verify_refuses_bytes_that_are_not_canonical() {
    let (s, signature) = signed(6, b"m");
    for i in 0..2 * RING_SIZE + 3 {
        let mut changed = signature.clone();
        let value = if i > 2 * RING_SIZE { [0xffu8; 32] } else { order_bytes() };
        changed[32 * i..32 * i + 32].copy_from_slice(&value);
        assert_eq!(verify(&s, b"m", &changed), -1);
    }
    let mut keys = s.ring_keys.clone();
    keys[0..32].copy_from_slice(&[0xffu8; 32]);
    assert_eq!(
        blocknet_ringct_verify(&keys, &s.ring_commitments, RING_SIZE, b"m", &signature),
        -1
    );
    let mut commitments = s.ring_commitments.clone();
    commitments[0..32].copy_from_slice(&[0xffu8; 32]);
    assert_eq!(
        blocknet_ringct_verify(&s.ring_keys, &commitments, RING_SIZE, b"m", &signature),
        -1
    );
}

#[test]
fn ringct_verify_refuses_other_commitments() {
    let (s, signature) = signed(6, b"m");
    let other = setup(6, 1000, 1000);
    assert_eq!(
        blocknet_ringct_verify(
            &s.ring_keys,
            &other.ring_commitments,
            RING_SIZE,
            b"m",
            &signature
        ),
        -1
    );
}

#[test]
fn ringct_sign_with_fixed_nonces_gives_the_formula() {
    let pc_gens = PedersenGens::default();
    let h = pc_gens.B_blinding;
    let xs = [Scalar::from(11u64), Scalar::from(12u64)];
    let keys: Vec<RistrettoPoint> = xs.iter().map(|x| x * RISTRETTO_BASEPOINT_TABLE).collect();
    let inputs = [
        pc_gens.commit(Scalar::from(50u64), Scalar::from(7u64)),
        pc_gens.commit(Scalar::from(60u64), Scalar::from(8u64)),
    ];
    let pseudo = pc_gens.commit(Scalar::from(60u64), Scalar::from(30u64));
    let message = b"fixed";
    let (alpha, alpha_z) = (Scalar::from(3u64), Scalar::from(4u64));
    let (s0, t0) = (Scalar::from(5u64), Scalar::from(6u64));
    let z = Scalar::from(22u64);
    let image = xs[1] * hash_to_point(&keys[1]);

    let c0 = challenge(
        message,
        &(&alpha * RISTRETTO_BASEPOINT_TABLE),
        &(alpha * hash_to_point(&keys[1])),
        &(alpha_z * h),
    );
    let c1 = challenge(
        message,
        &(s0 * RISTRETTO_BASEPOINT_POINT + c0 * keys[0]),
        &(s0 * hash_to_point(&keys[0]) + c0 * image),
        &(t0 * h + c0 * (pseudo - inputs[0])),
    );

    let lib_keys: Vec<Point> = keys.iter().map(lib_point).collect();
    let lib_inputs: Vec<Point> = inputs.iter().map(lib_point).collect();
    let sig = ringct_sign_with(
        &lib_keys,
        &lib_inputs,
        1,
        &lib_scalar(&xs[1]),
        &lib_scalar(&z),
        &lib_point(&pseudo),
        message,
        &lib_scalar(&alpha),
        &lib_scalar(&alpha_z),
        vec![lib_scalar(&s0), lib_scalar(&Scalar::ZERO)],
        vec![lib_scalar(&t0), lib_scalar(&Scalar::ZERO)],
    );
    assert_eq!(sig.c0.bytes, c0.to_bytes());
    assert_eq!(sig.s[0].bytes, s0.to_bytes());
    assert_eq!(sig.t[0].bytes, t0.to_bytes());
    assert_eq!(sig.s[1].bytes, (alpha - c1 * xs[1]).to_bytes());
    assert_eq!(sig.t[1].bytes, (alpha_z - c1 * z).to_bytes());
    assert_eq!(sig.key_image.bytes, image.compress().to_bytes());
    assert_eq!(sig.pseudo_output.bytes, pseudo.compress().to_bytes());
    assert!(ringct_verify(&lib_keys, &lib_inputs, message, &sig));
    assert!(!ringct_verify(&lib_keys, &lib_inputs, b"other", &sig));
    let swapped = vec![lib_inputs[1], lib_inputs[0]];
    assert!(!ringct_verify(&lib_keys, &swapped, message, &sig));
}

#[test]
fn a_good_signature_is_made_from_some_nonces() {
    let (setup, signature) = signed(3, b"m");
    let sig = RingctSignature::parse(&signature, RING_SIZE).expect("good signature");
    let h = PedersenGens::default().B_blinding;
    let keys = read_points(&setup.ring_keys, RING_SIZE).expect("points");
    let inputs = read_points(&setup.ring_commitments, RING_SIZE).expect("points");
    let x = setup.keypairs[3].0;
    let z = setup.pseudo_blinding - setup.blindings[3];
    let image = x * hash_to_point(&setup.keypairs[3].1);
    let differences = commitment_differences(&sig.pseudo_output, &inputs);

    let mut c = Scalar::from_bytes_mod_order(sig.c0.bytes);
    for i in 0..3 {
        let s = Scalar::from_bytes_mod_order(sig.s[i].bytes);
        let t = Scalar::from_bytes_mod_order(sig.t[i].bytes);
        let p = setup.keypairs[i].1;
        let d = curve25519_dalek::ristretto::CompressedRistretto(differences[i].bytes)
            .decompress()
            .expect("point");
        c = challenge(
            b"m",
            &(s * RISTRETTO_BASEPOINT_POINT + c * p),
            &(s * hash_to_point(&p) + c * image),
            &(t * h + c * d),
        );
    }
    let alpha = Scalar::from_bytes_mod_order(sig.s[3].bytes) + c * x;
    let alpha_z = Scalar::from_bytes_mod_order(sig.t[3].bytes) + c * z;
    let again = ringct_sign_with(
        &keys,
        &inputs,
        3,
        &lib_scalar(&x),
        &lib_scalar(&z),
        &sig.pseudo_output,
        b"m",
        &lib_scalar(&alpha),
        &lib_scalar(&alpha_z),
        sig.s.clone(),
        sig.t.clone(),
    );
    let mut bytes: Vec<u8> = Vec::new();
    for block in again.to_blocks() {
        bytes.extend_from_slice(&block);
    }
    assert_eq!(bytes, signature);
}

#[test]
fn one_pair_of_nonces_for_two_messages_gives_the_secrets_away() {
    let pc_gens = PedersenGens::default();
    let x = Scalar::from(1234u64);
    let keys = vec![lib_point(&(&x * RISTRETTO_BASEPOINT_TABLE))];
    let input = pc_gens.commit(Scalar::from(50u64), Scalar::from(7u64));
    let pseudo = pc_gens.commit(Scalar::from(50u64), Scalar::from(29u64));
    let inputs = vec![lib_point(&input)];
    let z = Scalar::from(22u64);
    let answer = |message: &[u8]| {
        let sig = ringct_sign_with(
            &keys,
            &inputs,
            0,
            &lib_scalar(&x),
            &lib_scalar(&z),
            &lib_point(&pseudo),
            message,
            &lib_scalar(&Scalar::from(77u64)),
            &lib_scalar(&Scalar::from(78u64)),
            vec![lib_scalar(&Scalar::ZERO)],
            vec![lib_scalar(&Scalar::ZERO)],
        );
        (
            Scalar::from_bytes_mod_order(sig.c0.bytes),
            Scalar::from_bytes_mod_order(sig.s[0].bytes),
            Scalar::from_bytes_mod_order(sig.t[0].bytes),
        )
    };
    let (c, s, t) = answer(b"first");
    let (other_c, other_s, other_t) = answer(b"second");
    assert_ne!(c, other_c);
    assert_eq!((s - other_s) * (other_c - c).invert(), x);
    assert_eq!((t - other_t) * (other_c - c).invert(), z);
}

#[test]
fn differences_are_those_of_the_points() {
    let p = &Scalar::from(9u64) * RISTRETTO_BASEPOINT_TABLE;
    let q = &Scalar::from(4u64) * RISTRETTO_BASEPOINT_TABLE;
    let r = commitment_differences(&lib_point(&p), &vec![lib_point(&q), lib_point(&p)]);
    assert_eq!(r.len(), 2);
    assert_eq!(
        r[0].bytes,
        (&Scalar::from(5u64) * RISTRETTO_BASEPOINT_TABLE).compress().to_bytes()
    );
    assert_eq!(r[1].bytes, [0u8; 32]);
}

#[test]
fn ringct_parse_and_to_blocks_are_inverse() {
    let (_, signature) = signed(1, b"m");
    let sig = RingctSignature::parse(&signature, RING_SIZE).expect("good signature");
    let blocks = sig.to_blocks();
    assert_eq!(blocks.len(), 2 * RING_SIZE + 3);
    let mut bytes = vec![0u8; SIG_LEN];
    write_blocks(&mut bytes, &blocks);
    assert_eq!(bytes, signature);
    let mut changed = signature;
    changed[0..32].copy_from_slice(&[0xffu8; 32]);
    assert!(RingctSignature::parse(&changed, RING_SIZE).is_none());
}

#[test]
fn extractors_copy_for_any_ring_size() {
    let mut signature = vec![1u8; 32 * 7];
    signature[32 * 5..32 * 6].copy_from_slice(&[8u8; 32]);
    signature[32 * 6..32 * 7].copy_from_slice(&[9u8; 32]);
    let mut image = [0u8; 32];
    let mut pseudo = [0u8; 32];
    assert_eq!(blocknet_ringct_key_image(&signature, 2, &mut image), 0);
    assert_eq!(blocknet_ringct_pseudo_output(&signature, 2, &mut pseudo), 0);
    assert_eq!(image, [8u8; 32]);
    assert_eq!(pseudo, [9u8; 32]);
}

#[test]
fn blocks_are_read_and_written_in_order() {
    let mut bytes = vec![7u8; 70];
    write_blocks(&mut bytes, &vec![[1u8; 32], [2u8; 32]]);
    assert_eq!(read_block(&bytes, 0), [1u8; 32]);
    assert_eq!(read_block(&bytes, 1), [2u8; 32]);
    assert_eq!(&bytes[64..], &[7u8; 6][..]);
    assert!(bytes_equal(&[1u8; 32], &read_block(&bytes, 0)));
    assert!(!bytes_equal(&[1u8; 32], &read_block(&bytes, 1)));
}

#[test]
fn members_follow_each_other_around_the_ring() {
    assert_eq!(next_member(0, 1), 0);
    assert_eq!(next_member(3, 16), 4);
    assert_eq!(next_member(15, 16), 0);
}

#[test]
fn points_and_scalars_are_read_or_refused() {
    let mut bytes = vec![0u8; 96];
    assert_eq!(read_points(&bytes, 3).expect("identity").len(), 3);
    assert_eq!(read_scalars(&bytes, 1, 2).expect("zero").len(), 2);
    bytes[32..64].copy_from_slice(&order_bytes());
    assert!(read_scalars(&bytes, 1, 2).is_none());
    assert!(read_scalars(&bytes, 2, 1).is_some());
    bytes[32..64].copy_from_slice(&[0xffu8; 32]);
    assert!(read_points(&bytes, 3).is_none());
    assert!(read_points(&bytes, 1).is_some());
}
