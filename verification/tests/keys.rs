use blocknet_crypto::hash::{
    challenge_hash, hash_to_point, hash_to_scalar, ringct_challenge_hash,
};
use blocknet_crypto::group::Point;
use blocknet_crypto::keys::{
    blocknet_key_image, blocknet_ristretto_keygen, blocknet_ristretto_keygen_from_seed,
    blocknet_ristretto_pubkey_is_valid,
};
use curve25519_dalek::constants::{RISTRETTO_BASEPOINT_COMPRESSED, RISTRETTO_BASEPOINT_TABLE};
use curve25519_dalek::ristretto::RistrettoPoint;
use curve25519_dalek::scalar::Scalar;
use sha2::{Digest, Sha512};

fn generate_keypair() -> (Scalar, RistrettoPoint) {
    let privkey = Scalar::random(&mut rand::thread_rng());
    let pubkey = &privkey * RISTRETTO_BASEPOINT_TABLE;
    (privkey, pubkey)
}

fn half(pair: &[u8; 64], i: usize) -> [u8; 32] {
    pair[32 * i..32 * i + 32].try_into().expect("half")
}

#[test]
fn test_key_image() {
    let (privkey, _pubkey) = generate_keypair();
    let mut key_image = [0u8; 32];

    let result = blocknet_key_image(privkey.as_bytes(), &mut key_image);
    assert_eq!(result, 0);
    assert_ne!(key_image, [0u8; 32]);

    let mut key_image2 = [0u8; 32];
    blocknet_key_image(privkey.as_bytes(), &mut key_image2);
    assert_eq!(key_image, key_image2);
}

#[test]
fn key_image_is_the_hashed_key_times_the_private_key() {
    let x = Scalar::from(42u64);
    let p = &x * RISTRETTO_BASEPOINT_TABLE;
    let mut hasher = Sha512::new();
    hasher.update(b"blocknet_hash_to_point");
    hasher.update(p.compress().as_bytes());
    let hp = RistrettoPoint::from_uniform_bytes(&hasher.finalize().into());
    let mut key_image = [0u8; 32];
    assert_eq!(blocknet_key_image(x.as_bytes(), &mut key_image), 0);
    assert_eq!(key_image, (x * hp).compress().to_bytes());
}

#[test]
fn key_image_of_zero_is_the_identity() {
    let mut key_image = [7u8; 32];
    assert_eq!(blocknet_key_image(&[0u8; 32], &mut key_image), 0);
    assert_eq!(key_image, [0u8; 32]);
}

#[test]
fn key_image_refuses_a_key_that_is_not_canonical() {
    let largest = (-Scalar::ONE).to_bytes();
    let mut order = largest;
    order[0] += 1;
    let mut key_image = [7u8; 32];
    assert_eq!(blocknet_key_image(&order, &mut key_image), -1);
    assert_eq!(blocknet_key_image(&[0xffu8; 32], &mut key_image), -1);
    assert_eq!(key_image, [7u8; 32]);
    assert_eq!(blocknet_key_image(&largest, &mut key_image), 0);
    assert_ne!(key_image, [7u8; 32]);
}

#[test]
fn keygen_gives_a_private_key_and_its_public_key() {
    let mut pair = [0u8; 64];
    assert_eq!(blocknet_ristretto_keygen(&mut pair), 0);
    let x = Scalar::from_canonical_bytes(half(&pair, 0)).into_option().expect("canonical");
    assert_eq!(half(&pair, 1), (&x * RISTRETTO_BASEPOINT_TABLE).compress().to_bytes());
    assert_eq!(blocknet_ristretto_pubkey_is_valid(&half(&pair, 1)), 1);
    let mut key_image = [0u8; 32];
    assert_eq!(blocknet_key_image(&half(&pair, 0), &mut key_image), 0);
}

#[test]
fn keygen_draws_new_keys() {
    let mut first = [0u8; 64];
    let mut second = [0u8; 64];
    blocknet_ristretto_keygen(&mut first);
    blocknet_ristretto_keygen(&mut second);
    assert_ne!(first, second);
}

#[test]
fn keygen_from_seed_is_the_hashed_seed() {
    let seed = [3u8; 32];
    let mut pair = [0u8; 64];
    assert_eq!(blocknet_ristretto_keygen_from_seed(&seed, &mut pair), 0);
    let mut hasher = Sha512::new();
    hasher.update(b"blocknet_keygen");
    hasher.update(seed);
    let x = Scalar::from_bytes_mod_order_wide(&hasher.finalize().into());
    assert_eq!(half(&pair, 0), x.to_bytes());
    assert_eq!(half(&pair, 1), (&x * RISTRETTO_BASEPOINT_TABLE).compress().to_bytes());
}

#[test]
fn keygen_from_seed_depends_on_the_seed_alone() {
    let mut first = [0u8; 64];
    let mut again = [1u8; 64];
    let mut other = [0u8; 64];
    blocknet_ristretto_keygen_from_seed(&[3u8; 32], &mut first);
    blocknet_ristretto_keygen_from_seed(&[3u8; 32], &mut again);
    blocknet_ristretto_keygen_from_seed(&[4u8; 32], &mut other);
    assert_eq!(first, again);
    assert_ne!(first, other);
}

#[test]
fn pubkey_validity() {
    let (_, pubkey) = generate_keypair();
    assert_eq!(blocknet_ristretto_pubkey_is_valid(pubkey.compress().as_bytes()), 1);
    assert_eq!(blocknet_ristretto_pubkey_is_valid(RISTRETTO_BASEPOINT_COMPRESSED.as_bytes()), 1);
    assert_eq!(blocknet_ristretto_pubkey_is_valid(&[0u8; 32]), 1);
    assert_eq!(blocknet_ristretto_pubkey_is_valid(&[0xffu8; 32]), 0);
    let mut one = [0u8; 32];
    one[0] = 1;
    assert_eq!(blocknet_ristretto_pubkey_is_valid(&one), 0);
    let mut negative = *RISTRETTO_BASEPOINT_COMPRESSED.as_bytes();
    negative[0] ^= 1;
    assert_eq!(blocknet_ristretto_pubkey_is_valid(&negative), 0);
}

#[test]
fn pubkey_validity_is_that_of_decompression() {
    for i in 0..=255u8 {
        let mut bytes = [i; 32];
        bytes[0] &= 0xfe;
        bytes[31] &= 0x7f;
        let expected = curve25519_dalek::ristretto::CompressedRistretto(bytes)
            .decompress()
            .is_some() as i32;
        assert_eq!(blocknet_ristretto_pubkey_is_valid(&bytes), expected);
    }
}

#[test]
fn hashes_have_their_own_tags() {
    let point = Point { bytes: *RISTRETTO_BASEPOINT_COMPRESSED.as_bytes() };

    let digest: [u8; 64] = Sha512::digest(b"data").into();
    assert_eq!(
        hash_to_scalar(b"data").bytes,
        Scalar::from_bytes_mod_order_wide(&digest).to_bytes()
    );

    let digest: [u8; 64] = Sha512::digest(b"blocknet_hash_to_pointdata").into();
    assert_eq!(
        hash_to_point(b"data").bytes,
        RistrettoPoint::from_uniform_bytes(&digest).compress().to_bytes()
    );

    let mut input = b"blocknet_clsag_cdata".to_vec();
    input.extend_from_slice(&point.bytes);
    input.extend_from_slice(&point.bytes);
    let digest: [u8; 64] = Sha512::digest(&input).into();
    assert_eq!(
        challenge_hash(b"data", &point, &point).bytes,
        Scalar::from_bytes_mod_order_wide(&digest).to_bytes()
    );

    let mut input = b"blocknet_ringct_cdata".to_vec();
    input.extend_from_slice(&point.bytes);
    input.extend_from_slice(&point.bytes);
    input.extend_from_slice(&point.bytes);
    let digest: [u8; 64] = Sha512::digest(&input).into();
    assert_eq!(
        ringct_challenge_hash(b"data", &point, &point, &point).bytes,
        Scalar::from_bytes_mod_order_wide(&digest).to_bytes()
    );
}

#[test]
fn sha512_of_the_empty_string() {
    let expected: [u8; 64] = [
        0xcf, 0x83, 0xe1, 0x35, 0x7e, 0xef, 0xb8, 0xbd, 0xf1, 0x54, 0x28, 0x50, 0xd6, 0x6d, 0x80,
        0x07, 0xd6, 0x20, 0xe4, 0x05, 0x0b, 0x57, 0x15, 0xdc, 0x83, 0xf4, 0xa9, 0x21, 0xd3, 0x6c,
        0xe9, 0xce, 0x47, 0xd0, 0xd1, 0x3c, 0x5d, 0x85, 0xf2, 0xb0, 0xff, 0x83, 0x18, 0xd2, 0x87,
        0x7e, 0xec, 0x2f, 0x63, 0xb9, 0x31, 0xbd, 0x47, 0x41, 0x7a, 0x81, 0xa5, 0x38, 0x32, 0x7a,
        0xf9, 0x27, 0xda, 0x3e,
    ];
    assert_eq!(
        hash_to_scalar(b"").bytes,
        Scalar::from_bytes_mod_order_wide(&expected).to_bytes()
    );
}
