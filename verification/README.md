# blocknet_crypto

CLSAG ring signatures over the Ristretto group, with commitment linking for
confidential transactions (RingCT), written and proved in Verus.

- Anonymity: a signature does not say which ring member signed.
- Linkability: a signature carries the signer's key image, which depends on the
  private key alone.
- Unforgeability: signing takes the private key of a ring member.
- Commitment linking: a RingCT signature shows that the pseudo-output holds the
  amount of the signer's commitment.

Every ring has 16 members. Keys, commitments and scalars have 32 bytes each. A
CLSAG signature is `c_0 || s_0 .. s_15 || key_image`, a RingCT signature
`c_0 || s_0 .. s_15 || t_0 .. t_15 || key_image || pseudo_output`.

## Layout

| Module | |
| --- | --- |
| `bytes` | little-endian integers, byte strings made of 32-byte blocks |
| `group` | scalars and points, by `curve25519_dalek` and `bulletproofs` |
| `hash` | SHA-512 under a domain tag for each use, by `sha2` |
| `prime` | a proof that the group order is prime |
| `modular` | arithmetic modulo the group order |
| `keys` | key pairs, key validity, key images |
| `ring` | walking around a ring, reading one from bytes |
| `clsag` | CLSAG signatures and their laws |
| `ringct` | RingCT signatures |
| `ringct_laws` | the laws of RingCT signatures |

The contracts speak of a group element by its discrete logarithm to the
basepoint, so that the group law is arithmetic modulo the group order. What the
outside crates compute is taken on trust, in the functions marked
`external_body` in `group` and `hash`. The public proof functions named `law_..`
state what holds of the library as a whole.

`app/` holds the C interface: null checks, and pointers turned into slices.
