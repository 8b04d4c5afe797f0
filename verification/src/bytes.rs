//! Little-endian integers and byte strings made of 32-byte blocks.

use vstd::prelude::*;

verus! {

/// The integer that `b` encodes, least significant byte first.
pub open spec fn le_nat(b: Seq<u8>) -> nat
    decreases b.len(),
{
    if b.len() == 0 {
        0
    } else {
        b[0] as nat + 256 * le_nat(b.drop_first())
    }
}

/// The `len` low bytes of `n`, least significant byte first.
pub open spec fn le_bytes(n: nat, len: nat) -> Seq<u8>
    decreases len,
{
    if len == 0 {
        Seq::empty()
    } else {
        seq![(n % 256) as u8] + le_bytes(n / 256, (len - 1) as nat)
    }
}

/// Encoding the integer that a byte string encodes gives the byte string back.
pub proof fn lemma_le_bytes_of_le_nat(b: Seq<u8>)
    ensures
        le_bytes(le_nat(b), b.len()) == b,
    decreases b.len(),
{
    if b.len() > 0 {
        let rest = le_nat(b.drop_first());
        lemma_le_bytes_of_le_nat(b.drop_first());
        assert((b[0] as nat + 256 * rest) / 256 == rest);
        assert((b[0] as nat + 256 * rest) % 256 == b[0] as nat);
        assert(seq![b[0]] + b.drop_first() =~= b);
    }
}

/// What an integer must be below to fit in `len` bytes.
pub open spec fn le_bound(len: nat) -> nat
    decreases len,
{
    if len == 0 {
        1
    } else {
        256 * le_bound((len - 1) as nat)
    }
}

/// An integer that fits is read back from its encoding, which has the length it
/// was asked for.
pub proof fn lemma_le_nat_of_le_bytes(n: nat, len: nat)
    requires
        n < le_bound(len),
    ensures
        le_bytes(n, len).len() == len,
        le_nat(le_bytes(n, len)) == n,
    decreases len,
{
    if len > 0 {
        let rest = le_bytes(n / 256, (len - 1) as nat);
        lemma_le_nat_of_le_bytes(n / 256, (len - 1) as nat);
        assert(le_bytes(n, len).drop_first() =~= rest);
    }
}

/// The `i`-th 32-byte block of `b`.
pub open spec fn block(b: Seq<u8>, i: int) -> Seq<u8> {
    b.subrange(32 * i, 32 * i + 32)
}

/// The concatenation of a sequence of 32-byte blocks.
pub open spec fn concat_blocks(blocks: Seq<Seq<u8>>) -> Seq<u8> {
    Seq::new(32 * blocks.len(), |k: int| blocks[k / 32][k % 32])
}

/// The blocks of a concatenation are the blocks that were concatenated,
/// whatever bytes follow them.
pub proof fn lemma_block_of_concat(blocks: Seq<Seq<u8>>, tail: Seq<u8>, i: int)
    requires
        0 <= i < blocks.len(),
        blocks[i].len() == 32,
    ensures
        block(concat_blocks(blocks) + tail, i) == blocks[i],
{
    assert forall|j: int| 0 <= j < 32 implies #[trigger] block(
        concat_blocks(blocks) + tail,
        i,
    )[j] == blocks[i][j] by {
        assert((32 * i + j) / 32 == i);
        assert((32 * i + j) % 32 == j);
    }
    assert(block(concat_blocks(blocks) + tail, i) =~= blocks[i]);
}

/// A byte string of `n` blocks is the concatenation of its blocks.
pub proof fn lemma_concat_of_blocks(b: Seq<u8>, n: nat)
    requires
        b.len() == 32 * n,
    ensures
        concat_blocks(Seq::new(n, |i: int| block(b, i))) == b,
{
    let blocks = Seq::new(n, |i: int| block(b, i));
    assert forall|k: int| 0 <= k < b.len() implies #[trigger] concat_blocks(blocks)[k]
        == b[k] by {
        assert(0 <= k / 32 < n);
        assert(32 * (k / 32) + k % 32 == k);
    }
    assert(concat_blocks(blocks) =~= b);
}

/// Copies the `i`-th 32-byte block out of `b`.
pub fn read_block(b: &[u8], i: usize) -> (r: [u8; 32])
    requires
        32 * i + 32 <= b@.len(),
    ensures
        r@ == block(b@, i as int),
{
    let mut r: [u8; 32] = [0u8; 32];
    assert(b@.len() == b.len());
    let start: usize = 32 * i;
    for k in 0..32usize
        invariant
            start == 32 * i,
            start + 32 <= b.len(),
            forall|j: int| 0 <= j < k ==> r@[j] == b@[start + j],
    {
        r[k] = b[start + k];
    }
    assert(r@ =~= block(b@, i as int));
    r
}

/// Overwrites the front of `out` with the given blocks, in order.
pub fn write_blocks(out: &mut [u8], blocks: &Vec<[u8; 32]>)
    requires
        32 * blocks@.len() <= old(out)@.len(),
    ensures
        final(out)@ == concat_blocks(blocks@.map_values(|x: [u8; 32]| x@)) + old(out)@.skip(
            32 * blocks@.len() as int,
        ),
{
    let ghost seqs = blocks@.map_values(|x: [u8; 32]| x@);
    let ghost before = out@;
    let n: usize = blocks.len();
    for i in 0..n
        invariant
            n == blocks@.len(),
            seqs == blocks@.map_values(|x: [u8; 32]| x@),
            32 * n <= before.len() == out.len(),
            forall|k: int|
                0 <= k < before.len() ==> #[trigger] out@[k] == if k < 32 * i {
                    concat_blocks(seqs)[k]
                } else {
                    before[k]
                },
    {
        let start: usize = 32 * i;
        for j in 0..32usize
            invariant
                i < n,
                n == blocks@.len(),
                start == 32 * i,
                seqs == blocks@.map_values(|x: [u8; 32]| x@),
                32 * n <= before.len() == out.len(),
                forall|k: int|
                    0 <= k < before.len() ==> #[trigger] out@[k] == if k < start + j {
                        concat_blocks(seqs)[k]
                    } else {
                        before[k]
                    },
        {
            proof {
                assert((start + j) / 32 == i);
                assert((start + j) % 32 == j);
                assert(concat_blocks(seqs)[start + j] == blocks@[i as int]@[j as int]);
            }
            out[start + j] = blocks[i][j];
        }
    }
    assert(out@ =~= concat_blocks(seqs) + before.skip(32 * n as int));
}

/// Whether two 32-byte strings are the same.
pub fn bytes_equal(a: &[u8; 32], b: &[u8; 32]) -> (r: bool)
    ensures
        r == (a@ == b@),
{
    for k in 0..32usize
        invariant
            forall|j: int| 0 <= j < k ==> a@[j] == b@[j],
    {
        if a[k] != b[k] {
            return false;
        }
    }
    assert(a@ =~= b@);
    true
}

} // verus!
