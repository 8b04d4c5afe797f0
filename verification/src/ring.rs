//! Rings: their size, walking around them, and reading them from bytes.

use vstd::prelude::*;

use crate::bytes::{block, le_nat, read_block};
use crate::group::{
    discrete_log, is_point, order, point_decompress, scalar_from_canonical, scalar_random, Draws,
    Point, Scalar,
};

verus! {

/// The number of members of every ring.
pub const RING_SIZE: usize = 16;

/// The member that stands `k` places after member `start` in a ring of `n`.
pub open spec fn around(start: int, k: int, n: int) -> int {
    if start + k < n {
        start + k
    } else {
        start + k - n
    }
}

/// The place, counted from the signer `pi`, of the challenge of member `i`.
pub open spec fn place(pi: int, i: int, n: int) -> nat {
    if i <= pi {
        (i + n - 1 - pi) as nat
    } else {
        (i - pi - 1) as nat
    }
}

/// The member that follows member `i` in a ring of `n`.
pub fn next_member(i: usize, n: usize) -> (r: usize)
    requires
        i < n,
    ensures
        r == around(i as int, 1, n as int),
        r < n,
{
    if i + 1 < n {
        i + 1
    } else {
        0
    }
}

/// Each of the first `n` blocks of `b` encodes a group element.
pub open spec fn are_points(b: Seq<u8>, n: nat) -> bool {
    forall|i: int| 0 <= i < n ==> is_point(#[trigger] block(b, i))
}

/// The discrete logarithms of the group elements in the first `n` blocks of `b`.
pub open spec fn point_logs(b: Seq<u8>, n: nat) -> Seq<nat> {
    Seq::new(n, |i: int| discrete_log(block(b, i)))
}

/// Each of the `n` blocks of `b` from block `start` on is a canonical scalar.
pub open spec fn are_scalars(b: Seq<u8>, start: int, n: nat) -> bool {
    forall|i: int| start <= i < start + n ==> le_nat(#[trigger] block(b, i)) < order()
}

/// The scalars in the `n` blocks of `b` from block `start` on.
pub open spec fn scalar_values(b: Seq<u8>, start: int, n: nat) -> Seq<nat> {
    Seq::new(n, |i: int| le_nat(block(b, start + i)))
}

/// The discrete logarithms of a sequence of points.
pub open spec fn logs_of(points: Seq<Point>) -> Seq<nat> {
    Seq::new(points.len(), |i: int| points[i]@)
}

/// The values of a sequence of scalars.
pub open spec fn values_of(scalars: Seq<Scalar>) -> Seq<nat> {
    Seq::new(scalars.len(), |i: int| scalars[i]@)
}

/// The values of the `n` scalars from place `start` on.
pub open spec fn values_from(scalars: Seq<Scalar>, start: int, n: nat) -> Seq<nat> {
    Seq::new(n, |i: int| scalars[start + i]@)
}

/// Every point of the sequence is well formed.
pub open spec fn points_wf(points: Seq<Point>) -> bool {
    forall|i: int| 0 <= i < points.len() ==> (#[trigger] points[i]).wf()
}

/// Every scalar of the sequence is reduced.
pub open spec fn scalars_wf(scalars: Seq<Scalar>) -> bool {
    forall|i: int| 0 <= i < scalars.len() ==> (#[trigger] scalars[i]).wf()
}

/// Reads `n` points from the front of `b`, or nothing if one of them is not the
/// encoding of a group element.
pub fn read_points(b: &[u8], n: usize) -> (r: Option<Vec<Point>>)
    requires
        32 * n <= b@.len(),
    ensures
        r is Some <==> are_points(b@, n as nat),
        r matches Some(points) ==> {
            &&& points_wf(points@)
            &&& points@.len() == n
            &&& logs_of(points@) == point_logs(b@, n as nat)
            &&& forall|i: int| 0 <= i < n ==> (#[trigger] points@[i]).bytes@ == block(b@, i)
        },
{
    let mut points: Vec<Point> = Vec::new();
    for i in 0..n
        invariant
            32 * n <= b@.len(),
            points@.len() == i,
            forall|j: int|
                0 <= j < i ==> (#[trigger] points@[j]).wf() && points@[j].bytes@ == block(b@, j),
    {
        let bytes: [u8; 32] = read_block(b, i);
        match point_decompress(&bytes) {
            Some(p) => points.push(p),
            None => {
                assert(!is_point(block(b@, i as int)));
                return None;
            },
        }
    }
    proof {
        assert forall|i: int| 0 <= i < n implies is_point(#[trigger] block(b@, i)) by {
            assert(points@[i].wf());
        }
        assert(logs_of(points@) =~= point_logs(b@, n as nat));
    }
    Some(points)
}

/// Reads `n` scalars from `b`, from block `start` on, or nothing if one of them
/// is not canonical.
pub fn read_scalars(b: &[u8], start: usize, n: usize) -> (r: Option<Vec<Scalar>>)
    requires
        32 * (start + n) <= b@.len(),
    ensures
        r is Some <==> are_scalars(b@, start as int, n as nat),
        r matches Some(scalars) ==> {
            &&& scalars_wf(scalars@)
            &&& scalars@.len() == n
            &&& values_of(scalars@) == scalar_values(b@, start as int, n as nat)
        },
{
    let mut scalars: Vec<Scalar> = Vec::new();
    assert(b@.len() == b.len());
    for i in 0..n
        invariant
            32 * (start + n) <= b.len(),
            scalars@.len() == i,
            forall|j: int|
                0 <= j < i ==> (#[trigger] scalars@[j]).wf() && scalars@[j].bytes@ == block(
                    b@,
                    start + j,
                ),
    {
        let bytes: [u8; 32] = read_block(b, start + i);
        match scalar_from_canonical(&bytes) {
            Some(s) => scalars.push(s),
            None => {
                assert(!(le_nat(block(b@, start + i)) < order()));
                return None;
            },
        }
    }
    proof {
        assert forall|i: int| start <= i < start + n implies le_nat(#[trigger] block(b@, i))
            < order() by {
            assert(scalars@[i - start].wf());
        }
        assert(values_of(scalars@) =~= scalar_values(b@, start as int, n as nat));
    }
    Some(scalars)
}

/// Draws `n` random scalars: the record of `n` draws.
pub fn random_scalars(n: usize) -> (r: Draws)
    ensures
        r@.len() == n,
        scalars_wf(r@),
{
    let mut draws: Draws = Draws::new();
    for i in 0..n
        invariant
            draws@.len() == i,
            scalars_wf(draws@),
    {
        scalar_random(&mut draws);
    }
    draws
}

/// The scalars of the `n` draws from draw `start` on.
pub fn drawn(draws: &Draws, start: usize, n: usize) -> (r: Vec<Scalar>)
    requires
        start + n <= draws@.len(),
        draws@.len() <= usize::MAX,
    ensures
        r@ == draws@.subrange(start as int, start + n),
{
    let mut r: Vec<Scalar> = Vec::new();
    for i in 0..n
        invariant
            start + n <= draws@.len(),
            draws@.len() <= usize::MAX,
            r@ == draws@.subrange(start as int, start + i),
    {
        r.push(draws.get(start + i));
    }
    r
}

} // verus!
