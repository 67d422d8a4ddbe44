//! Points and the floored Euclidean metric between them.

use vstd::prelude::*;

verus! {

/// An immutable point with three non-negative integer coordinates.
#[derive(Debug, Hash, PartialEq, Eq, Clone, Copy, Structural)]
pub struct Point {
    pub x: usize,
    pub y: usize,
    pub z: usize,
}

/// The absolute difference of two coordinates.
pub open spec fn gap(a: usize, b: usize) -> nat {
    if a >= b {
        (a - b) as nat
    } else {
        (b - a) as nat
    }
}

/// The squared Euclidean distance between two points.
pub open spec fn squared_distance(a: Point, b: Point) -> nat {
    gap(a.x, b.x) * gap(a.x, b.x) + gap(a.y, b.y) * gap(a.y, b.y) + gap(a.z, b.z) * gap(a.z, b.z)
}

/// `r` is the square root of `n`, rounded down.
pub open spec fn is_floor_sqrt(r: nat, n: nat) -> bool {
    r * r <= n < (r + 1) * (r + 1)
}

/// The square root of `n`, rounded down.
pub open spec fn floor_sqrt(n: nat) -> nat {
    choose|r: nat| is_floor_sqrt(r, n)
}

/// The squared distance between the two points fits 128 bits, the width in
/// which distances are computed.
pub open spec fn measurable(a: Point, b: Point) -> bool {
    squared_distance(a, b) <= u128::MAX
}

/// The metric: the Euclidean distance between two points, rounded down.
pub open spec fn point_distance(a: Point, b: Point) -> nat {
    floor_sqrt(squared_distance(a, b))
}

/// At most one number is the floored square root of `n`.
pub proof fn lemma_floor_sqrt_unique(r1: nat, r2: nat, n: nat)
    requires
        is_floor_sqrt(r1, n),
        is_floor_sqrt(r2, n),
    ensures
        r1 == r2,
{
    if r1 < r2 {
        assert((r1 + 1) * (r1 + 1) <= r2 * r2) by (nonlinear_arith)
            requires
                r1 + 1 <= r2,
        ;
    } else if r2 < r1 {
        assert((r2 + 1) * (r2 + 1) <= r1 * r1) by (nonlinear_arith)
            requires
                r2 + 1 <= r1,
        ;
    }
}

/// A number that satisfies the defining inequalities is the floored root.
pub proof fn lemma_floor_sqrt_is(r: nat, n: nat)
    requires
        is_floor_sqrt(r, n),
    ensures
        floor_sqrt(n) == r,
{
    lemma_floor_sqrt_unique(floor_sqrt(n), r, n);
}

/// The squared distance is symmetric, and zero from a point to itself.
pub proof fn lemma_squared_distance_bounds(a: Point, b: Point)
    ensures
        squared_distance(a, b) == squared_distance(b, a),
        a == b ==> squared_distance(a, b) == 0,
{
    if a == b {
        assert(0 * 0 == 0) by (nonlinear_arith);
    }
}

/// Computes the floored square root of `n` by bisection.
pub fn isqrt(n: u128) -> (r: u64)
    ensures
        is_floor_sqrt(r as nat, n as nat),
        r as nat == floor_sqrt(n as nat),
{
    let mut lo: u128 = 0;
    let mut hi: u128 = 0x1_0000_0000_0000_0000;
    assert(hi * hi > n) by (nonlinear_arith)
        requires
            hi == 0x1_0000_0000_0000_0000,
            n <= 0xffff_ffff_ffff_ffff_ffff_ffff_ffff_ffff,
    ;
    while hi - lo > 1
        invariant
            lo < hi <= 0x1_0000_0000_0000_0000,
            lo * lo <= n < hi * hi,
        decreases hi - lo,
    {
        let mid: u128 = lo + (hi - lo) / 2;
        assert(mid * mid <= 0xffff_ffff_ffff_ffff * 0xffff_ffff_ffff_ffff) by (nonlinear_arith)
            requires
                mid <= 0xffff_ffff_ffff_ffff,
        ;
        if mid * mid <= n {
            lo = mid;
        } else {
            hi = mid;
        }
    }
    proof {
        lemma_floor_sqrt_is(lo as nat, n as nat);
    }
    lo as u64
}

fn coordinate_gap(a: usize, b: usize) -> (d: usize)
    ensures
        d == gap(a, b),
{
    if a >= b {
        a - b
    } else {
        b - a
    }
}

impl Point {
    /// Builds a point from its coordinates.
    pub fn new(x: usize, y: usize, z: usize) -> (p: Point)
        ensures
            p == (Point { x, y, z }),
    {
        Point { x, y, z }
    }

    /// The Euclidean distance to `other`, rounded down, in exact integer
    /// arithmetic of 128 bits. `None` where the squared distance does not
    /// fit that width.
    pub fn distance(&self, other: &Point) -> (d: Option<u64>)
        ensures
            match d {
                Some(d) => {
                    &&& measurable(*self, *other)
                    &&& is_floor_sqrt(d as nat, squared_distance(*self, *other))
                    &&& d as nat == point_distance(*self, *other)
                },
                None => !measurable(*self, *other),
            },
    {
        let dx: u128 = coordinate_gap(self.x, other.x) as u128;
        let dy: u128 = coordinate_gap(self.y, other.y) as u128;
        let dz: u128 = coordinate_gap(self.z, other.z) as u128;
        proof {
            assert(dx * dx <= 0xffff_ffff_ffff_ffff * 0xffff_ffff_ffff_ffff) by (nonlinear_arith)
                requires
                    dx <= 0xffff_ffff_ffff_ffff,
            ;
            assert(dy * dy <= 0xffff_ffff_ffff_ffff * 0xffff_ffff_ffff_ffff) by (nonlinear_arith)
                requires
                    dy <= 0xffff_ffff_ffff_ffff,
            ;
            assert(dz * dz <= 0xffff_ffff_ffff_ffff * 0xffff_ffff_ffff_ffff) by (nonlinear_arith)
                requires
                    dz <= 0xffff_ffff_ffff_ffff,
            ;
        }
        match (dx * dx).checked_add(dy * dy) {
            Some(flat) => match flat.checked_add(dz * dz) {
                Some(sum) => Some(isqrt(sum)),
                None => None,
            },
            None => None,
        }
    }
}

/// The metric is symmetric, and a point is at distance zero from itself.
pub proof fn lemma_distance_symmetric(a: Point, b: Point)
    ensures
        point_distance(a, b) == point_distance(b, a),
        point_distance(a, a) == 0,
{
    lemma_squared_distance_bounds(a, b);
    lemma_squared_distance_bounds(a, a);
    assert(is_floor_sqrt(0, 0)) by (nonlinear_arith);
    lemma_floor_sqrt_is(0, 0);
}

} // verus!
