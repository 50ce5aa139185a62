use vstd::prelude::*;

use crate::graph::{in_bounds, Coord};

verus! {

/// The integer square root, rounded down.
pub open spec fn sqrt_floor(n: nat) -> nat
    decreases n,
{
    if n == 0 {
        0
    } else {
        let r = sqrt_floor((n - 1) as nat);
        if (r + 1) * (r + 1) <= n {
            r + 1
        } else {
            r
        }
    }
}

pub proof fn lemma_sqrt_floor(n: nat)
    ensures
        sqrt_floor(n) * sqrt_floor(n) <= n,
        n < (sqrt_floor(n) + 1) * (sqrt_floor(n) + 1),
    decreases n,
{
    let s = sqrt_floor(n);
    if n == 0 {
        assert(s == 0);
        assert(s * s <= n && n < (s + 1) * (s + 1)) by (nonlinear_arith)
            requires
                s == 0,
                n == 0,
        ;
    } else {
        lemma_sqrt_floor((n - 1) as nat);
        let r = sqrt_floor((n - 1) as nat);
        assert(r * r <= n - 1);
        assert(n - 1 < (r + 1) * (r + 1));
        if (r + 1) * (r + 1) <= n {
            assert(sqrt_floor(n) == r + 1);
            assert(n == (r + 1) * (r + 1));
            assert((r + 1) * (r + 1) < (r + 2) * (r + 2)) by (nonlinear_arith)
                requires
                    r >= 0,
            ;
        } else {
            assert(sqrt_floor(n) == r);
        }
    }
}

pub proof fn lemma_sqrt_floor_unique(n: nat, r: nat)
    requires
        r * r <= n,
        n < (r + 1) * (r + 1),
    ensures
        r == sqrt_floor(n),
{
    lemma_sqrt_floor(n);
    let s = sqrt_floor(n);
    assert(r == s) by (nonlinear_arith)
        requires
            r * r <= n,
            n < (r + 1) * (r + 1),
            s * s <= n,
            n < (s + 1) * (s + 1),
            r >= 0,
            s >= 0,
    ;
}

/// The integer square root of `n`, computed by bisection.
pub fn isqrt(n: u64) -> (r: u64)
    requires
        n <= 8_000_000_000_000_000_000,
    ensures
        r == sqrt_floor(n as nat),
{
    let mut lo: u64 = 0;
    let mut hi: u64 = 3_000_000_000;
    proof {
        assert((lo as int) * (lo as int) <= n as int && (n as int) < (hi as int) * (hi as int))
            by (nonlinear_arith)
            requires
                lo == 0,
                hi == 3_000_000_000,
                0 <= n <= 8_000_000_000_000_000_000,
        ;
    }
    while lo + 1 < hi
        invariant
            lo < hi <= 3_000_000_000,
            (lo as int) * (lo as int) <= n as int,
            (n as int) < (hi as int) * (hi as int),
        decreases hi - lo,
    {
        let mid = lo + (hi - lo) / 2;
        if mid <= n / mid {
            // mid * mid <= n, avoiding any overflow: mid <= n / mid
            proof {
                assert((mid as int) * (mid as int) <= n as int) by (nonlinear_arith)
                    requires
                        mid as int <= (n as int) / (mid as int),
                        mid > 0,
                        n >= 0,
                ;
            }
            lo = mid;
        } else {
            proof {
                assert((n as int) < (mid as int) * (mid as int)) by (nonlinear_arith)
                    requires
                        mid as int > (n as int) / (mid as int),
                        mid > 0,
                        n >= 0,
                ;
            }
            hi = mid;
        }
    }
    proof {
        lemma_sqrt_floor_unique(n as nat, lo as nat);
    }
    lo
}

/// The straight-line distance between two points, rounded down to an
/// integer number of planar units.
pub open spec fn spec_dist(a: Coord, b: Coord) -> nat {
    sqrt_floor(((b.x - a.x) * (b.x - a.x) + (b.y - a.y) * (b.y - a.y)) as nat)
}

pub fn dist(a: Coord, b: Coord) -> (r: u64)
    requires
        in_bounds(a),
        in_bounds(b),
    ensures
        r == spec_dist(a, b),
        r <= 3_000_000_000,
{
    let dx: i64 = b.x - a.x;
    let dy: i64 = b.y - a.y;
    proof {
        assert(dx * dx <= 4_000_000_000_000_000_000 && dx * dx >= 0) by (nonlinear_arith)
            requires
                -2_000_000_000 <= dx <= 2_000_000_000,
        ;
        assert(dy * dy <= 4_000_000_000_000_000_000 && dy * dy >= 0) by (nonlinear_arith)
            requires
                -2_000_000_000 <= dy <= 2_000_000_000,
        ;
    }
    let sq: i64 = dx * dx + dy * dy;
    let r = isqrt(sq as u64);
    proof {
        lemma_sqrt_floor(sq as nat);
        assert(r as int * (r as int) <= 8_000_000_000_000_000_000);
        if r > 3_000_000_000 {
            assert(r as int * (r as int) > 8_000_000_000_000_000_000) by (nonlinear_arith)
                requires
                    r as int > 3_000_000_000,
            ;
        }
    }
    r
}

/// The length of a polyline: the sum of its segment distances, starting at
/// vertex `i`.
pub open spec fn path_len_from(pts: Seq<Coord>, i: int) -> nat
    decreases pts.len() - i,
{
    if i < 0 || i + 1 >= pts.len() {
        0
    } else {
        spec_dist(pts[i], pts[i + 1]) + path_len_from(pts, i + 1)
    }
}

pub open spec fn path_len(pts: Seq<Coord>) -> nat {
    path_len_from(pts, 0)
}

/// Sums a polyline's segment lengths. The accumulator is wide enough that
/// no overflow is possible.
pub fn linestring_len(pts: &Vec<Coord>) -> (total: u128)
    requires
        forall|p: int| 0 <= p < pts@.len() ==> in_bounds(#[trigger] pts@[p]),
    ensures
        total == path_len(pts@),
{
    let n = pts.len();
    let mut total: u128 = 0;
    if n == 0 {
        return 0;
    }
    let mut i: usize = 0;
    while i + 1 < n
        invariant
            n == pts@.len(),
            n >= 1,
            i < n,
            forall|p: int| 0 <= p < pts@.len() ==> in_bounds(#[trigger] pts@[p]),
            total <= (i as int) * 3_000_000_000,
            path_len(pts@) == total + path_len_from(pts@, i as int),
        decreases n - i,
    {
        let d = dist(pts[i], pts[i + 1]);
        proof {
            assert(total + d <= (i as int + 1) * 3_000_000_000) by (nonlinear_arith)
                requires
                    total <= (i as int) * 3_000_000_000,
                    d <= 3_000_000_000,
                    i >= 0,
            ;
        }
        total = total + d as u128;
        i += 1;
    }
    total
}

} // verus!
