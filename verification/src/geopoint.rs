//! Points of the graph and the integer Euclidean distance metric.

use vstd::prelude::*;

verus! {

/// Mathematical square.
pub open spec fn sq(x: int) -> int {
    x * x
}

/// Floor of the square root of `n` (0 for negative `n`), defined by
/// walking up through the perfect squares.
pub open spec fn spec_isqrt(n: int) -> int
    decreases n,
{
    if n <= 0 {
        0
    } else {
        let r = spec_isqrt(n - 1);
        if sq(r + 1) <= n {
            r + 1
        } else {
            r
        }
    }
}

pub proof fn lemma_isqrt_bounds(n: int)
    requires
        n >= 0,
    ensures
        spec_isqrt(n) >= 0,
        sq(spec_isqrt(n)) <= n,
        n < sq(spec_isqrt(n) + 1),
    decreases n,
{
    if n > 0 {
        lemma_isqrt_bounds(n - 1);
        let r = spec_isqrt(n - 1);
        if sq(r + 1) <= n {
            assert((r + 1) * (r + 1) < (r + 2) * (r + 2)) by (nonlinear_arith)
                requires
                    r >= 0,
            ;
        }
    }
}

/// The floor square root is the unique `r` with `r^2 <= n < (r+1)^2`.
pub proof fn lemma_isqrt_unique(n: int, r: int)
    requires
        n >= 0,
        r >= 0,
        sq(r) <= n,
        n < sq(r + 1),
    ensures
        r == spec_isqrt(n),
{
    lemma_isqrt_bounds(n);
    let q = spec_isqrt(n);
    if r < q {
        assert((r + 1) * (r + 1) <= q * q) by (nonlinear_arith)
            requires
                0 <= r + 1,
                r + 1 <= q,
        ;
    }
    if q < r {
        assert((q + 1) * (q + 1) <= r * r) by (nonlinear_arith)
            requires
                0 <= q + 1,
                q + 1 <= r,
        ;
    }
}

/// If `n` is at least `m^2`, its floor square root is at least `m`.
proof fn lemma_isqrt_ge(n: int, m: int)
    requires
        m >= 0,
        sq(m) <= n,
    ensures
        spec_isqrt(n) >= m,
{
    lemma_isqrt_bounds(n);
    let q = spec_isqrt(n);
    if q < m {
        assert((q + 1) * (q + 1) <= m * m) by (nonlinear_arith)
            requires
                0 <= q + 1,
                q + 1 <= m,
        ;
    }
}

/// The distance between coordinates `(ax, ay)` and `(bx, by)`: the floor of
/// the Euclidean distance, clamped to the largest representable value.
pub open spec fn spec_dist(ax: int, ay: int, bx: int, by: int) -> int {
    let d = sq(ax - bx) + sq(ay - by);
    if spec_isqrt(d) > usize::MAX as int {
        usize::MAX as int
    } else {
        spec_isqrt(d)
    }
}

/// The distance metric is symmetric in its two endpoints.
pub proof fn lemma_distance_symmetric(ax: int, ay: int, bx: int, by: int)
    ensures
        spec_dist(ax, ay, bx, by) == spec_dist(bx, by, ax, ay),
{
    assert((ax - bx) * (ax - bx) == (bx - ax) * (bx - ax)) by (nonlinear_arith);
    assert((ay - by) * (ay - by) == (by - ay) * (by - ay)) by (nonlinear_arith);
}

/// The distance is zero exactly when the two coordinates coincide.
pub proof fn lemma_distance_zero(ax: int, ay: int, bx: int, by: int)
    ensures
        spec_dist(ax, ay, bx, by) == 0 <==> (ax == bx && ay == by),
{
    let d = sq(ax - bx) + sq(ay - by);
    assert((ax - bx) * (ax - bx) >= 0) by (nonlinear_arith);
    assert((ay - by) * (ay - by) >= 0) by (nonlinear_arith);
    lemma_isqrt_bounds(d);
    if ax == bx && ay == by {
        assert((ax - bx) * (ax - bx) == 0) by (nonlinear_arith)
            requires
                ax == bx,
        ;
        assert((ay - by) * (ay - by) == 0) by (nonlinear_arith)
            requires
                ay == by,
        ;
        assert(d == 0);
    } else {
        if ax != bx {
            assert((ax - bx) * (ax - bx) >= 1) by (nonlinear_arith)
                requires
                    ax != bx,
            ;
        } else {
            assert((ay - by) * (ay - by) >= 1) by (nonlinear_arith)
                requires
                    ay != by,
            ;
        }
        assert(d >= 1);
        if spec_isqrt(d) == 0 {
            assert(sq(1int) == 1);
        }
    }
}

/// A point in the graph: identity, a 2D coordinate, and the aligned
/// neighbor / weight lists of its adjacency.
#[derive(Debug)]
pub struct GeoPoint {
    pub id: usize,
    pub x: usize,
    pub y: usize,
    pub neighbors: Vec<usize>,
    pub weights: Vec<usize>,
}

/// Mathematical model of a point.
pub struct PointModel {
    pub id: usize,
    pub x: usize,
    pub y: usize,
    pub neighbors: Seq<usize>,
    pub weights: Seq<usize>,
}

impl View for GeoPoint {
    type V = PointModel;

    open spec fn view(&self) -> PointModel {
        PointModel {
            id: self.id,
            x: self.x,
            y: self.y,
            neighbors: self.neighbors@,
            weights: self.weights@,
        }
    }
}

/// Floor square root of a `u128`, by binary search over the answer.
fn isqrt_u128(s: u128) -> (r: u128)
    ensures
        r as int == spec_isqrt(s as int),
        r <= 0xFFFF_FFFF_FFFF_FFFFu128,
{
    let mut lo: u128 = 0;
    let mut hi: u128 = 0xFFFF_FFFF_FFFF_FFFF;
    proof {
        assert(0x1_0000_0000_0000_0000 * 0x1_0000_0000_0000_0000 > s as int) by (nonlinear_arith)
            requires
                s <= 0xFFFF_FFFF_FFFF_FFFF_FFFF_FFFF_FFFF_FFFFu128,
        ;
    }
    while lo < hi
        invariant
            lo <= hi,
            hi <= 0xFFFF_FFFF_FFFF_FFFF,
            sq(lo as int) <= s as int,
            (s as int) < sq(hi as int + 1),
        decreases hi - lo,
    {
        let mid: u128 = lo + (hi - lo + 1) / 2;
        proof {
            assert((mid as int) * (mid as int) < 0x1_0000_0000_0000_0000_0000_0000_0000_0000)
                by (nonlinear_arith)
                requires
                    mid <= 0xFFFF_FFFF_FFFF_FFFFu128,
            ;
        }
        if mid * mid <= s {
            lo = mid;
        } else {
            hi = mid - 1;
        }
    }
    proof {
        lemma_isqrt_unique(s as int, lo as int);
    }
    lo
}

impl GeoPoint {
    /// A fresh point with the given identity and coordinate and no adjacency.
    pub fn new(id: usize, x: usize, y: usize) -> (p: GeoPoint)
        ensures
            p@.id == id,
            p@.x == x,
            p@.y == y,
            p@.neighbors == Seq::<usize>::empty(),
            p@.weights == Seq::<usize>::empty(),
    {
        GeoPoint { id, x, y, neighbors: Vec::new(), weights: Vec::new() }
    }

    /// Floor of the Euclidean distance between the two points' coordinates,
    /// clamped to `usize::MAX` when it does not fit.
    pub fn distance_to(&self, other: &GeoPoint) -> (d: usize)
        ensures
            d as int == spec_dist(self@.x as int, self@.y as int, other@.x as int, other@.y as int),
    {
        let dx: u128 = if self.x >= other.x {
            (self.x - other.x) as u128
        } else {
            (other.x - self.x) as u128
        };
        let dy: u128 = if self.y >= other.y {
            (self.y - other.y) as u128
        } else {
            (other.y - self.y) as u128
        };
        proof {
            assert((dx as int) * (dx as int) == sq(self@.x as int - other@.x as int))
                by (nonlinear_arith)
                requires
                    dx as int == self@.x as int - other@.x as int || dx as int == other@.x as int
                        - self@.x as int,
            ;
            assert((dy as int) * (dy as int) == sq(self@.y as int - other@.y as int))
                by (nonlinear_arith)
                requires
                    dy as int == self@.y as int - other@.y as int || dy as int == other@.y as int
                        - self@.y as int,
            ;
            assert((dx as int) * (dx as int) <= 0xFFFF_FFFF_FFFF_FFFE_0000_0000_0000_0001)
                by (nonlinear_arith)
                requires
                    dx <= 0xFFFF_FFFF_FFFF_FFFFu128,
            ;
            assert((dy as int) * (dy as int) <= 0xFFFF_FFFF_FFFF_FFFE_0000_0000_0000_0001)
                by (nonlinear_arith)
                requires
                    dy <= 0xFFFF_FFFF_FFFF_FFFFu128,
            ;
        }
        let xx: u128 = dx * dx;
        let yy: u128 = dy * dy;
        let ghost dist: int = sq(self@.x as int - other@.x as int) + sq(
            self@.y as int - other@.y as int,
        );
        if xx <= u128::MAX - yy {
            let s: u128 = xx + yy;
            let r: u128 = isqrt_u128(s);
            if r > usize::MAX as u128 {
                proof {
                    lemma_isqrt_bounds(dist);
                }
                usize::MAX
            } else {
                proof {
                    lemma_isqrt_bounds(dist);
                }
                r as usize
            }
        } else {
            proof {
                assert(dist > 0xFFFF_FFFF_FFFF_FFFF_FFFF_FFFF_FFFF_FFFFu128 as int);
                assert(sq(0x1_0000_0000_0000_0000) <= dist);
                lemma_isqrt_ge(dist, 0x1_0000_0000_0000_0000);
                assert(spec_isqrt(dist) > usize::MAX as int);
            }
            usize::MAX
        }
    }

    /// The identity of the point.
    pub fn id(&self) -> (r: usize)
        ensures
            r == self@.id,
    {
        self.id
    }

    /// The x coordinate.
    pub fn x(&self) -> (r: usize)
        ensures
            r == self@.x,
    {
        self.x
    }

    /// The y coordinate.
    pub fn y(&self) -> (r: usize)
        ensures
            r == self@.y,
    {
        self.y
    }

    /// The neighbor ids, in stored adjacency order.
    pub fn neighbors(&self) -> (r: &Vec<usize>)
        ensures
            r@ == self@.neighbors,
    {
        &self.neighbors
    }

    /// The edge costs, positionally aligned with `neighbors`.
    pub fn weights(&self) -> (r: &Vec<usize>)
        ensures
            r@ == self@.weights,
    {
        &self.weights
    }
}

} // verus!
