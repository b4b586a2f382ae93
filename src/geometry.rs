//! Locations on an integer grid and the length of a closed tour through them.
//!
//! Distances are fixed-point: the distance between two locations is the
//! Euclidean distance times `DISTANCE_SCALE`, rounded down.

use vstd::arithmetic::div_mod::{lemma_mod_self_0, lemma_small_mod};
use vstd::prelude::*;

verus! {

/// Distances are measured in units of `1 / DISTANCE_SCALE`.
pub const DISTANCE_SCALE: u128 = 1000;

/// The largest square number that `isqrt` accepts is below `SQRT_LIMIT * SQRT_LIMIT`.
pub const SQRT_LIMIT: u128 = 0x800_0000_0000;

/// The squared Euclidean distance between two locations.
pub open spec fn squared_distance(a: (u32, u32), b: (u32, u32)) -> nat {
    let dx = a.0 as int - b.0 as int;
    let dy = a.1 as int - b.1 as int;
    (dx * dx + dy * dy) as nat
}

/// `r` is the square root of `n` rounded down.
pub open spec fn is_floor_sqrt(r: nat, n: nat) -> bool {
    r * r <= n && n < (r + 1) * (r + 1)
}

/// The square root of `n`, rounded down.
pub open spec fn floor_sqrt(n: nat) -> nat {
    choose|r: nat| is_floor_sqrt(r, n)
}

/// The fixed-point distance between two locations.
pub open spec fn distance(a: (u32, u32), b: (u32, u32)) -> nat {
    floor_sqrt((DISTANCE_SCALE * DISTANCE_SCALE) as nat * squared_distance(a, b))
}

/// The edge of a tour that leaves its `i`-th stop, back to the first stop
/// after the last.
pub open spec fn edge(cities: Seq<(u32, u32)>, tour: Seq<usize>, i: int) -> nat {
    distance(cities[tour[i] as int], cities[tour[(i + 1) % (tour.len() as int)] as int])
}

/// The sum of the first `k` edges of a tour.
pub open spec fn partial_length(cities: Seq<(u32, u32)>, tour: Seq<usize>, k: int) -> nat
    decreases k,
{
    if k <= 0 {
        0
    } else {
        partial_length(cities, tour, k - 1) + edge(cities, tour, k - 1)
    }
}

/// The length of the closed tour that visits `cities[tour[0]]`,
/// `cities[tour[1]]`, ... and returns to its start.
pub open spec fn closed_length(cities: Seq<(u32, u32)>, tour: Seq<usize>) -> nat {
    partial_length(cities, tour, tour.len() as int)
}

/// Every stop of the tour is a location of `cities`.
pub open spec fn stops_in_range(cities: Seq<(u32, u32)>, tour: Seq<usize>) -> bool {
    forall|i: int| 0 <= i < tour.len() ==> (#[trigger] tour[i]) < cities.len()
}

proof fn lemma_floor_sqrt_unique(r: nat, n: nat)
    requires
        is_floor_sqrt(r, n),
    ensures
        floor_sqrt(n) == r,
{
    let s = floor_sqrt(n);
    assert(is_floor_sqrt(s, n));
    if s < r {
        assert((s + 1) * (s + 1) <= r * r) by (nonlinear_arith)
            requires s + 1 <= r;
    } else if r < s {
        assert((r + 1) * (r + 1) <= s * s) by (nonlinear_arith)
            requires r + 1 <= s;
    }
}

/// Every natural number has a square root rounded down.
proof fn lemma_floor_sqrt_exists(n: nat)
    ensures
        is_floor_sqrt(floor_sqrt(n), n),
    decreases n,
{
    if n == 0 {
        assert(is_floor_sqrt(0, 0)) by (nonlinear_arith);
    } else {
        lemma_floor_sqrt_exists((n - 1) as nat);
        let r = floor_sqrt((n - 1) as nat);
        if n < (r + 1) * (r + 1) {
            assert(is_floor_sqrt(r, n));
        } else {
            assert(is_floor_sqrt(r + 1, n)) by (nonlinear_arith)
                requires
                    n == (r + 1) * (r + 1),
            ;
        }
    }
}

/// No distance between two locations reaches `SQRT_LIMIT`.
pub proof fn lemma_distance_bound(a: (u32, u32), b: (u32, u32))
    ensures
        distance(a, b) < SQRT_LIMIT,
{
    let sq = squared_distance(a, b);
    let dx = a.0 as int - b.0 as int;
    let dy = a.1 as int - b.1 as int;
    assert(dx * dx <= 0xffff_ffff * 0xffff_ffff) by (nonlinear_arith)
        requires -0xffff_ffff <= dx <= 0xffff_ffff;
    assert(dy * dy <= 0xffff_ffff * 0xffff_ffff) by (nonlinear_arith)
        requires -0xffff_ffff <= dy <= 0xffff_ffff;
    assert(dx * dx >= 0) by (nonlinear_arith);
    assert(dy * dy >= 0) by (nonlinear_arith);
    assert(sq == dx * dx + dy * dy);
    assert(sq <= 2 * (0xffff_ffff * 0xffff_ffff));
    let n = (DISTANCE_SCALE * DISTANCE_SCALE) as nat * sq;
    assert(n < SQRT_LIMIT * SQRT_LIMIT) by (nonlinear_arith)
        requires sq <= 2 * (0xffff_ffff * 0xffff_ffff), n == 1_000_000 * sq;
    lemma_floor_sqrt_exists(n);
    let r = floor_sqrt(n);
    if r >= SQRT_LIMIT {
        assert(r * r >= SQRT_LIMIT * SQRT_LIMIT) by (nonlinear_arith)
            requires r >= SQRT_LIMIT;
    }
}

/// The first `k` edges of a tour add up to less than `k * SQRT_LIMIT`.
pub proof fn lemma_partial_length_bound(cities: Seq<(u32, u32)>, tour: Seq<usize>, k: int)
    requires
        0 <= k,
    ensures
        partial_length(cities, tour, k) <= k * SQRT_LIMIT,
    decreases k,
{
    if k > 0 {
        lemma_partial_length_bound(cities, tour, k - 1);
        lemma_distance_bound(
            cities[tour[k - 1] as int],
            cities[tour[(k - 1 + 1) % (tour.len() as int)] as int],
        );
    }
}

/// The square root of `n`, rounded down.
pub fn isqrt(n: u128) -> (r: u128)
    requires
        n < SQRT_LIMIT * SQRT_LIMIT,
    ensures
        is_floor_sqrt(r as nat, n as nat),
        r == floor_sqrt(n as nat),
        r < SQRT_LIMIT,
{
    let mut lo: u128 = 0;
    let mut hi: u128 = SQRT_LIMIT;
    while hi - lo > 1
        invariant
            lo < hi <= SQRT_LIMIT,
            lo * lo <= n,
            n < hi * hi,
        decreases hi - lo,
    {
        let mid: u128 = lo + (hi - lo) / 2;
        assert(mid * mid < SQRT_LIMIT * SQRT_LIMIT) by (nonlinear_arith)
            requires mid < SQRT_LIMIT;
        if mid * mid <= n {
            lo = mid;
        } else {
            hi = mid;
        }
    }
    assert(hi == lo + 1);
    proof {
        lemma_floor_sqrt_unique(lo as nat, n as nat);
    }
    lo
}

/// The fixed-point distance between two locations.
pub fn location_distance(a: (u32, u32), b: (u32, u32)) -> (r: u128)
    ensures
        r == distance(a, b),
        r < SQRT_LIMIT,
{
    let dx: u128 = if a.0 >= b.0 { (a.0 - b.0) as u128 } else { (b.0 - a.0) as u128 };
    let dy: u128 = if a.1 >= b.1 { (a.1 - b.1) as u128 } else { (b.1 - a.1) as u128 };
    assert(dx * dx <= 0xffff_ffff * 0xffff_ffff) by (nonlinear_arith)
        requires dx <= 0xffff_ffff;
    assert(dy * dy <= 0xffff_ffff * 0xffff_ffff) by (nonlinear_arith)
        requires dy <= 0xffff_ffff;
    let sq: u128 = dx * dx + dy * dy;
    assert(sq == squared_distance(a, b)) by (nonlinear_arith)
        requires
            dx * dx + dy * dy == sq,
            dx == a.0 - b.0 || dx == b.0 - a.0,
            dy == a.1 - b.1 || dy == b.1 - a.1,
    {
        let ddx = a.0 as int - b.0 as int;
        let ddy = a.1 as int - b.1 as int;
        assert(dx * dx == ddx * ddx);
        assert(dy * dy == ddy * ddy);
    }
    assert(DISTANCE_SCALE * DISTANCE_SCALE * sq < SQRT_LIMIT * SQRT_LIMIT) by (nonlinear_arith)
        requires sq <= 2 * (0xffff_ffff * 0xffff_ffff);
    isqrt(DISTANCE_SCALE * DISTANCE_SCALE * sq)
}

/// The length of the closed tour through `cities` in the order `tour`.
pub fn tour_length(cities: &Vec<(u32, u32)>, tour: &Vec<usize>) -> (r: u128)
    requires
        stops_in_range(cities@, tour@),
    ensures
        r == closed_length(cities@, tour@),
{
    let n = tour.len();
    let mut total: u128 = 0;
    let mut i: usize = 0;
    while i < n
        invariant
            n == tour@.len(),
            stops_in_range(cities@, tour@),
            0 <= i <= n,
            total == partial_length(cities@, tour@, i as int),
            total <= i * SQRT_LIMIT,
        decreases n - i,
    {
        let next: usize = if i + 1 == n { 0 } else { i + 1 };
        proof {
            if i + 1 == n {
                lemma_mod_self_0(n as int);
            } else {
                lemma_small_mod((i + 1) as nat, n as nat);
            }
        }
        let d = location_distance(cities[tour[i]], cities[tour[next]]);
        assert(total + d <= (i + 1) * SQRT_LIMIT) by (nonlinear_arith)
            requires total <= i * SQRT_LIMIT, d < SQRT_LIMIT;
        assert((i + 1) * SQRT_LIMIT <= 0x1_0000_0000_0000_0000 * SQRT_LIMIT) by (nonlinear_arith)
            requires i < n, n <= usize::MAX;
        total = total + d;
        i = i + 1;
    }
    total
}

} // verus!
