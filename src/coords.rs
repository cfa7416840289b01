//! Two-dimensional integer coordinates and the integer geometry the
//! simulation needs: vector arithmetic, clamping, and Euclidean lengths
//! rounded to the nearest integer.
use rand::Rng;
use vstd::math::abs;
use vstd::prelude::*;

verus! {

/// A point (or a displacement) on the integer grid.
#[derive(Clone, Copy, Debug, PartialEq, Eq, Structural)]
pub struct Coords {
    pub x: i32,
    pub y: i32,
}

/// The square of the Euclidean length of the vector `(dx, dy)`.
pub open spec fn norm_sq(dx: int, dy: int) -> int {
    dx * dx + dy * dy
}

/// `m` is the square root of `n` rounded to the nearest integer.
///
/// For `m >= 1` this says `(m - 1/2)^2 <= n < (m + 1/2)^2`, written over
/// integers; a square root never lies exactly halfway between two integers.
pub open spec fn is_rounded_root(n: int, m: int) -> bool {
    &&& 0 <= m
    &&& m == 0 || m * m - m < n
    &&& n <= m * m + m
}

/// Searches upwards from `m` for the rounded square root of `n`.
pub open spec fn rounded_root_from(n: int, m: int) -> int
    decreases n - m,
{
    if n <= m * m + m || n - m <= 0 {
        m
    } else {
        rounded_root_from(n, m + 1)
    }
}

/// The square root of `n` rounded to the nearest integer.
pub open spec fn rounded_root(n: int) -> int {
    rounded_root_from(n, 0)
}

/// The Euclidean length of `(dx, dy)`, rounded to the nearest integer.
pub open spec fn length(dx: int, dy: int) -> int {
    rounded_root(norm_sq(dx, dy))
}

/// The distance from `a` to `b`, rounded to the nearest integer.
pub open spec fn distance(a: Coords, b: Coords) -> int {
    length(b.x - a.x, b.y - a.y)
}

/// `v` held between `lo` and `hi`; `hi` wins where `lo > hi`, as with
/// `min(hi, max(lo, v))`.
pub open spec fn clamped(v: int, lo: int, hi: int) -> int {
    if v > hi {
        hi
    } else if v < lo {
        if lo > hi { hi } else { lo }
    } else {
        v
    }
}

/// `a / b` rounded toward zero, as Rust's integer division does.
pub open spec fn truncated_quotient(a: int, b: int) -> int {
    let q: int = abs(a) as int / abs(b) as int;
    if (a >= 0) == (b > 0) { q } else { -q }
}

impl Coords {
    /// A point drawn uniformly from the rectangle with corners `min` and
    /// `max`, each axis on its own.
    pub fn random(min: &Coords, max: &Coords) -> (r: Coords)
        requires
            min.x <= max.x,
            min.y <= max.y,
        ensures
            min.x <= r.x <= max.x,
            min.y <= r.y <= max.y,
    {
        Coords { x: Coords::random_coord(min.x, max.x), y: Coords::random_coord(min.y, max.y) }
    }

    /// Relies on rand's `thread_rng().gen_range(min..=max)`: a value drawn
    /// from the inclusive range, which it requires to be non-empty.
    #[verifier::external_body]
    pub(crate) fn random_coord(min: i32, max: i32) -> (r: i32)
        requires
            min <= max,
        ensures
            min <= r <= max,
    {
        rand::thread_rng().gen_range(min..=max)
    }

    /// The Euclidean length of this vector, rounded to the nearest integer.
    pub fn magnitude(&self) -> (r: i32)
        requires
            length(self.x as int, self.y as int) <= i32::MAX,
        ensures
            r == length(self.x as int, self.y as int),
    {
        let origin = Coords { x: 0, y: 0 };
        let d = distance_between(origin, *self);
        d as i32
    }

    /// This point held inside the rectangle from `min_c` to `max_c`, axis by
    /// axis.
    pub fn clamp(self, min_c: &Coords, max_c: &Coords) -> (r: Coords)
        ensures
            r.x == clamped(self.x as int, min_c.x as int, max_c.x as int),
            r.y == clamped(self.y as int, min_c.y as int, max_c.y as int),
    {
        Coords {
            x: clamp_axis(self.x, min_c.x, max_c.x),
            y: clamp_axis(self.y, min_c.y, max_c.y),
        }
    }

    /// The sum of two vectors.
    pub fn add(self, other: Coords) -> (r: Coords)
        requires
            i32::MIN <= self.x + other.x <= i32::MAX,
            i32::MIN <= self.y + other.y <= i32::MAX,
        ensures
            r.x == self.x + other.x,
            r.y == self.y + other.y,
    {
        Coords { x: self.x + other.x, y: self.y + other.y }
    }

    /// The difference of two vectors.
    pub fn sub(self, other: Coords) -> (r: Coords)
        requires
            i32::MIN <= self.x - other.x <= i32::MAX,
            i32::MIN <= self.y - other.y <= i32::MAX,
        ensures
            r.x == self.x - other.x,
            r.y == self.y - other.y,
    {
        Coords { x: self.x - other.x, y: self.y - other.y }
    }

    /// This vector scaled by `coefficient`.
    pub fn mul(self, coefficient: i32) -> (r: Coords)
        requires
            i32::MIN <= self.x * coefficient <= i32::MAX,
            i32::MIN <= self.y * coefficient <= i32::MAX,
        ensures
            r.x == self.x * coefficient,
            r.y == self.y * coefficient,
    {
        Coords { x: self.x * coefficient, y: self.y * coefficient }
    }

    /// This vector divided by `coefficient`, each component rounded toward
    /// zero.
    pub fn div(self, coefficient: i32) -> (r: Coords)
        requires
            coefficient != 0,
            coefficient == -1 ==> self.x != i32::MIN && self.y != i32::MIN,
        ensures
            r.x == truncated_quotient(self.x as int, coefficient as int),
            r.y == truncated_quotient(self.y as int, coefficient as int),
    {
        Coords { x: quotient(self.x, coefficient), y: quotient(self.y, coefficient) }
    }
}

fn clamp_axis(v: i32, lo: i32, hi: i32) -> (r: i32)
    ensures
        r == clamped(v as int, lo as int, hi as int),
{
    if v > hi {
        hi
    } else if v < lo {
        if lo > hi { hi } else { lo }
    } else {
        v
    }
}

fn quotient(a: i32, b: i32) -> (q: i32)
    requires
        b != 0,
        b == -1 ==> a != i32::MIN,
    ensures
        q == truncated_quotient(a as int, b as int),
{
    let ua: u64 = if a < 0 { (-(a as i64)) as u64 } else { a as u64 };
    let ub: u64 = if b < 0 { (-(b as i64)) as u64 } else { b as u64 };
    let u = ua / ub;
    assert(u <= ua) by (nonlinear_arith)
        requires ub >= 1, u == ua / ub;
    assert(ub >= 2 ==> u <= ua / 2) by (nonlinear_arith)
        requires u == ua / ub;
    if (a >= 0) == (b > 0) {
        (u as i64) as i32
    } else {
        (-(u as i64)) as i32
    }
}

proof fn lemma_rounded_root_from(n: int, m: int)
    requires
        0 <= m,
        m <= n,
        m == 0 || m * m - m < n,
    ensures
        is_rounded_root(n, rounded_root_from(n, m)),
    decreases n - m,
{
    if n <= m * m + m || n - m <= 0 {
        if n - m <= 0 {
            assert(m * m + m >= n) by (nonlinear_arith)
                requires 0 <= m, n <= m;
        }
    } else {
        assert((m + 1) * (m + 1) - (m + 1) == m * m + m) by (nonlinear_arith);
        assert(m + 1 <= n);
        lemma_rounded_root_from(n, m + 1);
    }
}

/// Two integers that both round the square root of `n` are equal.
proof fn lemma_rounded_root_unique(n: int, a: int, b: int)
    requires
        is_rounded_root(n, a),
        is_rounded_root(n, b),
    ensures
        a == b,
{
    if a < b {
        assert(b * b - b >= a * a + a) by (nonlinear_arith)
            requires 0 <= a, a + 1 <= b;
    } else if b < a {
        assert(a * a - a >= b * b + b) by (nonlinear_arith)
            requires 0 <= b, b + 1 <= a;
    }
}

/// `rounded_root(n)` is the rounded square root of `n`, and the only one.
pub proof fn lemma_rounded_root(n: int)
    requires
        0 <= n,
    ensures
        is_rounded_root(n, rounded_root(n)),
        forall|m: int| is_rounded_root(n, m) ==> m == rounded_root(n),
{
    lemma_rounded_root_from(n, 0);
    assert forall|m: int| is_rounded_root(n, m) implies m == rounded_root(n) by {
        lemma_rounded_root_unique(n, m, rounded_root(n));
    }
}

/// An integer whose square exceeds every input of `round_root`.
const ROOT_CEILING: u128 = 0x4_0000_0000;

/// The square root of `n` rounded to the nearest integer.
pub fn round_root(n: u128) -> (m: u64)
    requires
        n < 0x10_0000_0000_0000_0000,
    ensures
        m == rounded_root(n as int),
{
    // Binary search for the integer part `lo`: lo * lo <= n < hi * hi.
    let mut lo: u128 = 0;
    let mut hi: u128 = ROOT_CEILING;
    assert(n < hi * hi) by (nonlinear_arith)
        requires hi == 0x4_0000_0000u128, n < 0x10_0000_0000_0000_0000;
    while hi - lo > 1
        invariant
            lo < hi <= ROOT_CEILING,
            lo * lo <= n,
            n < hi * hi,
        decreases hi - lo,
    {
        let mid = lo + (hi - lo) / 2;
        assert(mid * mid <= ROOT_CEILING * ROOT_CEILING) by (nonlinear_arith)
            requires mid <= ROOT_CEILING;
        if mid * mid <= n {
            lo = mid;
        } else {
            hi = mid;
        }
    }
    assert(hi == lo + 1);
    let r: u128 = if n > lo * lo + lo { lo + 1 } else { lo };
    proof {
        if n > lo * lo + lo {
            assert((lo + 1) * (lo + 1) - (lo + 1) == lo * lo + lo) by (nonlinear_arith);
            assert((lo + 1) * (lo + 1) + (lo + 1) >= hi * hi) by (nonlinear_arith)
                requires hi == lo + 1, lo >= 0;
        } else if lo > 0 {
            assert(lo * lo - lo < lo * lo) by (nonlinear_arith)
                requires lo > 0;
        }
        assert(is_rounded_root(n as int, r as int));
        lemma_rounded_root(n as int);
    }
    r as u64
}

/// The rounded distance from `a` to `b`, computed without overflow for any
/// pair of points.
pub fn distance_between(a: Coords, b: Coords) -> (d: u64)
    ensures
        d == distance(a, b),
        d <= 0x1_8000_0000,
{
    let dx: i128 = b.x as i128 - a.x as i128;
    let dy: i128 = b.y as i128 - a.y as i128;
    assert(dx * dx <= 0x1_0000_0000_0000_0000) by (nonlinear_arith)
        requires -0x1_0000_0000 <= dx <= 0x1_0000_0000;
    assert(dy * dy <= 0x1_0000_0000_0000_0000) by (nonlinear_arith)
        requires -0x1_0000_0000 <= dy <= 0x1_0000_0000;
    assert(dx * dx >= 0 && dy * dy >= 0) by (nonlinear_arith);
    let n: u128 = (dx * dx + dy * dy) as u128;
    let d = round_root(n);
    proof {
        lemma_length_bound(dx as int, dy as int);
    }
    d
}

/// A vector whose components are at most 2^32 in size is at most
/// 1.5 * 2^32 long.
pub proof fn lemma_length_bound(dx: int, dy: int)
    requires
        -0x1_0000_0000 <= dx <= 0x1_0000_0000,
        -0x1_0000_0000 <= dy <= 0x1_0000_0000,
    ensures
        length(dx, dy) <= 0x1_8000_0000,
{
    let n = norm_sq(dx, dy);
    assert(0 <= n <= 0x2_0000_0000_0000_0000) by (nonlinear_arith)
        requires -0x1_0000_0000 <= dx <= 0x1_0000_0000, -0x1_0000_0000 <= dy <= 0x1_0000_0000,
            n == dx * dx + dy * dy;
    lemma_rounded_root(n);
    let m = length(dx, dy);
    if m > 0x1_8000_0000 {
        assert(m * m - m >= 0x1_8000_0001 * 0x1_8000_0001 - 0x1_8000_0001) by (nonlinear_arith)
            requires m >= 0x1_8000_0001;
    }
}

} // verus!
