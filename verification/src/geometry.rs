//! Fixed-point vectors on and around the unit sphere.
//!
//! A coordinate `c` stands for the real number `c / UNIT`. All arithmetic is
//! exact integer arithmetic; the only rounding happens in [`normalize`], which
//! truncates each scaled coordinate towards zero.

use vstd::prelude::*;

verus! {

/// The fixed-point representation of the real number one.
pub const UNIT: i32 = 1_000_000;

/// A point or direction in space, in fixed-point coordinates.
#[derive(Clone, Copy, Debug, PartialEq, Eq, Structural)]
pub struct Point3 {
    pub x: i32,
    pub y: i32,
    pub z: i32,
}

/// The scalar product of two vectors.
pub open spec fn dot(a: Point3, b: Point3) -> int {
    a.x * b.x + a.y * b.y + a.z * b.z
}

/// The squared length of a vector.
pub open spec fn norm_sq(a: Point3) -> int {
    dot(a, a)
}

/// The squared Euclidean distance between two points.
pub open spec fn dist_sq(a: Point3, b: Point3) -> int {
    (a.x - b.x) * (a.x - b.x) + (a.y - b.y) * (a.y - b.y) + (a.z - b.z) * (a.z - b.z)
}

/// Every coordinate lies in `[-UNIT, UNIT]`, as it does for a point of the unit sphere.
pub open spec fn unit_bounded(p: Point3) -> bool {
    &&& -UNIT <= p.x <= UNIT
    &&& -UNIT <= p.y <= UNIT
    &&& -UNIT <= p.z <= UNIT
}

/// Every point of the sequence is [`unit_bounded`].
pub open spec fn all_unit_bounded(points: Seq<Point3>) -> bool {
    forall|i: int| 0 <= i < points.len() ==> unit_bounded(#[trigger] points[i])
}

/// `r` is the integer square root of `n`: the largest integer whose square does not exceed `n`.
pub open spec fn is_isqrt(n: int, r: int) -> bool {
    0 <= r && r * r <= n && n < (r + 1) * (r + 1)
}

/// The integer square root of a non-negative integer.
pub open spec fn isqrt_spec(n: int) -> int {
    choose|r: int| is_isqrt(n, r)
}

/// Division that rounds towards zero, for a positive divisor.
pub open spec fn trunc_div(a: int, b: int) -> int {
    if a >= 0 {
        a / b
    } else {
        -((-a) / b)
    }
}

/// One coordinate of a vector of length `len`, rescaled to length `UNIT`.
pub open spec fn rescaled(c: int, len: int) -> int {
    trunc_div(c * UNIT, len)
}

/// The vector scaled to unit length, or `None` for the zero vector.
pub open spec fn normalized(v: Point3) -> Option<Point3> {
    if norm_sq(v) == 0 {
        None
    } else {
        let len = isqrt_spec(norm_sq(v));
        Some(
            Point3 {
                x: rescaled(v.x as int, len) as i32,
                y: rescaled(v.y as int, len) as i32,
                z: rescaled(v.z as int, len) as i32,
            },
        )
    }
}

/// The product of two bounded integers is bounded by the product of the bounds.
pub proof fn lemma_product_bound(a: int, b: int, bound_a: int, bound_b: int)
    requires
        -bound_a <= a <= bound_a,
        -bound_b <= b <= bound_b,
    ensures
        -(bound_a * bound_b) <= a * b <= bound_a * bound_b,
{
    assert(-(bound_a * bound_b) <= a * b <= bound_a * bound_b) by (nonlinear_arith)
        requires
            -bound_a <= a <= bound_a,
            -bound_b <= b <= bound_b,
    ;
}

/// At most one integer is the integer square root of `n`.
pub proof fn lemma_isqrt_unique(n: int, r1: int, r2: int)
    requires
        is_isqrt(n, r1),
        is_isqrt(n, r2),
    ensures
        r1 == r2,
{
    assert(r1 < r2 + 1) by (nonlinear_arith)
        requires
            0 <= r1,
            0 <= r2,
            r1 * r1 <= n,
            n < (r2 + 1) * (r2 + 1),
    ;
    assert(r2 < r1 + 1) by (nonlinear_arith)
        requires
            0 <= r1,
            0 <= r2,
            r2 * r2 <= n,
            n < (r1 + 1) * (r1 + 1),
    ;
}

/// No coordinate of a vector exceeds the integer square root of its squared length.
pub proof fn lemma_coordinate_below_length(c: int, n: int, len: int)
    requires
        is_isqrt(n, len),
        c * c <= n,
    ensures
        -len <= c <= len,
{
    assert(c < len + 1) by (nonlinear_arith)
        requires
            0 <= len,
            c * c <= n,
            n < (len + 1) * (len + 1),
    ;
    assert(-c < len + 1) by (nonlinear_arith)
        requires
            0 <= len,
            c * c <= n,
            n < (len + 1) * (len + 1),
    ;
}

/// A rescaled coordinate of a vector never leaves `[-UNIT, UNIT]`.
pub proof fn lemma_rescaled_bounded(c: int, len: int)
    requires
        0 < len,
        -len <= c <= len,
    ensures
        -UNIT <= rescaled(c, len) <= UNIT,
{
    if c >= 0 {
        assert(0 <= (c * UNIT) / len <= UNIT) by (nonlinear_arith)
            requires
                0 <= c <= len,
                0 < len,
                UNIT == 1_000_000,
        ;
    } else {
        assert(0 <= (-(c * UNIT)) / len <= UNIT) by (nonlinear_arith)
            requires
                0 <= -c <= len,
                0 < len,
                UNIT == 1_000_000,
        ;
    }
}

/// The product of two 32-bit integers, computed without overflow.
pub fn product(a: i32, b: i32) -> (r: i128)
    ensures
        r == a * b,
        -0x4000_0000_0000_0000 <= r <= 0x4000_0000_0000_0000,
{
    let x: i128 = a as i128;
    let y: i128 = b as i128;
    assert(-0x4000_0000_0000_0000 <= x * y <= 0x4000_0000_0000_0000) by (nonlinear_arith)
        requires
            -0x8000_0000 <= x < 0x8000_0000,
            -0x8000_0000 <= y < 0x8000_0000,
    ;
    x * y
}

/// The integer square root, by bisection.
pub fn isqrt(n: u64) -> (r: u64)
    ensures
        r == isqrt_spec(n as int),
        is_isqrt(n as int, r as int),
        r < 0x1_0000_0000,
{
    let mut lo: u64 = 0;
    let mut hi: u64 = 0x1_0000_0000;
    assert(n < hi * hi) by (nonlinear_arith)
        requires
            n <= 0xffff_ffff_ffff_ffff,
            hi == 0x1_0000_0000,
    ;
    while hi - lo > 1
        invariant
            lo < hi <= 0x1_0000_0000,
            lo * lo <= n,
            n < hi * hi,
        decreases hi - lo,
    {
        let mid: u64 = lo + (hi - lo) / 2;
        assert(mid * mid < 0x1_0000_0000_0000_0000) by (nonlinear_arith)
            requires
                mid < 0x1_0000_0000,
        ;
        if mid * mid <= n {
            lo = mid;
        } else {
            hi = mid;
        }
    }
    proof {
        assert(is_isqrt(n as int, lo as int));
        lemma_isqrt_unique(n as int, lo as int, isqrt_spec(n as int));
    }
    lo
}

/// One coordinate rescaled from length `len` to length `UNIT`.
fn rescale(c: i32, len: u64) -> (r: i32)
    requires
        0 < len,
        -len <= c <= len,
    ensures
        r == rescaled(c as int, len as int),
        -UNIT <= r <= UNIT,
{
    proof {
        lemma_rescaled_bounded(c as int, len as int);
    }
    if c >= 0 {
        let num: u64 = (c as u64) * 1_000_000;
        let q: u64 = num / len;
        q as i32
    } else {
        let num: u64 = ((-(c as i64)) as u64) * 1_000_000;
        assert(num == -(c * UNIT));
        let q: u64 = num / len;
        -(q as i32)
    }
}

impl Point3 {
    /// The scalar product with another vector.
    pub fn dot(&self, other: &Point3) -> (r: i128)
        ensures
            r == dot(*self, *other),
    {
        product(self.x, other.x) + product(self.y, other.y) + product(self.z, other.z)
    }

    /// The squared length.
    pub fn norm_squared(&self) -> (r: u64)
        ensures
            r == norm_sq(*self),
    {
        let s: i128 = product(self.x, self.x) + product(self.y, self.y) + product(self.z, self.z);
        assert(0 <= self.x * self.x) by (nonlinear_arith);
        assert(0 <= self.y * self.y) by (nonlinear_arith);
        assert(0 <= self.z * self.z) by (nonlinear_arith);
        s as u64
    }

    /// The squared distance to another point.
    pub fn distance_squared(&self, other: &Point3) -> (r: i128)
        ensures
            r == dist_sq(*self, *other),
            0 <= r,
    {
        let dx: i128 = self.x as i128 - other.x as i128;
        let dy: i128 = self.y as i128 - other.y as i128;
        let dz: i128 = self.z as i128 - other.z as i128;
        assert(0 <= dx * dx <= 0x1_0000_0000_0000_0000) by (nonlinear_arith)
            requires
                -0x1_0000_0000 <= dx <= 0x1_0000_0000,
        ;
        assert(0 <= dy * dy <= 0x1_0000_0000_0000_0000) by (nonlinear_arith)
            requires
                -0x1_0000_0000 <= dy <= 0x1_0000_0000,
        ;
        assert(0 <= dz * dz <= 0x1_0000_0000_0000_0000) by (nonlinear_arith)
            requires
                -0x1_0000_0000 <= dz <= 0x1_0000_0000,
        ;
        dx * dx + dy * dy + dz * dz
    }

    /// The vector scaled to unit length; `None` exactly for the zero vector.
    pub fn normalize(&self) -> (r: Option<Point3>)
        ensures
            r == normalized(*self),
            r is None <==> norm_sq(*self) == 0,
            r matches Some(p) ==> unit_bounded(p),
    {
        let n: u64 = self.norm_squared();
        if n == 0 {
            return None;
        }
        let len: u64 = isqrt(n);
        proof {
            assert(0 <= self.x * self.x) by (nonlinear_arith);
            assert(0 <= self.y * self.y) by (nonlinear_arith);
            assert(0 <= self.z * self.z) by (nonlinear_arith);
            lemma_coordinate_below_length(self.x as int, n as int, len as int);
            lemma_coordinate_below_length(self.y as int, n as int, len as int);
            lemma_coordinate_below_length(self.z as int, n as int, len as int);
            assert(len > 0) by (nonlinear_arith)
                requires
                    n > 0,
                    n < (len + 1) * (len + 1),
                    0 <= len,
            ;
        }
        Some(Point3 { x: rescale(self.x, len), y: rescale(self.y, len), z: rescale(self.z, len) })
    }
}

} // verus!
