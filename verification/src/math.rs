//! Integer vectors and the integer square root they measure distances with.

use vstd::prelude::*;
use crate::text::{decimal, push_decimal};

verus! {

/// `r` is the integer square root of `n`: the largest `r` with `r * r <= n`.
pub open spec fn is_isqrt(n: int, r: int) -> bool {
    &&& 0 <= r
    &&& r * r <= n
    &&& n < (r + 1) * (r + 1)
}

/// Two candidates for the integer square root of the same number coincide.
pub proof fn lemma_isqrt_unique(n: int, r1: int, r2: int)
    requires
        is_isqrt(n, r1),
        is_isqrt(n, r2),
    ensures
        r1 == r2,
{
    if r1 < r2 {
        assert((r1 + 1) * (r1 + 1) <= r2 * r2) by (nonlinear_arith)
            requires
                0 <= r1 < r2,
        ;
    } else if r2 < r1 {
        assert((r2 + 1) * (r2 + 1) <= r1 * r1) by (nonlinear_arith)
            requires
                0 <= r2 < r1,
        ;
    }
}

/// Floor of the square root of `n`, found by bisection.
pub fn isqrt(n: u64) -> (r: u64)
    ensures
        is_isqrt(n as int, r as int),
{
    let mut lo: u64 = 0;
    let mut hi: u64 = 0x1_0000_0000;
    while lo + 1 < hi
        invariant
            lo < hi <= 0x1_0000_0000,
            lo * lo <= n,
            n < hi * hi,
        decreases hi - lo,
    {
        let mid: u64 = lo + (hi - lo) / 2;
        assert(mid * mid <= 0x1_0000_0000 * 0x1_0000_0000) by (nonlinear_arith)
            requires
                mid <= 0x1_0000_0000,
        ;
        let sq: u128 = (mid as u128) * (mid as u128);
        if sq <= n as u128 {
            lo = mid;
        } else {
            hi = mid;
        }
    }
    lo
}

/// A position on a two dimensional grid.
#[derive(Debug, Default, Clone, Copy, PartialEq, Eq, Hash, PartialOrd, Ord, Structural)]
pub struct Vec2 {
    pub x: usize,
    pub y: usize,
}

/// Squared euclidean distance of two planar points given as signed words.
pub open spec fn dist2_2d(px: int, py: int, qx: int, qy: int) -> int {
    (px - qx) * (px - qx) + (py - qy) * (py - qy)
}

/// The coordinate as the signed word it is reinterpreted as.
pub open spec fn signed(v: usize) -> int {
    (v as isize) as int
}

impl Vec2 {
    pub fn new(x: usize, y: usize) -> (r: Self)
        ensures
            r.x == x,
            r.y == y,
    {
        Self { x, y }
    }

    /// Whether `distance` runs without overflow: the coordinates are read as
    /// signed words and the squared distance must fit in one.
    pub open spec fn distance_defined(self, rhs: Self) -> bool {
        let dx = signed(self.x) - signed(rhs.x);
        let dy = signed(self.y) - signed(rhs.y);
        &&& isize::MIN <= dx <= isize::MAX
        &&& isize::MIN <= dy <= isize::MAX
        &&& dist2_2d(signed(self.x), signed(self.y), signed(rhs.x), signed(rhs.y)) <= isize::MAX
    }

    /// Euclidean distance rounded down.
    pub fn distance(&self, rhs: Self) -> (d: usize)
        requires
            self.distance_defined(rhs),
        ensures
            is_isqrt(
                dist2_2d(signed(self.x), signed(self.y), signed(rhs.x), signed(rhs.y)),
                d as int,
            ),
    {
        let px: isize = self.x as isize;
        let py: isize = self.y as isize;
        let qx: isize = rhs.x as isize;
        let qy: isize = rhs.y as isize;
        let dx: isize = px - qx;
        let dy: isize = py - qy;
        assert(0 <= dx * dx <= dx * dx + dy * dy && 0 <= dy * dy) by (nonlinear_arith);
        let sum: isize = dx * dx + dy * dy;
        let r: u64 = isqrt(sum as u64);
        proof {
            assert(r * r <= sum);
            assert(r <= sum) by (nonlinear_arith)
                requires
                    r * r <= sum,
                    0 <= r,
            ;
        }
        r as usize
    }
}

/// Distance does not depend on which point it is measured from.
pub proof fn lemma_vec2_distance_symmetric(a: Vec2, b: Vec2, d1: int, d2: int)
    requires
        is_isqrt(dist2_2d(signed(a.x), signed(a.y), signed(b.x), signed(b.y)), d1),
        is_isqrt(dist2_2d(signed(b.x), signed(b.y), signed(a.x), signed(a.y)), d2),
    ensures
        d1 == d2,
{
    let (ax, ay, bx, by) = (signed(a.x), signed(a.y), signed(b.x), signed(b.y));
    assert(dist2_2d(ax, ay, bx, by) == dist2_2d(bx, by, ax, ay)) by (nonlinear_arith);
    lemma_isqrt_unique(dist2_2d(ax, ay, bx, by), d1, d2);
}

/// A point is at distance zero from itself.
pub proof fn lemma_vec2_distance_self(a: Vec2, d: int)
    requires
        is_isqrt(dist2_2d(signed(a.x), signed(a.y), signed(a.x), signed(a.y)), d),
    ensures
        d == 0,
{
    lemma_isqrt_unique(0, d, 0);
}

/// A position in the voxel world.
#[derive(Debug, Default, Clone, Copy, PartialEq, Eq, Hash, PartialOrd, Ord, Structural)]
pub struct Vec3 {
    pub x: i64,
    pub y: i64,
    pub z: i64,
}

/// Rust's `/` on signed words: the quotient rounded towards zero.
pub open spec fn trunc_div(a: int, b: int) -> int {
    if a >= 0 && b > 0 {
        a / b
    } else if a < 0 && b < 0 {
        (-a) / (-b)
    } else if a < 0 {
        -((-a) / b)
    } else {
        -(a / (-b))
    }
}

/// Squared euclidean distance of two voxels.
pub open spec fn dist2_3d(a: Vec3, b: Vec3) -> int {
    (a.x - b.x) * (a.x - b.x) + (a.y - b.y) * (a.y - b.y) + (a.z - b.z) * (a.z - b.z)
}

impl Vec3 {
    pub fn new(x: i64, y: i64, z: i64) -> (r: Self)
        ensures
            r.x == x,
            r.y == y,
            r.z == z,
    {
        Self { x, y, z }
    }

    /// Adds `rhs` to every coordinate.
    pub fn add_scalar(self, rhs: i64) -> (r: Self)
        requires
            i64::MIN <= self.x + rhs <= i64::MAX,
            i64::MIN <= self.y + rhs <= i64::MAX,
            i64::MIN <= self.z + rhs <= i64::MAX,
        ensures
            r.x == self.x + rhs,
            r.y == self.y + rhs,
            r.z == self.z + rhs,
    {
        Self { x: self.x + rhs, y: self.y + rhs, z: self.z + rhs }
    }

    /// Divides every coordinate by `rhs`, rounding towards zero.
    pub fn div_scalar(self, rhs: i64) -> (r: Self)
        requires
            rhs != 0,
            !(rhs == -1 && (self.x == i64::MIN || self.y == i64::MIN || self.z == i64::MIN)),
        ensures
            r.x == trunc_div(self.x as int, rhs as int),
            r.y == trunc_div(self.y as int, rhs as int),
            r.z == trunc_div(self.z as int, rhs as int),
    {
        Self { x: div_toward_zero(self.x, rhs), y: div_toward_zero(self.y, rhs), z: div_toward_zero(self.z, rhs) }
    }

    /// Coordinate-wise sum.
    pub fn add(self, rhs: Vec3) -> (r: Self)
        requires
            i64::MIN <= self.x + rhs.x <= i64::MAX,
            i64::MIN <= self.y + rhs.y <= i64::MAX,
            i64::MIN <= self.z + rhs.z <= i64::MAX,
        ensures
            r.x == self.x + rhs.x,
            r.y == self.y + rhs.y,
            r.z == self.z + rhs.z,
    {
        Self { x: self.x + rhs.x, y: self.y + rhs.y, z: self.z + rhs.z }
    }

    /// Euclidean distance on the grid, rounded down.
    pub fn grid_distance(&self, rhs: Self) -> (d: u64)
        requires
            dist2_3d(*self, rhs) <= u64::MAX,
            i64::MIN <= self.x - rhs.x <= i64::MAX,
            i64::MIN <= self.y - rhs.y <= i64::MAX,
            i64::MIN <= self.z - rhs.z <= i64::MAX,
        ensures
            is_isqrt(dist2_3d(*self, rhs), d as int),
    {
        let dx: i128 = self.x as i128 - rhs.x as i128;
        let dy: i128 = self.y as i128 - rhs.y as i128;
        let dz: i128 = self.z as i128 - rhs.z as i128;
        assert(0 <= dx * dx <= 0x4000_0000_0000_0000_0000_0000_0000_0000) by (nonlinear_arith)
            requires
                -0x8000_0000_0000_0000 <= dx <= 0x7fff_ffff_ffff_ffff,
        ;
        assert(0 <= dy * dy <= 0x4000_0000_0000_0000_0000_0000_0000_0000) by (nonlinear_arith)
            requires
                -0x8000_0000_0000_0000 <= dy <= 0x7fff_ffff_ffff_ffff,
        ;
        assert(0 <= dz * dz <= 0x4000_0000_0000_0000_0000_0000_0000_0000) by (nonlinear_arith)
            requires
                -0x8000_0000_0000_0000 <= dz <= 0x7fff_ffff_ffff_ffff,
        ;
        let sq: i128 = dx * dx + dy * dy + dz * dz;
        isqrt(sq as u64)
    }
}

impl Vec3 {
    /// Euclidean distance on the grid, rounded down; a distance too large
    /// for the square to fit in a `u64` is reported as `isqrt(u64::MAX)`.
    pub fn distance_capped(&self, rhs: Self) -> (d: u64)
        ensures
            is_isqrt(if dist2_3d(*self, rhs) <= u64::MAX { dist2_3d(*self, rhs) } else { u64::MAX as int }, d as int),
    {
        let dx: i128 = self.x as i128 - rhs.x as i128;
        let dy: i128 = self.y as i128 - rhs.y as i128;
        let dz: i128 = self.z as i128 - rhs.z as i128;
        let lim: i128 = 0x1_0000_0000;
        if -lim < dx && dx < lim && -lim < dy && dy < lim && -lim < dz && dz < lim {
            assert(0 <= dx * dx < 0x1_0000_0000_0000_0000 && 0 <= dy * dy < 0x1_0000_0000_0000_0000 && 0 <= dz * dz
                < 0x1_0000_0000_0000_0000) by (nonlinear_arith)
                requires
                    -0x1_0000_0000 < dx < 0x1_0000_0000,
                    -0x1_0000_0000 < dy < 0x1_0000_0000,
                    -0x1_0000_0000 < dz < 0x1_0000_0000,
            ;
            let d: i128 = dx * dx + dy * dy + dz * dz;
            if d <= 0xffff_ffff_ffff_ffff {
                isqrt(d as u64)
            } else {
                isqrt(0xffff_ffff_ffff_ffff)
            }
        } else {
            assert(dist2_3d(*self, rhs) > u64::MAX) by (nonlinear_arith)
                requires
                    dx == self.x - rhs.x,
                    dy == self.y - rhs.y,
                    dz == self.z - rhs.z,
                    !(-0x1_0000_0000 < dx < 0x1_0000_0000 && -0x1_0000_0000 < dy < 0x1_0000_0000 && -0x1_0000_0000 < dz
                        < 0x1_0000_0000),
            ;
            isqrt(0xffff_ffff_ffff_ffff)
        }
    }
}

/// Rust's `/` on `i64`, rounding towards zero.
fn div_toward_zero(a: i64, b: i64) -> (r: i64)
    requires
        b != 0,
        !(a == i64::MIN && b == -1),
    ensures
        r == trunc_div(a as int, b as int),
{
    match a.checked_div(b) {
        Some(q) => q,
        None => {
            proof {
                assert(false) by (nonlinear_arith)
                    requires
                        b != 0,
                        !(a == i64::MIN && b == -1),
                        a.checked_div(b) is None,
                ;
            }
            0
        },
    }
}

/// The decimal text of a signed number.
pub open spec fn signed_decimal(n: int) -> Seq<char> {
    if n < 0 {
        "-"@ + decimal((-n) as nat)
    } else {
        decimal(n as nat)
    }
}

/// Appends the decimal text of `n`.
fn push_signed(out: &mut String, n: i64)
    ensures
        final(out)@ == old(out)@ + signed_decimal(n as int),
{
    if n < 0 {
        out.append("-");
        let m: u64 = (-(n as i128)) as u64;
        push_decimal(out, m);
    } else {
        push_decimal(out, n as u64);
    }
}

impl Vec3 {
    /// The position as text: `(x, y, z)`.
    pub fn to_string(&self) -> (r: String)
        ensures
            r@ == "("@ + signed_decimal(self.x as int) + ", "@ + signed_decimal(self.y as int) + ", "@
                + signed_decimal(self.z as int) + ")"@,
    {
        let mut r = String::from_str("(");
        push_signed(&mut r, self.x);
        r.append(", ");
        push_signed(&mut r, self.y);
        r.append(", ");
        push_signed(&mut r, self.z);
        r.append(")");
        r
    }
}

impl Vec2 {
    /// The point as text: `(x, y)`.
    pub fn to_string(&self) -> (r: String)
        ensures
            r@ == "("@ + decimal(self.x as nat) + ", "@ + decimal(self.y as nat) + ")"@,
    {
        let mut r = String::from_str("(");
        push_decimal(&mut r, self.x as u64);
        r.append(", ");
        push_decimal(&mut r, self.y as u64);
        r.append(")");
        r
    }
}

} // verus!
