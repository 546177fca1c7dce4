//! Exact integer geometry: points, squared distances, orientation tests and
//! integer square roots.

use vstd::prelude::*;

verus! {

/// A point of the integer grid. The `y` axis points up; the ground plane is
/// spanned by `x` and `z`.
#[derive(Clone, Copy, Debug, PartialEq, Eq, Structural)]
pub struct Point3 {
    pub x: i32,
    pub y: i32,
    pub z: i32,
}

/// An integer vector with wide components, used for triangle normals.
#[derive(Clone, Copy, Debug, PartialEq, Eq, Structural)]
pub struct Normal {
    pub x: i128,
    pub y: i128,
    pub z: i128,
}

impl Point3 {
    pub fn new(x: i32, y: i32, z: i32) -> (p: Point3)
        ensures
            p == (Point3 { x, y, z }),
    {
        Point3 { x, y, z }
    }
}

/// Squared Euclidean distance between two points.
pub open spec fn dist_sq(a: Point3, b: Point3) -> int {
    (a.x - b.x) * (a.x - b.x) + (a.y - b.y) * (a.y - b.y) + (a.z - b.z) * (a.z - b.z)
}

/// Twice the signed area, in the ground plane, of the triangle `o`, `p`, `q`.
/// Positive when `q` lies to the left of the ray from `o` through `p`.
pub open spec fn cross2(o: Point3, p: Point3, q: Point3) -> int {
    (p.x - o.x) * (q.z - o.z) - (p.z - o.z) * (q.x - o.x)
}

/// The cross product `(b - a) x (c - a)`, component by component.
pub open spec fn cross3_x(a: Point3, b: Point3, c: Point3) -> int {
    (b.y - a.y) * (c.z - a.z) - (b.z - a.z) * (c.y - a.y)
}

pub open spec fn cross3_y(a: Point3, b: Point3, c: Point3) -> int {
    (b.z - a.z) * (c.x - a.x) - (b.x - a.x) * (c.z - a.z)
}

pub open spec fn cross3_z(a: Point3, b: Point3, c: Point3) -> int {
    (b.x - a.x) * (c.y - a.y) - (b.y - a.y) * (c.x - a.x)
}

/// The three points lie on one line (or coincide): the triangle they span has
/// no area.
pub open spec fn collinear(a: Point3, b: Point3, c: Point3) -> bool {
    cross3_x(a, b, c) == 0 && cross3_y(a, b, c) == 0 && cross3_z(a, b, c) == 0
}

/// The square of twice the area of the triangle `a`, `b`, `c`: the squared
/// length of its normal.
pub open spec fn double_area_sq(a: Point3, b: Point3, c: Point3) -> int {
    cross3_x(a, b, c) * cross3_x(a, b, c) + cross3_y(a, b, c) * cross3_y(a, b, c) + cross3_z(
        a,
        b,
        c,
    ) * cross3_z(a, b, c)
}

/// A triangle has no area exactly when its corners lie on one line.
pub proof fn lemma_double_area_sq(a: Point3, b: Point3, c: Point3)
    ensures
        double_area_sq(a, b, c) >= 0,
        double_area_sq(a, b, c) == 0 <==> collinear(a, b, c),
{
    let x = cross3_x(a, b, c);
    let y = cross3_y(a, b, c);
    let z = cross3_z(a, b, c);
    assert(x * x >= 0 && (x != 0 ==> x * x > 0)) by (nonlinear_arith);
    assert(y * y >= 0 && (y != 0 ==> y * y > 0)) by (nonlinear_arith);
    assert(z * z >= 0 && (z != 0 ==> z * z > 0)) by (nonlinear_arith);
}

/// `r` is the largest natural number whose square does not exceed `n`.
pub open spec fn is_floor_sqrt(n: nat, r: nat) -> bool {
    r * r <= n < (r + 1) * (r + 1)
}

/// The integer square root, rounded down.
pub open spec fn floor_sqrt(n: nat) -> nat {
    choose|r: nat| is_floor_sqrt(n, r)
}

/// The integer square root, rounded up.
pub open spec fn ceil_sqrt(n: nat) -> nat {
    let r = floor_sqrt(n);
    if r * r == n {
        r
    } else {
        r + 1
    }
}

/// Every natural number has a rounded-down square root.
proof fn lemma_floor_sqrt_exists(n: nat) -> (r: nat)
    ensures
        is_floor_sqrt(n, r),
    decreases n,
{
    if n == 0 {
        let r: nat = 0;
        assert(r * r <= 0 < (r + 1) * (r + 1)) by (nonlinear_arith)
            requires
                r == 0,
        ;
        r
    } else {
        let below = lemma_floor_sqrt_exists((n - 1) as nat);
        let b = below as int;
        assert(b * b <= n - 1 < (b + 1) * (b + 1));
        if (b + 1) * (b + 1) <= n {
            assert((b + 2) * (b + 2) > (b + 1) * (b + 1)) by (nonlinear_arith)
                requires
                    b >= 0,
            ;
            assert((b + 1 + 1) * (b + 1 + 1) == (b + 2) * (b + 2));
            assert(is_floor_sqrt(n, below + 1));
            below + 1
        } else {
            assert(is_floor_sqrt(n, below));
            below
        }
    }
}

/// `floor_sqrt(n)` is the largest natural number whose square does not exceed `n`.
pub proof fn lemma_floor_sqrt_bounds(n: nat)
    ensures
        floor_sqrt(n) * floor_sqrt(n) <= n < (floor_sqrt(n) + 1) * (floor_sqrt(n) + 1),
{
    let r = lemma_floor_sqrt_exists(n);
    assert(is_floor_sqrt(n, floor_sqrt(n)));
}

/// Squaring is strictly monotone on the natural numbers.
pub proof fn lemma_square_monotone(a: int, b: int)
    requires
        0 <= a,
        0 <= b,
    ensures
        a <= b <==> a * a <= b * b,
        a < b <==> a * a < b * b,
{
    assert(a <= b ==> a * a <= b * b) by (nonlinear_arith)
        requires
            0 <= a,
            0 <= b,
    ;
    assert(a < b ==> a * a < b * b) by (nonlinear_arith)
        requires
            0 <= a,
            0 <= b,
    ;
    assert(b <= a ==> b * b <= a * a) by (nonlinear_arith)
        requires
            0 <= a,
            0 <= b,
    ;
    assert(b < a ==> b * b < a * a) by (nonlinear_arith)
        requires
            0 <= a,
            0 <= b,
    ;
}

/// Any `r` squeezed as `r * r <= n < (r + 1) * (r + 1)` is the rounded-down root.
pub proof fn lemma_floor_sqrt_unique(n: nat, r: nat)
    requires
        r * r <= n < (r + 1) * (r + 1),
    ensures
        r == floor_sqrt(n),
{
    lemma_floor_sqrt_bounds(n);
    let s = floor_sqrt(n);
    lemma_square_monotone(r as int, s as int);
    lemma_square_monotone(r as int + 1, s as int);
    lemma_square_monotone(s as int + 1, r as int);
}

/// `ceil_sqrt(n)` is the smallest natural number whose square reaches `n`.
pub proof fn lemma_ceil_sqrt_bounds(n: nat)
    ensures
        ceil_sqrt(n) * ceil_sqrt(n) >= n,
        ceil_sqrt(n) > 0 ==> (ceil_sqrt(n) - 1) * (ceil_sqrt(n) - 1) < n,
        n > 0 ==> ceil_sqrt(n) > 0,
{
    lemma_floor_sqrt_bounds(n);
    let r = floor_sqrt(n) as int;
    if r * r == n {
        if r > 0 {
            assert((r - 1) * (r - 1) < r * r) by (nonlinear_arith)
                requires
                    r > 0,
            ;
        }
    } else {
        assert((r + 1) * (r + 1) >= n);
        assert((r + 1 - 1) * (r + 1 - 1) == r * r);
    }
}

/// A squared distance is never negative.
pub proof fn lemma_dist_sq_nonnegative(a: Point3, b: Point3)
    ensures
        dist_sq(a, b) >= 0,
        dist_sq(a, b) == dist_sq(b, a),
        a == b <==> dist_sq(a, b) == 0,
{
    let dx = a.x - b.x;
    let dy = a.y - b.y;
    let dz = a.z - b.z;
    assert(dx * dx >= 0 && (dx != 0 ==> dx * dx > 0)) by (nonlinear_arith);
    assert(dy * dy >= 0 && (dy != 0 ==> dy * dy > 0)) by (nonlinear_arith);
    assert(dz * dz >= 0 && (dz != 0 ==> dz * dz > 0)) by (nonlinear_arith);
    assert((b.x - a.x) * (b.x - a.x) == dx * dx) by (nonlinear_arith)
        requires
            dx == a.x - b.x,
    ;
    assert((b.y - a.y) * (b.y - a.y) == dy * dy) by (nonlinear_arith)
        requires
            dy == a.y - b.y,
    ;
    assert((b.z - a.z) * (b.z - a.z) == dz * dz) by (nonlinear_arith)
        requires
            dz == a.z - b.z,
    ;
}

/// The square of a difference of two products, written over the pairwise
/// products of its factors.
proof fn lemma_cross_term(p: int, q: int, r: int, s: int)
    ensures
        (p * q - r * s) * (p * q - r * s) == (p * p) * (q * q) - 2 * ((p * s) * (r * q)) + (r * r)
            * (s * s),
{
    let m = p * q;
    let n = r * s;
    assert((m - n) * (m - n) == m * m - 2 * (m * n) + n * n) by (nonlinear_arith);
    assert(m * m == (p * p) * (q * q)) by (nonlinear_arith)
        requires
            m == p * q,
    ;
    assert(n * n == (r * r) * (s * s)) by (nonlinear_arith)
        requires
            n == r * s,
    ;
    assert(m * n == (p * s) * (r * q)) by {
        vstd::arithmetic::mul::lemma_mul_is_associative(p, q, r * s);
        vstd::arithmetic::mul::lemma_mul_is_associative(q, r, s);
        vstd::arithmetic::mul::lemma_mul_is_commutative(q * r, s);
        vstd::arithmetic::mul::lemma_mul_is_associative(p, s, q * r);
        vstd::arithmetic::mul::lemma_mul_is_commutative(q, r);
    }
}

/// The Cauchy-Schwarz inequality for integer vectors in space.
pub proof fn lemma_cauchy_schwarz(ux: int, uy: int, uz: int, vx: int, vy: int, vz: int)
    ensures
        (ux * vx + uy * vy + uz * vz) * (ux * vx + uy * vy + uz * vz) <= (ux * ux + uy * uy + uz
            * uz) * (vx * vx + vy * vy + vz * vz),
{
    let a = ux * ux;
    let b = uy * uy;
    let c = uz * uz;
    let p = vx * vx;
    let q = vy * vy;
    let r = vz * vz;
    let e = ux * vx;
    let f = uy * vy;
    let g = uz * vz;
    let ef = e * f;
    let eg = e * g;
    let fg = f * g;
    let d = e + f + g;
    let uu = a + b + c;
    let vv = p + q + r;
    let cx = uy * vz - uz * vy;
    let cy = uz * vx - ux * vz;
    let cz = ux * vy - uy * vx;
    assert(uu * vv == a * p + a * q + a * r + b * p + b * q + b * r + c * p + c * q + c * r)
        by (nonlinear_arith)
        requires
            uu == a + b + c,
            vv == p + q + r,
    ;
    assert(d * d == e * e + f * f + g * g + 2 * ef + 2 * eg + 2 * fg) by (nonlinear_arith)
        requires
            d == e + f + g,
            ef == e * f,
            eg == e * g,
            fg == f * g,
    ;
    assert(e * e == a * p) by (nonlinear_arith)
        requires
            e == ux * vx,
            a == ux * ux,
            p == vx * vx,
    ;
    assert(f * f == b * q) by (nonlinear_arith)
        requires
            f == uy * vy,
            b == uy * uy,
            q == vy * vy,
    ;
    assert(g * g == c * r) by (nonlinear_arith)
        requires
            g == uz * vz,
            c == uz * uz,
            r == vz * vz,
    ;
    lemma_cross_term(uy, vz, uz, vy);
    assert(cx * cx == b * r - 2 * fg + c * q);
    lemma_cross_term(uz, vx, ux, vz);
    assert((uz * vz) * (ux * vx) == eg) by (nonlinear_arith)
        requires
            eg == (ux * vx) * (uz * vz),
    ;
    assert(cy * cy == c * p - 2 * eg + a * r);
    lemma_cross_term(ux, vy, uy, vx);
    assert(cz * cz == a * q - 2 * ef + b * p);
    assert(uu * vv - d * d == cx * cx + cy * cy + cz * cz);
    assert(cx * cx >= 0) by (nonlinear_arith);
    assert(cy * cy >= 0) by (nonlinear_arith);
    assert(cz * cz >= 0) by (nonlinear_arith);
}

/// The straight way from `a` to `b` is no longer than the way through `q`:
/// the exact form, over squared distances, of
/// `|a - b| <= |a - q| + |q - b|`.
pub open spec fn no_longer_than_via(a: Point3, b: Point3, q: Point3) -> bool {
    let direct = dist_sq(a, b);
    let first = dist_sq(a, q);
    let second = dist_sq(q, b);
    direct <= first + second || (direct - first - second) * (direct - first - second) <= 4 * (first
        * second)
}

/// The triangle inequality: no way through a third point is shorter than the
/// straight way.
pub proof fn lemma_straight_is_shortest(a: Point3, b: Point3, q: Point3)
    ensures
        no_longer_than_via(a, b, q),
{
    let ux = q.x - a.x;
    let uy = q.y - a.y;
    let uz = q.z - a.z;
    let vx = b.x - q.x;
    let vy = b.y - q.y;
    let vz = b.z - q.z;
    let direct = dist_sq(a, b);
    let first = dist_sq(a, q);
    let second = dist_sq(q, b);
    let d = ux * vx + uy * vy + uz * vz;
    assert(first == ux * ux + uy * uy + uz * uz) by (nonlinear_arith)
        requires
            first == (a.x - q.x) * (a.x - q.x) + (a.y - q.y) * (a.y - q.y) + (a.z - q.z) * (a.z
                - q.z),
            ux == -(a.x - q.x),
            uy == -(a.y - q.y),
            uz == -(a.z - q.z),
    ;
    assert(second == vx * vx + vy * vy + vz * vz) by (nonlinear_arith)
        requires
            second == (q.x - b.x) * (q.x - b.x) + (q.y - b.y) * (q.y - b.y) + (q.z - b.z) * (q.z
                - b.z),
            vx == -(q.x - b.x),
            vy == -(q.y - b.y),
            vz == -(q.z - b.z),
    ;
    assert((a.x - b.x) * (a.x - b.x) == (ux + vx) * (ux + vx)) by (nonlinear_arith)
        requires
            a.x - b.x == -(ux + vx),
    ;
    assert((a.y - b.y) * (a.y - b.y) == (uy + vy) * (uy + vy)) by (nonlinear_arith)
        requires
            a.y - b.y == -(uy + vy),
    ;
    assert((a.z - b.z) * (a.z - b.z) == (uz + vz) * (uz + vz)) by (nonlinear_arith)
        requires
            a.z - b.z == -(uz + vz),
    ;
    assert(direct == first + second + 2 * d) by (nonlinear_arith)
        requires
            direct == (ux + vx) * (ux + vx) + (uy + vy) * (uy + vy) + (uz + vz) * (uz + vz),
            first == ux * ux + uy * uy + uz * uz,
            second == vx * vx + vy * vy + vz * vz,
            d == ux * vx + uy * vy + uz * vz,
    ;
    lemma_cauchy_schwarz(ux, uy, uz, vx, vy, vz);
    assert((2 * d) * (2 * d) == 4 * (d * d)) by (nonlinear_arith);
}

/// The triangle inequality survives rounding when the middle leg is rounded
/// up and the other two distances are rounded down.
pub proof fn lemma_rounded_triangle_inequality(a: Point3, b: Point3, c: Point3)
    ensures
        dist_sq(a, c) >= 0,
        dist_sq(a, b) >= 0,
        dist_sq(b, c) >= 0,
        floor_sqrt(dist_sq(a, c) as nat) <= ceil_sqrt(dist_sq(a, b) as nat) + floor_sqrt(
            dist_sq(b, c) as nat,
        ),
{
    lemma_dist_sq_nonnegative(a, c);
    lemma_dist_sq_nonnegative(a, b);
    lemma_dist_sq_nonnegative(b, c);
    let ux = a.x - b.x;
    let uy = a.y - b.y;
    let uz = a.z - b.z;
    let vx = b.x - c.x;
    let vy = b.y - c.y;
    let vz = b.z - c.z;
    let uu = dist_sq(a, b);
    let vv = dist_sq(b, c);
    let xx = dist_sq(a, c);
    let d = ux * vx + uy * vy + uz * vz;
    assert(xx == uu + vv + 2 * d) by (nonlinear_arith)
        requires
            xx == (ux + vx) * (ux + vx) + (uy + vy) * (uy + vy) + (uz + vz) * (uz + vz),
            uu == ux * ux + uy * uy + uz * uz,
            vv == vx * vx + vy * vy + vz * vz,
            d == ux * vx + uy * vy + uz * vz,
    ;
    let x = floor_sqrt(xx as nat) as int;
    let y = ceil_sqrt(uu as nat) as int;
    let z = floor_sqrt(vv as nat) as int;
    lemma_floor_sqrt_bounds(xx as nat);
    lemma_ceil_sqrt_bounds(uu as nat);
    lemma_floor_sqrt_bounds(vv as nat);
    if x > y + z {
        let w = y * (z + 1);
        assert(w >= 0) by (nonlinear_arith)
            requires
                w == y * (z + 1),
                y >= 0,
                z >= 0,
        ;
        lemma_square_monotone(y + z + 1, x);
        assert((y + z + 1) * (y + z + 1) == y * y + 2 * w + (z + 1) * (z + 1)) by (nonlinear_arith)
            requires
                w == y * (z + 1),
        ;
        lemma_cauchy_schwarz(ux, uy, uz, vx, vy, vz);
        assert(d * d <= uu * vv);
        assert(uu * vv <= (y * y) * ((z + 1) * (z + 1))) by (nonlinear_arith)
            requires
                0 <= uu <= y * y,
                0 <= vv <= (z + 1) * (z + 1),
        ;
        assert((y * y) * ((z + 1) * (z + 1)) == w * w) by (nonlinear_arith)
            requires
                w == y * (z + 1),
        ;
        if d > w {
            lemma_square_monotone(w, d);
        }
        assert(d <= w);
        assert(false);
    }
}

/// Computes the rounded-down square root by bisection.
pub fn isqrt(n: u128) -> (r: u64)
    ensures
        r as nat == floor_sqrt(n as nat),
{
    let mut lo: u128 = 0;
    let mut hi: u128 = 0x1_0000_0000_0000_0000;
    assert(hi * hi > n) by (nonlinear_arith)
        requires
            hi == 0x1_0000_0000_0000_0000,
            n <= u128::MAX,
    ;
    while hi - lo > 1
        invariant
            lo < hi <= 0x1_0000_0000_0000_0000,
            lo * lo <= n < hi * hi,
        decreases hi - lo,
    {
        let mid: u128 = lo + (hi - lo) / 2;
        assert(mid * mid <= 0xffff_ffff_ffff_ffff * 0xffff_ffff_ffff_ffff) by (nonlinear_arith)
            requires
                0 <= mid <= 0xffff_ffff_ffff_ffff,
        ;
        if mid * mid <= n {
            lo = mid;
        } else {
            hi = mid;
        }
    }
    proof {
        lemma_floor_sqrt_unique(n as nat, lo as nat);
    }
    lo as u64
}

/// Computes the rounded-up square root.
pub fn isqrt_ceil(n: u128) -> (r: u64)
    requires
        n <= 0xffff_ffff_ffff_fffe_0000_0000_0000_0001,
    ensures
        r as nat == ceil_sqrt(n as nat),
{
    let r: u64 = isqrt(n);
    proof {
        lemma_floor_sqrt_bounds(n as nat);
        lemma_square_monotone(r as int, 0xffff_ffff_ffff_ffff);
        assert(0xffff_ffff_ffff_ffffint * 0xffff_ffff_ffff_ffffint
            == 0xffff_ffff_ffff_fffe_0000_0000_0000_0001int) by (nonlinear_arith);
    }
    let wide: u128 = r as u128;
    let square: u128 = wide * wide;
    if square == n {
        r
    } else {
        proof {
            if r == 0xffff_ffff_ffff_ffff {
                assert(wide * wide == 0xffff_ffff_ffff_fffe_0000_0000_0000_0001int)
                    by (nonlinear_arith)
                    requires
                        wide == 0xffff_ffff_ffff_ffff,
                ;
                assert(false);
            }
        }
        r + 1
    }
}

/// Computes the squared distance between two points.
pub fn distance_squared(a: Point3, b: Point3) -> (d: u128)
    ensures
        d == dist_sq(a, b),
        d <= 3 * 0xffff_ffff * 0xffff_ffff,
{
    let dx: i128 = a.x as i128 - b.x as i128;
    let dy: i128 = a.y as i128 - b.y as i128;
    let dz: i128 = a.z as i128 - b.z as i128;
    proof {
        lemma_square_bounded(dx as int, 0xffff_ffff);
        lemma_square_bounded(dy as int, 0xffff_ffff);
        lemma_square_bounded(dz as int, 0xffff_ffff);
    }
    let s: i128 = dx * dx + dy * dy + dz * dz;
    s as u128
}

/// A square is bounded by the square of a bound on the magnitude.
pub proof fn lemma_square_bounded(d: int, m: int)
    requires
        -m <= d <= m,
    ensures
        0 <= d * d <= m * m,
{
    assert(0 <= d * d <= m * m) by (nonlinear_arith)
        requires
            -m <= d <= m,
    ;
}

/// A product is bounded by the product of bounds on the magnitudes.
pub proof fn lemma_product_bounded(a: int, b: int, m: int, n: int)
    requires
        -m <= a <= m,
        -n <= b <= n,
    ensures
        -(m * n) <= a * b <= m * n,
{
    assert(-(m * n) <= a * b <= m * n) by (nonlinear_arith)
        requires
            -m <= a <= m,
            -n <= b <= n,
    ;
}

/// Computes the ground-plane orientation of `q` relative to the ray from `o`
/// through `p`.
pub fn orient(o: Point3, p: Point3, q: Point3) -> (c: i128)
    ensures
        c == cross2(o, p, q),
{
    let px: i128 = p.x as i128 - o.x as i128;
    let pz: i128 = p.z as i128 - o.z as i128;
    let qx: i128 = q.x as i128 - o.x as i128;
    let qz: i128 = q.z as i128 - o.z as i128;
    proof {
        lemma_product_bounded(px as int, qz as int, 0xffff_ffff, 0xffff_ffff);
        lemma_product_bounded(pz as int, qx as int, 0xffff_ffff, 0xffff_ffff);
    }
    px * qz - pz * qx
}

/// Computes the cross product `(b - a) x (c - a)`.
pub fn cross(a: Point3, b: Point3, c: Point3) -> (n: Normal)
    ensures
        n.x == cross3_x(a, b, c),
        n.y == cross3_y(a, b, c),
        n.z == cross3_z(a, b, c),
        -0x2_0000_0000_0000_0000 <= n.x <= 0x2_0000_0000_0000_0000,
        -0x2_0000_0000_0000_0000 <= n.y <= 0x2_0000_0000_0000_0000,
        -0x2_0000_0000_0000_0000 <= n.z <= 0x2_0000_0000_0000_0000,
{
    let ux: i128 = b.x as i128 - a.x as i128;
    let uy: i128 = b.y as i128 - a.y as i128;
    let uz: i128 = b.z as i128 - a.z as i128;
    let vx: i128 = c.x as i128 - a.x as i128;
    let vy: i128 = c.y as i128 - a.y as i128;
    let vz: i128 = c.z as i128 - a.z as i128;
    proof {
        lemma_product_bounded(uy as int, vz as int, 0xffff_ffff, 0xffff_ffff);
        lemma_product_bounded(uz as int, vy as int, 0xffff_ffff, 0xffff_ffff);
        lemma_product_bounded(uz as int, vx as int, 0xffff_ffff, 0xffff_ffff);
        lemma_product_bounded(ux as int, vz as int, 0xffff_ffff, 0xffff_ffff);
        lemma_product_bounded(ux as int, vy as int, 0xffff_ffff, 0xffff_ffff);
        lemma_product_bounded(uy as int, vx as int, 0xffff_ffff, 0xffff_ffff);
        assert(0xffff_ffffint * 0xffff_ffffint == 0xffff_fffe_0000_0001int) by (nonlinear_arith);
    }
    Normal { x: uy * vz - uz * vy, y: uz * vx - ux * vz, z: ux * vy - uy * vx }
}

/// The magnitude of a component of a normal.
fn magnitude_of(d: i128) -> (m: u128)
    requires
        -0x2_0000_0000_0000_0000 <= d <= 0x2_0000_0000_0000_0000,
    ensures
        m == d || m == -d,
        m * m == d * d,
{
    let m: u128 = if d >= 0 {
        d as u128
    } else {
        (-d) as u128
    };
    assert(m * m == d * d) by (nonlinear_arith)
        requires
            m == d || m == -d,
    ;
    m
}

/// Whether twice the area of the triangle `a`, `b`, `c` exceeds `tolerance`.
pub fn area_exceeds(a: Point3, b: Point3, c: Point3, tolerance: u64) -> (more: bool)
    ensures
        more == (double_area_sq(a, b, c) > tolerance * tolerance),
{
    let n: Normal = cross(a, b, c);
    let x: u128 = magnitude_of(n.x);
    let y: u128 = magnitude_of(n.y);
    let z: u128 = magnitude_of(n.z);
    proof {
        assert(tolerance * tolerance <= 0xffff_ffff_ffff_ffff * 0xffff_ffff_ffff_ffff) by (nonlinear_arith)
            requires
                0 <= tolerance <= 0xffff_ffff_ffff_ffff,
        ;
        assert(0xffff_ffff_ffff_ffffint * 0xffff_ffff_ffff_ffffint
            == 0xffff_ffff_ffff_fffe_0000_0000_0000_0001int) by (nonlinear_arith);
        assert(0x1_0000_0000_0000_0000int * 0x1_0000_0000_0000_0000int
            == 0x1_0000_0000_0000_0000_0000_0000_0000_0000int) by (nonlinear_arith);
        lemma_square_monotone(0x1_0000_0000_0000_0000, x as int);
        lemma_square_monotone(0x1_0000_0000_0000_0000, y as int);
        lemma_square_monotone(0x1_0000_0000_0000_0000, z as int);
        lemma_square_monotone(x as int, 0xffff_ffff_ffff_ffff);
        lemma_square_monotone(y as int, 0xffff_ffff_ffff_ffff);
        lemma_square_monotone(z as int, 0xffff_ffff_ffff_ffff);
        assert(x * x >= 0 && y * y >= 0 && z * z >= 0) by (nonlinear_arith);
    }
    let least: u128 = tolerance as u128 * tolerance as u128;
    if x > 0xffff_ffff_ffff_ffff || y > 0xffff_ffff_ffff_ffff || z > 0xffff_ffff_ffff_ffff {
        return true;
    }
    let first: u128 = x * x;
    if first > least {
        return true;
    }
    let second: u128 = y * y;
    if second > least - first {
        return true;
    }
    z * z > least - first - second
}

} // verus!
