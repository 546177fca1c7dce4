//! Stepping a point towards a waypoint on the integer grid.

use crate::geometry::{
    ceil_sqrt, dist_sq, distance_squared, isqrt_ceil, lemma_ceil_sqrt_bounds,
    lemma_dist_sq_nonnegative, lemma_square_monotone, Point3,
};
use vstd::arithmetic::div_mod::{
    lemma_div_is_ordered, lemma_div_multiples_vanish, lemma_div_pos_is_pos,
    lemma_fundamental_div_mod, lemma_mod_pos_bound,
};
use vstd::arithmetic::mul::{lemma_mul_inequality, lemma_mul_nonnegative};
use vstd::prelude::*;

verus! {

/// The travel that a tick has to spend, in thousandths of a grid unit: what
/// earlier ticks left over, and what `dt` milliseconds at `speed` grid units
/// per second add to it.
pub open spec fn budget(carry: u32, speed: u32, dt: u32) -> int {
    carry as int + speed as int * dt as int
}

/// The whole grid units in the budget of a tick: the length of its step.
pub open spec fn step_length(carry: u32, speed: u32, dt: u32) -> int {
    budget(carry, speed, dt) / 1000
}

/// The thousandths of a grid unit that the step of a tick leaves over.
pub open spec fn left_over(carry: u32, speed: u32, dt: u32) -> int {
    budget(carry, speed, dt) % 1000
}

pub open spec fn magnitude(d: int) -> int {
    if d >= 0 {
        d
    } else {
        -d
    }
}

/// One grid unit in the direction of `d`.
pub open spec fn unit_toward(d: int) -> int {
    if d > 0 {
        1
    } else if d < 0 {
        -1
    } else {
        0
    }
}

/// The share of a step of length `step` that falls to one axis, when the
/// offset along that axis is `d` and the whole offset has length `reach`;
/// rounded towards zero.
pub open spec fn stride(d: int, step: int, reach: int) -> int {
    if d >= 0 {
        (step * d) / reach
    } else {
        -((step * (-d)) / reach)
    }
}

/// The distance from `a` to `b`, rounded up.
pub open spec fn reach(a: Point3, b: Point3) -> int {
    ceil_sqrt(dist_sq(a, b) as nat) as int
}

/// `pos` moved by one grid unit along the axis on which `wp` is farthest
/// (the first such axis).
pub open spec fn nudged(pos: Point3, wp: Point3) -> Point3 {
    let dx = wp.x - pos.x;
    let dy = wp.y - pos.y;
    let dz = wp.z - pos.z;
    if magnitude(dx) >= magnitude(dy) && magnitude(dx) >= magnitude(dz) {
        Point3 { x: (pos.x + unit_toward(dx)) as i32, ..pos }
    } else if magnitude(dy) >= magnitude(dz) {
        Point3 { y: (pos.y + unit_toward(dy)) as i32, ..pos }
    } else {
        Point3 { z: (pos.z + unit_toward(dz)) as i32, ..pos }
    }
}

/// Where a step of length `step` from `pos` towards `wp` ends: at `wp` when
/// the step reaches it; otherwise each axis moves by its share of the step,
/// and where every share rounds to nothing the point moves by one grid unit.
pub open spec fn advanced(pos: Point3, wp: Point3, step: int) -> Point3 {
    let r = reach(pos, wp);
    if r <= step {
        wp
    } else if step <= 0 {
        pos
    } else {
        let mx = stride(wp.x - pos.x, step, r);
        let my = stride(wp.y - pos.y, step, r);
        let mz = stride(wp.z - pos.z, step, r);
        if mx == 0 && my == 0 && mz == 0 {
            nudged(pos, wp)
        } else {
            Point3 { x: (pos.x + mx) as i32, y: (pos.y + my) as i32, z: (pos.z + mz) as i32 }
        }
    }
}

/// A stride points the way of its offset, never overshoots it, and is no
/// longer than the step scaled by the offset's part in the whole.
pub proof fn lemma_stride(d: int, step: int, reach: int)
    requires
        0 <= step < reach,
    ensures
        d >= 0 ==> 0 <= stride(d, step, reach) <= d,
        d <= 0 ==> d <= stride(d, step, reach) <= 0,
        (stride(d, step, reach) * stride(d, step, reach)) * (reach * reach) <= (step * step) * (d
            * d),
{
    let a = magnitude(d);
    let x = step * a;
    let q = x / reach;
    lemma_mul_nonnegative(step, a);
    lemma_fundamental_div_mod(x, reach);
    lemma_mod_pos_bound(x, reach);
    lemma_div_pos_is_pos(x, reach);
    lemma_mul_inequality(step, reach, a);
    lemma_div_is_ordered(x, reach * a, reach);
    lemma_div_multiples_vanish(a, reach);
    assert(0 <= q <= a);
    assert(reach * q <= x);
    lemma_mul_nonnegative(reach, q);
    lemma_square_monotone(reach * q, x);
    assert((reach * q) * (reach * q) == (q * q) * (reach * reach)) by (nonlinear_arith);
    assert(x * x == (step * step) * (a * a)) by (nonlinear_arith)
        requires
            x == step * a,
    ;
    assert(a * a == d * d) by (nonlinear_arith)
        requires
            a == d || a == -d,
    ;
    let s = stride(d, step, reach);
    assert(s == q || s == -q);
    assert(s * s == q * q) by (nonlinear_arith)
        requires
            s == q || s == -q,
    ;
}

/// Moving part of the way along an axis leaves a shorter offset.
pub proof fn lemma_offset_shrinks(d: int, m: int)
    requires
        (0 <= m <= d) || (d <= m <= 0),
    ensures
        (d - m) * (d - m) <= d * d,
        m != 0 ==> (d - m) * (d - m) < d * d,
{
    assert((d - m) * (d - m) <= d * d) by (nonlinear_arith)
        requires
            (0 <= m <= d) || (d <= m <= 0),
    ;
    assert(m != 0 ==> (d - m) * (d - m) < d * d) by (nonlinear_arith)
        requires
            (0 <= m <= d) || (d <= m <= 0),
    ;
}

/// The components by which `advanced` moves a point.
pub open spec fn moved_x(pos: Point3, wp: Point3, step: int) -> int {
    advanced(pos, wp, step).x - pos.x
}

pub open spec fn moved_y(pos: Point3, wp: Point3, step: int) -> int {
    advanced(pos, wp, step).y - pos.y
}

pub open spec fn moved_z(pos: Point3, wp: Point3, step: int) -> int {
    advanced(pos, wp, step).z - pos.z
}

/// Each axis moves towards the waypoint and not past it.
pub proof fn lemma_advanced_between(pos: Point3, wp: Point3, step: int)
    requires
        0 <= step,
    ensures
        ({
            let d = wp.x - pos.x;
            let m = moved_x(pos, wp, step);
            (0 <= m <= d) || (d <= m <= 0)
        }),
        ({
            let d = wp.y - pos.y;
            let m = moved_y(pos, wp, step);
            (0 <= m <= d) || (d <= m <= 0)
        }),
        ({
            let d = wp.z - pos.z;
            let m = moved_z(pos, wp, step);
            (0 <= m <= d) || (d <= m <= 0)
        }),
        reach(pos, wp) > step && step > 0 ==> (moved_x(pos, wp, step) != 0 || moved_y(pos, wp, step)
            != 0 || moved_z(pos, wp, step) != 0),
        reach(pos, wp) > step && step > 0 && (stride(wp.x - pos.x, step, reach(pos, wp)) != 0
            || stride(wp.y - pos.y, step, reach(pos, wp)) != 0 || stride(
            wp.z - pos.z,
            step,
            reach(pos, wp),
        ) != 0) ==> {
            &&& moved_x(pos, wp, step) == stride(wp.x - pos.x, step, reach(pos, wp))
            &&& moved_y(pos, wp, step) == stride(wp.y - pos.y, step, reach(pos, wp))
            &&& moved_z(pos, wp, step) == stride(wp.z - pos.z, step, reach(pos, wp))
        },
        reach(pos, wp) > step && step > 0 && stride(wp.x - pos.x, step, reach(pos, wp)) == 0
            && stride(wp.y - pos.y, step, reach(pos, wp)) == 0 && stride(
            wp.z - pos.z,
            step,
            reach(pos, wp),
        ) == 0 ==> moved_x(pos, wp, step) * moved_x(pos, wp, step) + moved_y(pos, wp, step)
            * moved_y(pos, wp, step) + moved_z(pos, wp, step) * moved_z(pos, wp, step) == 1,
{
    let r = reach(pos, wp);
    lemma_dist_sq_nonnegative(pos, wp);
    lemma_ceil_sqrt_bounds(dist_sq(pos, wp) as nat);
    if r > step && step > 0 {
        lemma_stride(wp.x - pos.x, step, r);
        lemma_stride(wp.y - pos.y, step, r);
        lemma_stride(wp.z - pos.z, step, r);
        assert(pos != wp);
        let mx = moved_x(pos, wp, step);
        let my = moved_y(pos, wp, step);
        let mz = moved_z(pos, wp, step);
        if stride(wp.x - pos.x, step, r) == 0 && stride(wp.y - pos.y, step, r) == 0 && stride(
            wp.z - pos.z,
            step,
            r,
        ) == 0 {
            assert(advanced(pos, wp, step) == nudged(pos, wp));
            assert(((mx == 1 || mx == -1) && my == 0 && mz == 0) || (mx == 0 && (my == 1 || my
                == -1) && mz == 0) || (mx == 0 && my == 0 && (mz == 1 || mz == -1)));
            assert(mx * mx + my * my + mz * mz == 1) by (nonlinear_arith)
                requires
                    ((mx == 1 || mx == -1) && my == 0 && mz == 0) || (mx == 0 && (my == 1 || my
                        == -1) && mz == 0) || (mx == 0 && my == 0 && (mz == 1 || mz == -1)),
            ;
        }
    }
}

/// A step never carries a point farther than its length.
pub proof fn lemma_advanced_bounded(pos: Point3, wp: Point3, step: int)
    requires
        0 <= step,
    ensures
        dist_sq(advanced(pos, wp, step), pos) <= step * step,
{
    let r = reach(pos, wp);
    let new = advanced(pos, wp, step);
    let dd = dist_sq(pos, wp);
    lemma_dist_sq_nonnegative(pos, wp);
    lemma_dist_sq_nonnegative(pos, pos);
    lemma_dist_sq_nonnegative(wp, pos);
    lemma_ceil_sqrt_bounds(dd as nat);
    lemma_advanced_between(pos, wp, step);
    assert(step * step >= 0) by (nonlinear_arith);
    if r <= step {
        lemma_square_monotone(r, step);
    } else if step > 0 {
        let dx = wp.x - pos.x;
        let dy = wp.y - pos.y;
        let dz = wp.z - pos.z;
        let mx = stride(dx, step, r);
        let my = stride(dy, step, r);
        let mz = stride(dz, step, r);
        if mx == 0 && my == 0 && mz == 0 {
            assert(step * step >= 1) by (nonlinear_arith)
                requires
                    step >= 1,
            ;
        } else {
            lemma_stride(dx, step, r);
            lemma_stride(dy, step, r);
            lemma_stride(dz, step, r);
            let total = mx * mx + my * my + mz * mz;
            let rr = r * r;
            let ss = step * step;
            assert(total * rr == (mx * mx) * rr + (my * my) * rr + (mz * mz) * rr) by (nonlinear_arith)
                requires
                    total == mx * mx + my * my + mz * mz,
            ;
            assert(ss * dd == ss * (dx * dx) + ss * (dy * dy) + ss * (dz * dz)) by (nonlinear_arith)
                requires
                    dd == dx * dx + dy * dy + dz * dz,
            ;
            assert(ss * dd <= ss * rr) by (nonlinear_arith)
                requires
                    dd <= rr,
                    ss >= 0,
            ;
            assert(total <= ss) by (nonlinear_arith)
                requires
                    total * rr <= ss * rr,
                    rr > 0,
            ;
        }
    }
}

/// A step of at least one grid unit brings a point strictly closer to a
/// waypoint it has not reached.
pub proof fn lemma_advanced_closer(pos: Point3, wp: Point3, step: int)
    requires
        1 <= step,
        pos != wp,
    ensures
        0 <= dist_sq(advanced(pos, wp, step), wp) < dist_sq(pos, wp),
{
    let new = advanced(pos, wp, step);
    lemma_dist_sq_nonnegative(pos, wp);
    lemma_dist_sq_nonnegative(new, wp);
    lemma_dist_sq_nonnegative(wp, wp);
    lemma_ceil_sqrt_bounds(dist_sq(pos, wp) as nat);
    lemma_advanced_between(pos, wp, step);
    if reach(pos, wp) > step {
        let dx = wp.x - pos.x;
        let dy = wp.y - pos.y;
        let dz = wp.z - pos.z;
        let mx = moved_x(pos, wp, step);
        let my = moved_y(pos, wp, step);
        let mz = moved_z(pos, wp, step);
        lemma_offset_shrinks(dx, mx);
        lemma_offset_shrinks(dy, my);
        lemma_offset_shrinks(dz, mz);
        assert((new.x - wp.x) * (new.x - wp.x) == (dx - mx) * (dx - mx)) by (nonlinear_arith)
            requires
                new.x - wp.x == -(dx - mx),
        ;
        assert((new.y - wp.y) * (new.y - wp.y) == (dy - my) * (dy - my)) by (nonlinear_arith)
            requires
                new.y - wp.y == -(dy - my),
        ;
        assert((new.z - wp.z) * (new.z - wp.z) == (dz - mz) * (dz - mz)) by (nonlinear_arith)
            requires
                new.z - wp.z == -(dz - mz),
        ;
        assert((pos.x - wp.x) * (pos.x - wp.x) == dx * dx) by (nonlinear_arith)
            requires
                pos.x - wp.x == -dx,
        ;
        assert((pos.y - wp.y) * (pos.y - wp.y) == dy * dy) by (nonlinear_arith)
            requires
                pos.y - wp.y == -dy,
        ;
        assert((pos.z - wp.z) * (pos.z - wp.z) == dz * dz) by (nonlinear_arith)
            requires
                pos.z - wp.z == -dz,
        ;
    }
}

/// Computes the length of a step and what it leaves over.
pub fn step_for(carry: u32, speed: u32, dt: u32) -> (r: (u64, u32))
    ensures
        r.0 == step_length(carry, speed, dt),
        r.1 == left_over(carry, speed, dt),
        1000 * r.0 + r.1 == budget(carry, speed, dt),
{
    assert(speed as int * dt as int <= 0xffff_ffff * 0xffff_ffff) by (nonlinear_arith)
        requires
            0 <= speed <= 0xffff_ffff,
            0 <= dt <= 0xffff_ffff,
    ;
    assert(0 <= speed as int * dt as int) by (nonlinear_arith)
        requires
            0 <= speed,
            0 <= dt,
    ;
    let total: u64 = carry as u64 + speed as u64 * dt as u64;
    (total / 1000, (total % 1000) as u32)
}

fn stride_of(d: i64, step: u64, reach: u64) -> (q: i64)
    requires
        -0xffff_ffff <= d <= 0xffff_ffff,
        step < reach,
    ensures
        q == stride(d as int, step as int, reach as int),
{
    let a: u128 = if d >= 0 {
        d as u128
    } else {
        (-d) as u128
    };
    proof {
        lemma_stride(d as int, step as int, reach as int);
        assert(step as int * a as int <= 0xffff_ffff_ffff_ffff * 0xffff_ffff) by (nonlinear_arith)
            requires
                0 <= step <= 0xffff_ffff_ffff_ffff,
                0 <= a <= 0xffff_ffff,
        ;
    }
    let x: u128 = step as u128 * a;
    let q: u128 = x / reach as u128;
    if d >= 0 {
        q as i64
    } else {
        -(q as i64)
    }
}

fn nudge(pos: Point3, wp: Point3) -> (p: Point3)
    requires
        pos != wp,
    ensures
        p == nudged(pos, wp),
{
    let dx: i64 = wp.x as i64 - pos.x as i64;
    let dy: i64 = wp.y as i64 - pos.y as i64;
    let dz: i64 = wp.z as i64 - pos.z as i64;
    let ax: i64 = if dx >= 0 { dx } else { -dx };
    let ay: i64 = if dy >= 0 { dy } else { -dy };
    let az: i64 = if dz >= 0 { dz } else { -dz };
    if ax >= ay && ax >= az {
        let x: i32 = if dx > 0 { pos.x + 1 } else { pos.x - 1 };
        Point3 { x, y: pos.y, z: pos.z }
    } else if ay >= az {
        let y: i32 = if dy > 0 { pos.y + 1 } else { pos.y - 1 };
        Point3 { x: pos.x, y, z: pos.z }
    } else {
        let z: i32 = if dz > 0 { pos.z + 1 } else { pos.z - 1 };
        Point3 { x: pos.x, y: pos.y, z }
    }
}

/// Moves `pos` one step of length `step` towards `wp`.
pub fn advance(pos: Point3, wp: Point3, step: u64) -> (p: Point3)
    ensures
        p == advanced(pos, wp, step as int),
        dist_sq(p, pos) <= step * step,
{
    proof {
        lemma_advanced_bounded(pos, wp, step as int);
        lemma_advanced_between(pos, wp, step as int);
        lemma_dist_sq_nonnegative(pos, wp);
        lemma_ceil_sqrt_bounds(dist_sq(pos, wp) as nat);
        assert(3 * 0xffff_ffffint * 0xffff_ffffint <= 0xffff_ffff_ffff_fffe_0000_0000_0000_0001int)
            by (nonlinear_arith);
    }
    let r: u64 = isqrt_ceil(distance_squared(pos, wp));
    if r <= step {
        return wp;
    }
    if step == 0 {
        return pos;
    }
    let mx: i64 = stride_of(wp.x as i64 - pos.x as i64, step, r);
    let my: i64 = stride_of(wp.y as i64 - pos.y as i64, step, r);
    let mz: i64 = stride_of(wp.z as i64 - pos.z as i64, step, r);
    if mx == 0 && my == 0 && mz == 0 {
        nudge(pos, wp)
    } else {
        Point3 {
            x: (pos.x as i64 + mx) as i32,
            y: (pos.y as i64 + my) as i32,
            z: (pos.z as i64 + mz) as i32,
        }
    }
}

} // verus!
