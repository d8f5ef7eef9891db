//! Integer geometry helpers: signum, floor square root, Euclidean distance,
//! and the rounded vector scaling used to move a point a given step along the
//! direction to (or away from) another point.

use vstd::prelude::*;
use crate::conf::{COORD_LIMIT, STEP_MAX};
use crate::geometry::WorldPos;

verus! {

/// Mathematical signum.
pub open spec fn sign(x: int) -> int {
    if x > 0 {
        1
    } else if x < 0 {
        -1
    } else {
        0
    }
}

/// Mathematical absolute value.
pub open spec fn abs_val(x: int) -> int {
    if x < 0 {
        -x
    } else {
        x
    }
}

/// Returns `0` for zero, `1` for a positive value and `-1` for a negative
/// value.
pub fn sign_i8(v: i64) -> (r: i8)
    ensures
        r as int == sign(v as int),
{
    if v > 0 {
        1
    } else if v < 0 {
        -1
    } else {
        0
    }
}

/// Floor of the square root, defined by primitive recursion.
pub open spec fn sqrt_floor(n: nat) -> nat
    decreases n,
{
    if n == 0 {
        0
    } else {
        let s = sqrt_floor((n - 1) as nat);
        if (s + 1) * (s + 1) <= n {
            s + 1
        } else {
            s
        }
    }
}

/// `sqrt_floor(n)` squares to at most `n`, and the next integer squares past
/// it.
pub proof fn lemma_sqrt_floor_bounds(n: nat)
    ensures
        sqrt_floor(n) * sqrt_floor(n) <= n,
        n < (sqrt_floor(n) + 1) * (sqrt_floor(n) + 1),
    decreases n,
{
    if n == 0 {
        assert(sqrt_floor(n) == 0);
        assert(sqrt_floor(n) * sqrt_floor(n) <= n) by (nonlinear_arith)
            requires
                sqrt_floor(n) == 0,
                n == 0,
        ;
        assert(n < (sqrt_floor(n) + 1) * (sqrt_floor(n) + 1)) by (nonlinear_arith)
            requires
                sqrt_floor(n) == 0,
                n == 0,
        ;
    } else {
        let m = (n - 1) as nat;
        lemma_sqrt_floor_bounds(m);
        let s0 = sqrt_floor(m);
        assert(s0 * s0 <= m);
        assert(m < (s0 + 1) * (s0 + 1));
        if (s0 + 1) * (s0 + 1) <= n {
            assert(sqrt_floor(n) == s0 + 1);
            assert(n <= (s0 + 1) * (s0 + 1));
            assert((s0 + 1) * (s0 + 1) < (s0 + 2) * (s0 + 2)) by (nonlinear_arith);
            assert(n < (s0 + 2) * (s0 + 2));
        } else {
            assert(sqrt_floor(n) == s0);
            assert(s0 * s0 <= n);
            assert(n < (s0 + 1) * (s0 + 1));
        }
        assert(sqrt_floor(n) * sqrt_floor(n) <= n);
        assert(n < (sqrt_floor(n) + 1) * (sqrt_floor(n) + 1));
    }
}

/// Any integer whose square brackets `n` is the floor square root of `n`.
pub proof fn lemma_sqrt_floor_unique(n: nat, r: nat)
    requires
        r * r <= n,
        n < (r + 1) * (r + 1),
    ensures
        r == sqrt_floor(n),
{
    lemma_sqrt_floor_bounds(n);
    let s = sqrt_floor(n);
    if r < s {
        assert((r + 1) * (r + 1) <= s * s) by (nonlinear_arith)
            requires
                r + 1 <= s,
        ;
        assert(false);
    }
    if s < r {
        assert((s + 1) * (s + 1) <= r * r) by (nonlinear_arith)
            requires
                s + 1 <= r,
        ;
        assert(false);
    }
}

/// Larger numbers never have a smaller floor square root.
pub proof fn lemma_sqrt_floor_monotone(a: nat, b: nat)
    requires
        a <= b,
    ensures
        sqrt_floor(a) <= sqrt_floor(b),
{
    lemma_sqrt_floor_bounds(a);
    lemma_sqrt_floor_bounds(b);
    let sa = sqrt_floor(a);
    let sb = sqrt_floor(b);
    if sb < sa {
        assert((sb + 1) * (sb + 1) <= sa * sa) by (nonlinear_arith)
            requires
                sb + 1 <= sa,
        ;
        assert(false);
    }
}

/// Integer square root by binary search.
pub fn isqrt(n: u64) -> (r: u64)
    ensures
        r == sqrt_floor(n as nat),
        r * r <= n,
        n < (r + 1) * (r + 1),
        r <= 0xFFFF_FFFF,
{
    let mut lo: u64 = 0;
    let mut hi: u64 = if n < 0xFFFF_FFFF {
        n
    } else {
        0xFFFF_FFFF
    };
    proof {
        assert(n < (hi + 1) * (hi + 1)) by (nonlinear_arith)
            requires
                hi == if n < 0xFFFF_FFFF {
                    n as int
                } else {
                    0xFFFF_FFFF
                },
                n <= 0xFFFF_FFFF_FFFF_FFFF,
        ;
    }
    while lo < hi
        invariant
            lo <= hi <= 0xFFFF_FFFF,
            lo * lo <= n,
            n < (hi + 1) * (hi + 1),
        decreases hi - lo,
    {
        let mid = lo + (hi - lo + 1) / 2;
        proof {
            assert(mid * mid <= 0xFFFF_FFFF_FFFF_FFFF) by (nonlinear_arith)
                requires
                    0 <= mid <= 0xFFFF_FFFF,
            ;
        }
        if mid * mid <= n {
            lo = mid;
        } else {
            hi = mid - 1;
        }
    }
    proof {
        lemma_sqrt_floor_unique(n as nat, lo as nat);
    }
    lo
}

/// Squared Euclidean distance between two points.
pub open spec fn dist_sq(x1: int, y1: int, x2: int, y2: int) -> int {
    (x2 - x1) * (x2 - x1) + (y2 - y1) * (y2 - y1)
}

/// The squared distance is never negative.
pub proof fn lemma_dist_sq_nonneg(x1: int, y1: int, x2: int, y2: int)
    ensures
        dist_sq(x1, y1, x2, y2) >= 0,
{
    assert((x2 - x1) * (x2 - x1) >= 0) by (nonlinear_arith);
    assert((y2 - y1) * (y2 - y1) >= 0) by (nonlinear_arith);
}

/// Squared Euclidean distance, computed exactly.
pub fn dist_sq64(p1: &WorldPos, p2: &WorldPos) -> (r: u64)
    requires
        -COORD_LIMIT <= p1.x <= COORD_LIMIT,
        -COORD_LIMIT <= p1.y <= COORD_LIMIT,
        -COORD_LIMIT <= p2.x <= COORD_LIMIT,
        -COORD_LIMIT <= p2.y <= COORD_LIMIT,
    ensures
        r == dist_sq(p1.x as int, p1.y as int, p2.x as int, p2.y as int),
{
    let dx: i64 = p2.x - p1.x;
    let dy: i64 = p2.y - p1.y;
    proof {
        assert(dx * dx <= 0x4000_0000_0000_0000 && dx * dx >= 0 && dy * dy
            <= 0x4000_0000_0000_0000 && dy * dy >= 0) by (nonlinear_arith)
            requires
                -2 * COORD_LIMIT <= dx <= 2 * COORD_LIMIT,
                -2 * COORD_LIMIT <= dy <= 2 * COORD_LIMIT,
                COORD_LIMIT == 0x4000_0000,
        ;
    }
    (dx * dx) as u64 + (dy * dy) as u64
}

/// Truncated Euclidean distance between two points.
pub open spec fn dist(x1: int, y1: int, x2: int, y2: int) -> int {
    sqrt_floor(dist_sq(x1, y1, x2, y2) as nat) as int
}

/// Finds the distance between two points, as the floor of the Euclidean
/// distance.
pub fn distance(p1: &WorldPos, p2: &WorldPos) -> (r: i64)
    requires
        -COORD_LIMIT <= p1.x <= COORD_LIMIT,
        -COORD_LIMIT <= p1.y <= COORD_LIMIT,
        -COORD_LIMIT <= p2.x <= COORD_LIMIT,
        -COORD_LIMIT <= p2.y <= COORD_LIMIT,
    ensures
        r == dist(p1.x as int, p1.y as int, p2.x as int, p2.y as int),
        0 <= r <= 0x1_0000_0000,
{
    let d2 = dist_sq64(p1, p2);
    let s = isqrt(d2);
    proof {
        assert(sqrt_floor(d2 as nat) <= 0x1_0000_0000) by {
            if sqrt_floor(d2 as nat) > 0x1_0000_0000 {
                lemma_sqrt_floor_bounds(d2 as nat);
                assert(0x1_0000_0001 * 0x1_0000_0001 <= sqrt_floor(d2 as nat) * sqrt_floor(
                    d2 as nat,
                )) by (nonlinear_arith)
                    requires
                        0x1_0000_0001 <= sqrt_floor(d2 as nat),
                ;
            }
        }
    }
    s as i64
}

/// `scale_round(d, t, s)` is `d * t / s` rounded to the nearest integer
/// (half away from zero), the integer image of projecting the component `d`
/// of a vector of length `s` onto a step of length `t`.
pub open spec fn scale_round(d: int, t: int, s: int) -> int
    recommends
        s >= 1,
        t >= 0,
{
    if d >= 0 {
        (2 * d * t + s) / (2 * s)
    } else {
        -((2 * (-d) * t + s) / (2 * s))
    }
}

/// The scaled component keeps the sign of `d` and, for `t <= s`, never
/// exceeds `d` in magnitude.
pub proof fn lemma_scale_round_bounds(d: int, t: int, s: int)
    requires
        s >= 1,
        0 <= t <= s,
    ensures
        abs_val(scale_round(d, t, s)) <= abs_val(d),
        sign(scale_round(d, t, s)) == sign(d) || scale_round(d, t, s) == 0,
{
    let m = abs_val(d);
    let q = (2 * m * t + s) / (2 * s);
    assert(0 <= q <= m) by (nonlinear_arith)
        requires
            m >= 0,
            0 <= t <= s,
            s >= 1,
            q == (2 * m * t + s) / (2 * s),
    ;
    if d >= 0 {
        assert(scale_round(d, t, s) == q);
    } else {
        assert(scale_round(d, t, s) == -q);
    }
}

/// Rounded scaling of one vector component, computed exactly.
pub fn scale_round64(d: i64, t: i64, s: i64) -> (r: i64)
    requires
        1 <= s <= 0x1_0000_0000,
        0 <= t <= STEP_MAX,
        -2 * COORD_LIMIT <= d <= 2 * COORD_LIMIT,
    ensures
        r == scale_round(d as int, t as int, s as int),
{
    let mag: i64 = if d < 0 {
        -d
    } else {
        d
    };
    proof {
        assert(2 * mag * t + s <= 0x7FFF_FFFF_FFFF_FFFF && 2 * mag * t >= 0) by (nonlinear_arith)
            requires
                0 <= mag <= 2 * COORD_LIMIT,
                COORD_LIMIT == 0x4000_0000,
                0 <= t <= STEP_MAX,
                STEP_MAX == 0x100_0000,
                1 <= s <= 0x1_0000_0000,
        ;
    }
    let q = (2 * mag * t + s) / (2 * s);
    proof {
        assert(q >= 0 && q == (2 * (mag as int) * t + s) / (2 * s)) by (nonlinear_arith)
            requires
                q == (2 * mag * t + s) / (2 * s),
                2 * mag * t + s >= 0,
                s >= 1,
        ;
    }
    if d < 0 {
        -q
    } else {
        q
    }
}



/// Each component of a vector is at most the floor of the vector's length.
pub proof fn lemma_component_le_sqrt(dx: int, dy: int)
    ensures
        abs_val(dx) <= sqrt_floor((dx * dx + dy * dy) as nat),
        dx * dx + dy * dy >= 0,
{
    let ax = abs_val(dx);
    let d2 = dx * dx + dy * dy;
    assert(ax * ax == dx * dx && 0 <= dx * dx && 0 <= dy * dy && dx * dx <= d2 && dx * dx < (ax + 1)
        * (ax + 1)) by (nonlinear_arith)
        requires
            ax == (if dx < 0 {
                -dx
            } else {
                dx
            }),
            d2 == dx * dx + dy * dy,
    ;
    lemma_sqrt_floor_unique((dx * dx) as nat, ax as nat);
    lemma_sqrt_floor_monotone((dx * dx) as nat, d2 as nat);
}

/// The x component of pushing a point one step directly away from another:
/// the rounded projection of the step onto the direction from the other
/// point to this one, or the whole step along the x axis when the points
/// coincide.
pub open spec fn nudge_x(ox: int, oy: int, tx: int, ty: int, step: int) -> int {
    let dx = ox - tx;
    let dy = oy - ty;
    let d2 = dx * dx + dy * dy;
    if d2 == 0 {
        step
    } else {
        scale_round(dx, step, sqrt_floor(d2 as nat) as int)
    }
}

/// The y component of pushing a point one step directly away from another.
pub open spec fn nudge_y(ox: int, oy: int, tx: int, ty: int, step: int) -> int {
    let dx = ox - tx;
    let dy = oy - ty;
    let d2 = dx * dx + dy * dy;
    if d2 == 0 {
        0
    } else {
        scale_round(dy, step, sqrt_floor(d2 as nat) as int)
    }
}

/// A component no longer than the vector scales to at most the step.
pub proof fn lemma_scale_round_within(d: int, t: int, s: int)
    requires
        s >= 1,
        t >= 0,
        -s <= d <= s,
    ensures
        -t <= scale_round(d, t, s) <= t,
{
    let m = abs_val(d);
    let q = (2 * m * t + s) / (2 * s);
    assert(0 <= q <= t) by (nonlinear_arith)
        requires
            0 <= m <= s,
            t >= 0,
            s >= 1,
            q == (2 * m * t + s) / (2 * s),
    ;
}

/// The nudge components stay within the step and point away from the other
/// point.
pub proof fn lemma_nudge_bounds(ox: int, oy: int, tx: int, ty: int, step: int)
    requires
        step >= 0,
    ensures
        -step <= nudge_x(ox, oy, tx, ty, step) <= step,
        -step <= nudge_y(ox, oy, tx, ty, step) <= step,
{
    let dx = ox - tx;
    let dy = oy - ty;
    let d2 = dx * dx + dy * dy;
    lemma_component_le_sqrt(dx, dy);
    lemma_component_le_sqrt(dy, dx);
    assert(dy * dy + dx * dx == d2);
    if d2 != 0 {
        let s = sqrt_floor(d2 as nat) as int;
        lemma_sqrt_floor_bounds(d2 as nat);
        if s == 0 {
            assert(d2 < (s + 1) * (s + 1));
            assert(d2 < 1) by (nonlinear_arith)
                requires
                    s == 0,
                    d2 < (s + 1) * (s + 1),
            ;
            assert(false);
        }
        lemma_scale_round_within(dx, step, s);
        lemma_scale_round_within(dy, step, s);
    }
}

/// Pushes a point one step directly away from another point, as a velocity
/// delta.
pub fn away_nudge(origin: &WorldPos, dest: &WorldPos, step: i64) -> (r: (i64, i64))
    requires
        -COORD_LIMIT <= origin.x <= COORD_LIMIT,
        -COORD_LIMIT <= origin.y <= COORD_LIMIT,
        -COORD_LIMIT <= dest.x <= COORD_LIMIT,
        -COORD_LIMIT <= dest.y <= COORD_LIMIT,
        0 <= step <= STEP_MAX,
    ensures
        r.0 == nudge_x(origin.x as int, origin.y as int, dest.x as int, dest.y as int, step as int),
        r.1 == nudge_y(origin.x as int, origin.y as int, dest.x as int, dest.y as int, step as int),
        -step <= r.0 <= step,
        -step <= r.1 <= step,
{
    proof {
        lemma_nudge_bounds(
            origin.x as int,
            origin.y as int,
            dest.x as int,
            dest.y as int,
            step as int,
        );
    }
    let d2 = dist_sq64(dest, origin);
    if d2 == 0 {
        (step, 0)
    } else {
        let s = isqrt(d2);
        proof {
            lemma_sqrt_floor_bounds(d2 as nat);
            if s == 0 {
                assert(d2 < 1) by (nonlinear_arith)
                    requires
                        s == 0,
                        d2 < (s + 1) * (s + 1),
                ;
                assert(false);
            }
        }
        let nx = scale_round64(origin.x - dest.x, step, s as i64);
        let ny = scale_round64(origin.y - dest.y, step, s as i64);
        (nx, ny)
    }
}

} // verus!
