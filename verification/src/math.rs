//! Fixed-point plane geometry: the vector type, a verified integer square
//! root, and the pursuit-steering computation that points an enemy at the
//! target with a fixed speed.

use vstd::prelude::*;
use vstd::arithmetic::div_mod::lemma_div_is_ordered;
use vstd::arithmetic::div_mod::lemma_div_multiples_vanish;
use vstd::arithmetic::div_mod::lemma_div_of0;
use vstd::arithmetic::div_mod::lemma_div_pos_is_pos;
use vstd::arithmetic::mul::lemma_mul_inequality;

verus! {

/// Sub-units per world unit: every coordinate and speed is an integer count
/// of these sub-units.
pub const POS_SCALE: i64 = 1000;

/// Largest magnitude a coordinate may take; keeps squared distances and
/// scaled components inside `i64`/`u64` range.
pub const COORD_LIMIT: i64 = 1_000_000_000;

/// Largest speed, in sub-units per time unit, that steering accepts.
pub const SPEED_LIMIT: i64 = 1_000_000_000;

/// A plane vector in fixed-point sub-units.
#[derive(Clone, Copy, PartialEq, Eq, Structural, Debug)]
pub struct Vec2i {
    pub x: i64,
    pub y: i64,
}

/// Both coordinates lie within `COORD_LIMIT`.
pub open spec fn coord_ok(v: Vec2i) -> bool {
    &&& -COORD_LIMIT <= v.x <= COORD_LIMIT
    &&& -COORD_LIMIT <= v.y <= COORD_LIMIT
}

/// `r` is the floor of the square root of `n`.
pub open spec fn is_isqrt(n: int, r: int) -> bool {
    &&& 0 <= r
    &&& r * r <= n
    &&& n < (r + 1) * (r + 1)
}

/// The floor of the square root of a nonnegative `n`; pinned down by
/// `lemma_isqrt_exists` and `lemma_isqrt_unique`.
pub open spec fn sqrt_floor(n: int) -> int {
    choose|r: int| is_isqrt(n, r)
}

/// Every nonnegative integer has a floor square root.
pub proof fn lemma_isqrt_exists(n: int)
    requires
        n >= 0,
    ensures
        is_isqrt(n, sqrt_floor(n)),
    decreases n,
{
    if n == 0 {
        assert(is_isqrt(0, 0));
    } else {
        lemma_isqrt_exists(n - 1);
        let r = sqrt_floor(n - 1);
        if n < (r + 1) * (r + 1) {
            assert(is_isqrt(n, r));
        } else {
            assert(n == (r + 1) * (r + 1));
            assert((r + 1 + 1) * (r + 1 + 1) > n) by (nonlinear_arith)
                requires
                    n == (r + 1) * (r + 1),
                    r >= 0;
            assert(is_isqrt(n, r + 1));
        }
    }
}

/// The floor square root is unique.
pub proof fn lemma_isqrt_unique(n: int, a: int, b: int)
    requires
        is_isqrt(n, a),
        is_isqrt(n, b),
    ensures
        a == b,
{
    if a < b {
        assert((a + 1) * (a + 1) <= b * b) by (nonlinear_arith)
            requires
                0 <= a,
                a + 1 <= b;
        assert(false);
    }
    if b < a {
        assert((b + 1) * (b + 1) <= a * a) by (nonlinear_arith)
            requires
                0 <= b,
                b + 1 <= a;
        assert(false);
    }
}

/// Floor square root, by binary search.
pub fn isqrt(n: u64) -> (r: u64)
    ensures
        is_isqrt(n as int, r as int),
        r as int == sqrt_floor(n as int),
{
    let mut lo: u64 = 0;
    let mut hi: u64 = 0x1_0000_0000;
    assert((n as int) < 0x1_0000_0000 * 0x1_0000_0000);
    while lo + 1 < hi
        invariant
            lo < hi <= 0x1_0000_0000,
            (lo as int) * (lo as int) <= n as int,
            (n as int) < (hi as int) * (hi as int),
        decreases hi - lo,
    {
        let mid = lo + (hi - lo) / 2;
        assert(lo < mid < hi);
        assert((mid as int) * (mid as int) <= 0xFFFF_FFFF * 0xFFFF_FFFF) by (nonlinear_arith)
            requires
                0 <= mid as int <= 0xFFFF_FFFF;
        let sq = mid * mid;
        if sq <= n {
            lo = mid;
        } else {
            hi = mid;
        }
    }
    proof {
        assert(hi == lo + 1);
        assert(is_isqrt(n as int, lo as int));
        lemma_isqrt_exists(n as int);
        lemma_isqrt_unique(n as int, lo as int, sqrt_floor(n as int));
    }
    lo
}

/// One signed component of the pursuit velocity: the magnitude
/// `|d| * speed / l` carried back to the sign of `d`.
pub open spec fn scaled_component(d: int, speed: int, l: int) -> int {
    if d >= 0 {
        (d * speed) / l
    } else {
        -(((-d) * speed) / l)
    }
}

/// The steering output: the offset from `from` to `to`, normalized by the
/// floor square root of its squared length and scaled by `speed`; the zero
/// vector when the two positions coincide (degenerate geometry is answered
/// with "stand still" rather than an undefined direction).
pub open spec fn pursuit_spec(from: Vec2i, to: Vec2i, speed: i64) -> Vec2i {
    let dx = to.x - from.x;
    let dy = to.y - from.y;
    if dx == 0 && dy == 0 {
        Vec2i { x: 0, y: 0 }
    } else {
        let l = sqrt_floor(dx * dx + dy * dy);
        Vec2i {
            x: scaled_component(dx, speed as int, l) as i64,
            y: scaled_component(dy, speed as int, l) as i64,
        }
    }
}

/// Velocity that steers an actor at `from` toward `to` at `speed` sub-units
/// per time unit.
pub fn pursuit_velocity(from: Vec2i, to: Vec2i, speed: i64) -> (v: Vec2i)
    requires
        coord_ok(from),
        coord_ok(to),
        0 <= speed <= SPEED_LIMIT,
    ensures
        v == pursuit_spec(from, to, speed),
{
    let dx = to.x - from.x;
    let dy = to.y - from.y;
    if dx == 0 && dy == 0 {
        return Vec2i { x: 0, y: 0 };
    }
    let ax: u64 = if dx < 0 { (-dx) as u64 } else { dx as u64 };
    let ay: u64 = if dy < 0 { (-dy) as u64 } else { dy as u64 };
    assert(ax as int * ax as int <= 4_000_000_000_000_000_000) by (nonlinear_arith)
        requires
            0 <= ax as int <= 2_000_000_000;
    assert(ay as int * ay as int <= 4_000_000_000_000_000_000) by (nonlinear_arith)
        requires
            0 <= ay as int <= 2_000_000_000;
    let d2 = ax * ax + ay * ay;
    assert(d2 as int == dx * dx + dy * dy) by (nonlinear_arith)
        requires
            ax as int == if dx < 0 { -(dx as int) } else { dx as int },
            ay as int == if dy < 0 { -(dy as int) } else { dy as int },
            d2 as int == ax as int * ax as int + ay as int * ay as int;
    let l = isqrt(d2);
    proof {
        if l == 0 {
            assert((l as int + 1) * (l as int + 1) == 1) by (nonlinear_arith)
                requires
                    l as int == 0;
            assert(d2 as int >= 1) by (nonlinear_arith)
                requires
                    d2 as int == ax as int * ax as int + ay as int * ay as int,
                    ax as int >= 1 || ay as int >= 1,
                    ax as int >= 0,
                    ay as int >= 0;
            assert(false);
        }
        assert(l as int <= 3_000_000_000) by (nonlinear_arith)
            requires
                l as int * l as int <= d2 as int,
                d2 as int <= 8_000_000_000_000_000_000,
                l as int >= 0;
    }
    assert(ax as int * speed as int <= 2_000_000_000_000_000_000) by (nonlinear_arith)
        requires
            0 <= ax as int <= 2_000_000_000,
            0 <= speed as int <= 1_000_000_000;
    assert(ay as int * speed as int <= 2_000_000_000_000_000_000) by (nonlinear_arith)
        requires
            0 <= ay as int <= 2_000_000_000,
            0 <= speed as int <= 1_000_000_000;
    let qx = (ax * (speed as u64)) / l;
    let qy = (ay * (speed as u64)) / l;
    proof {
        vstd::arithmetic::div_mod::lemma_div_nonincreasing(ax as int * speed as int, l as int);
        vstd::arithmetic::div_mod::lemma_div_pos_is_pos(ax as int * speed as int, l as int);
        vstd::arithmetic::div_mod::lemma_div_nonincreasing(ay as int * speed as int, l as int);
        vstd::arithmetic::div_mod::lemma_div_pos_is_pos(ay as int * speed as int, l as int);
    }
    let vx: i64 = if dx < 0 { -(qx as i64) } else { qx as i64 };
    let vy: i64 = if dy < 0 { -(qy as i64) } else { qy as i64 };
    proof {
        lemma_isqrt_exists(dx * dx + dy * dy);
        lemma_isqrt_unique(dx * dx + dy * dy, l as int, sqrt_floor(dx * dx + dy * dy));
        assert(vx as int == scaled_component(dx as int, speed as int, l as int));
        assert(vy as int == scaled_component(dy as int, speed as int, l as int));
    }
    Vec2i { x: vx, y: vy }
}

/// The steering output always points toward the target and never exceeds
/// the commanded speed: each component has the sign of the corresponding
/// offset, its magnitude is at most `speed`, and a component is zero
/// exactly where the offset is.
pub proof fn lemma_pursuit_component_bounds(from: Vec2i, to: Vec2i, speed: i64)
    requires
        coord_ok(from),
        coord_ok(to),
        0 <= speed <= SPEED_LIMIT,
    ensures
        ({
            let v = pursuit_spec(from, to, speed);
            let dx = to.x - from.x;
            let dy = to.y - from.y;
            &&& -speed <= v.x <= speed
            &&& -speed <= v.y <= speed
            &&& (dx > 0 ==> v.x >= 0) && (dx < 0 ==> v.x <= 0) && (dx == 0 ==> v.x == 0)
            &&& (dy > 0 ==> v.y >= 0) && (dy < 0 ==> v.y <= 0) && (dy == 0 ==> v.y == 0)
        }),
{
    let dx = to.x - from.x;
    let dy = to.y - from.y;
    if dx == 0 && dy == 0 {
    } else {
        let d2 = dx * dx + dy * dy;
        assert(d2 >= 1 && dx * dx <= d2 && dy * dy <= d2) by (nonlinear_arith)
            requires
                d2 == dx * dx + dy * dy,
                dx != 0 || dy != 0;
        lemma_isqrt_exists(d2);
        let l = sqrt_floor(d2);
        assert(l >= 1) by (nonlinear_arith)
            requires
                is_isqrt(d2, l),
                d2 >= 1;
        let ax = if dx >= 0 { dx as int } else { -(dx as int) };
        let ay = if dy >= 0 { dy as int } else { -(dy as int) };
        assert(ax <= l && ay <= l) by (nonlinear_arith)
            requires
                is_isqrt(d2, l),
                dx * dx <= d2,
                dy * dy <= d2,
                ax == if dx >= 0 { dx as int } else { -(dx as int) },
                ay == if dy >= 0 { dy as int } else { -(dy as int) };
        lemma_mul_inequality(ax, l, speed as int);
        lemma_mul_inequality(ay, l, speed as int);
        lemma_div_is_ordered(ax * speed, l * speed, l);
        lemma_div_is_ordered(ay * speed, l * speed, l);
        lemma_div_multiples_vanish(speed as int, l);
        assert(l * speed == speed * l) by (nonlinear_arith);
        lemma_div_pos_is_pos(ax * speed, l);
        lemma_div_pos_is_pos(ay * speed, l);
        lemma_div_of0(l);
        assert(0 <= (ax * speed) / l <= speed);
        assert(0 <= (ay * speed) / l <= speed);
        let cx = scaled_component(dx as int, speed as int, l);
        let cy = scaled_component(dy as int, speed as int, l);
        assert(cx == if dx >= 0 { (ax * speed) / l } else { -((ax * speed) / l) });
        assert(cy == if dy >= 0 { (ay * speed) / l } else { -((ay * speed) / l) });
        assert(-speed <= cx <= speed);
        assert(-speed <= cy <= speed);
        assert(pursuit_spec(from, to, speed).x == cx as i64);
        assert(pursuit_spec(from, to, speed).y == cy as i64);
    }
}

/// When the offset to the target is axis-aligned, the steering output is
/// exactly `speed` along that axis: its magnitude equals `speed` with no
/// rounding at all.
pub proof fn lemma_pursuit_axis_speed(from: Vec2i, to: Vec2i, speed: i64)
    requires
        coord_ok(from),
        coord_ok(to),
        0 <= speed <= SPEED_LIMIT,
        to.y == from.y,
        to.x != from.x,
    ensures
        ({
            let v = pursuit_spec(from, to, speed);
            &&& (v.x == speed || v.x == -speed)
            &&& v.y == 0
            &&& v.x * v.x + v.y * v.y == speed * speed
        }),
{
    let dx = to.x - from.x;
    let a = if dx >= 0 { dx as int } else { -(dx as int) };
    assert(is_isqrt(dx * dx, a)) by (nonlinear_arith)
        requires
            a == if dx >= 0 { dx as int } else { -(dx as int) },
            dx != 0;
    lemma_isqrt_exists(dx * dx);
    lemma_isqrt_unique(dx * dx, a, sqrt_floor(dx * dx));
    lemma_div_multiples_vanish(speed as int, a);
    assert(a * speed == speed * a) by (nonlinear_arith);
    lemma_div_of0(a);
    let v = pursuit_spec(from, to, speed);
    assert(v.x == speed || v.x == -speed);
    assert(v.y == 0);
    assert(v.x * v.x == speed * speed) by (nonlinear_arith)
        requires
            v.x == speed || v.x == -speed;
}

} // verus!
