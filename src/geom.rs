//! Fixed-point plane geometry: vectors, poses, and the tangential projection
//! that the mover slides along.
//!
//! Lengths are integer millionths of a world unit; a unit normal has length
//! `SCALE`; a time fraction of one whole tick is `SCALE`.
use vstd::prelude::*;
use vstd::arithmetic::div_mod::{lemma_div_is_ordered, lemma_div_multiples_vanish, lemma_div_pos_is_pos};

verus! {

/// One world unit, one whole tick, and the length of a unit normal.
pub const SCALE: i64 = 1_000_000;

/// Contact depth tolerance (1e-6 world units).
pub const EPSILON: i64 = 1;

/// Largest magnitude of a stored coordinate or angle.
pub const POS_LIMIT: i64 = 4_503_599_627_370_496;

/// Largest magnitude of a velocity component handed to the mover.
pub const VEL_LIMIT: i64 = 17_592_186_044_416;

/// Largest magnitude of a contact normal component.
pub const NORMAL_LIMIT: i64 = 16_777_216;

/// Largest magnitude of a contact depth.
pub const DEPTH_LIMIT: i64 = 17_592_186_044_416;

#[derive(Clone, Copy, Debug, PartialEq, Eq, Structural)]
pub struct Vec2 {
    pub x: i64,
    pub y: i64,
}

#[derive(Clone, Copy, Debug, PartialEq, Eq, Structural)]
pub struct Pose {
    pub pos: Vec2,
    pub angle: i64,
}

pub open spec fn abs(a: int) -> int {
    if a < 0 { -a } else { a }
}

/// Division rounding toward zero.
pub open spec fn div_trunc(a: int, b: int) -> int {
    if a >= 0 { a / b } else { -((-a) / b) }
}

pub open spec fn within(a: int, bound: int) -> bool {
    -bound <= a <= bound
}

pub open spec fn vec_within(v: Vec2, bound: int) -> bool {
    within(v.x as int, bound) && within(v.y as int, bound)
}

pub open spec fn pose_in_range(p: Pose) -> bool {
    vec_within(p.pos, POS_LIMIT as int) && within(p.angle as int, POS_LIMIT as int)
}

pub open spec fn dot(a: Vec2, b: Vec2) -> int {
    a.x * b.x + a.y * b.y
}

pub open spec fn norm_sq(a: Vec2) -> int {
    dot(a, a)
}

/// The tangent of normal `n` is `(n.y, -n.x)`.
pub open spec fn tangent(n: Vec2) -> Vec2 {
    Vec2 { x: n.y, y: (-n.x) as i64 }
}

/// Speed of `v` along the tangent of `n`, times the length of `n`.
pub open spec fn tdot(n: Vec2, v: Vec2) -> int {
    n.y * v.x - n.x * v.y
}

/// One coordinate of the projection of `v` onto the tangent of `n`, where
/// `tc` is that coordinate of the tangent.
pub open spec fn proj_coord(n: Vec2, tc: int, v: Vec2) -> int {
    if norm_sq(n) == 0 { 0 } else { div_trunc(tc * tdot(n, v), norm_sq(n)) }
}

/// The projection of `v` onto the tangent of `n`, each coordinate rounded
/// toward zero.
pub open spec fn slide(n: Vec2, v: Vec2) -> Vec2 {
    Vec2 { x: proj_coord(n, n.y as int, v) as i64, y: proj_coord(n, -n.x, v) as i64 }
}

pub open spec fn zero_vec() -> Vec2 {
    Vec2 { x: 0, y: 0 }
}

/// `v` advanced along `vel` for the fraction `t` of a tick.
pub open spec fn advance_coord(p: int, vel: int, t: int) -> int {
    p + div_trunc(vel * t, SCALE as int)
}

pub open spec fn advanced(p: Vec2, vel: Vec2, t: int) -> Vec2 {
    Vec2 { x: advance_coord(p.x as int, vel.x as int, t) as i64, y: advance_coord(p.y as int, vel.y as int, t) as i64 }
}

pub proof fn lemma_div_bound(a: int, b: int, c: int)
    requires
        0 <= a <= c * b,
        0 < b,
    ensures
        0 <= a / b <= c,
{
    lemma_div_is_ordered(a, c * b, b);
    assert(c * b == b * c) by (nonlinear_arith);
    lemma_div_multiples_vanish(c, b);
    lemma_div_pos_is_pos(a, b);
}

pub proof fn lemma_div_trunc_bound(a: int, b: int, c: int)
    requires
        abs(a) <= c * b,
        0 < b,
    ensures
        abs(div_trunc(a, b)) <= c,
{
    if a >= 0 {
        lemma_div_bound(a, b, c);
    } else {
        lemma_div_bound(-a, b, c);
    }
}

proof fn lemma_cross_term(a: int, b: int)
    ensures
        2 * abs(a) * abs(b) <= a * a + b * b,
{
    let p = abs(a);
    let q = abs(b);
    assert(p * p == a * a) by (nonlinear_arith)
        requires p == a || p == -a;
    assert(q * q == b * b) by (nonlinear_arith)
        requires q == b || q == -b;
    assert((p - q) * (p - q) >= 0) by (nonlinear_arith);
    assert((p - q) * (p - q) == p * p - 2 * p * q + q * q) by (nonlinear_arith);
}

/// A tangent coordinate times the tangential speed is at most twice the
/// squared normal length times the speed bound.
proof fn lemma_proj_numerator(n: Vec2, tc: int, v: Vec2, m: int)
    requires
        tc == n.y || tc == -n.x,
        vec_within(v, m),
    ensures
        abs(tc * tdot(n, v)) <= 2 * norm_sq(n) * m,
{
    let a = n.x as int;
    let b = n.y as int;
    let k = tdot(n, v);
    lemma_cross_term(a, b);
    assert(abs(b * (v.x as int)) <= abs(b) * m) by (nonlinear_arith)
        requires within(v.x as int, m), abs(b) == b || abs(b) == -b;
    assert(abs(a * (v.y as int)) <= abs(a) * m) by (nonlinear_arith)
        requires within(v.y as int, m), abs(a) == a || abs(a) == -a;
    assert(abs(k) <= abs(a) * m + abs(b) * m);
    assert(abs(tc) == abs(a) || abs(tc) == abs(b));
    assert(abs(tc * k) == abs(tc) * abs(k)) by (nonlinear_arith)
        requires
            abs(tc) == tc || abs(tc) == -tc,
            abs(k) == k || abs(k) == -k,
            abs(tc * k) == tc * k || abs(tc * k) == -(tc * k);
    assert(abs(tc) * abs(k) <= abs(tc) * (abs(a) * m + abs(b) * m)) by (nonlinear_arith)
        requires abs(k) <= abs(a) * m + abs(b) * m, abs(tc) >= 0;
    assert(abs(a) * abs(a) == a * a && abs(b) * abs(b) == b * b) by (nonlinear_arith)
        requires abs(a) == a || abs(a) == -a, abs(b) == b || abs(b) == -b;
    assert(abs(tc) * (abs(a) * m + abs(b) * m) <= 2 * (a * a + b * b) * m) by (nonlinear_arith)
        requires
            abs(tc) == abs(a) || abs(tc) == abs(b),
            2 * abs(a) * abs(b) <= a * a + b * b,
            abs(a) * abs(a) == a * a,
            abs(b) * abs(b) == b * b,
            m >= 0,
            abs(a) >= 0,
            abs(b) >= 0;
}

/// Each coordinate of a projection is at most twice the speed bound.
pub proof fn lemma_slide_bound(n: Vec2, v: Vec2, m: int)
    requires
        vec_within(v, m),
        m >= 0,
    ensures
        abs(proj_coord(n, n.y as int, v)) <= 2 * m,
        abs(proj_coord(n, -n.x, v)) <= 2 * m,
{
    assert(norm_sq(n) >= 0) by (nonlinear_arith)
        requires norm_sq(n) == (n.x as int) * (n.x as int) + (n.y as int) * (n.y as int);
    if norm_sq(n) != 0 {
        lemma_proj_numerator(n, n.y as int, v, m);
        lemma_proj_numerator(n, -n.x, v, m);
        assert(2 * norm_sq(n) * m == (2 * m) * norm_sq(n)) by (nonlinear_arith);
        lemma_div_trunc_bound(n.y * tdot(n, v), norm_sq(n), 2 * m);
        lemma_div_trunc_bound(-n.x * tdot(n, v), norm_sq(n), 2 * m);
    }
}

/// Rounds `a / b` toward zero.
pub fn div_toward_zero(a: i128, b: i128) -> (r: i128)
    requires
        b > 0,
        a > i128::MIN,
    ensures
        r == div_trunc(a as int, b as int),
{
    if a >= 0 {
        ((a as u128) / (b as u128)) as i128
    } else {
        let m: u128 = (-a) as u128;
        let q: u128 = m / (b as u128);
        assert(q <= m) by {
            assert(m as int <= (m as int) * (b as int)) by (nonlinear_arith)
                requires b >= 1;
            lemma_div_bound(m as int, b as int, m as int);
        };
        -(q as i128)
    }
}

/// Speed of `v` along the tangent of `n`, times the length of `n`.
pub fn tangential_speed(n: Vec2, v: Vec2) -> (r: i128)
    requires
        vec_within(n, NORMAL_LIMIT as int),
        vec_within(v, 2 * VEL_LIMIT),
    ensures
        r == tdot(n, v),
        within(r as int, 4 * NORMAL_LIMIT * VEL_LIMIT),
{
    assert(within((n.y as int) * (v.x as int), 2 * NORMAL_LIMIT * VEL_LIMIT)) by (nonlinear_arith)
        requires within(n.y as int, NORMAL_LIMIT as int), within(v.x as int, 2 * VEL_LIMIT);
    assert(within((n.x as int) * (v.y as int), 2 * NORMAL_LIMIT * VEL_LIMIT)) by (nonlinear_arith)
        requires within(n.x as int, NORMAL_LIMIT as int), within(v.y as int, 2 * VEL_LIMIT);
    (n.y as i128) * (v.x as i128) - (n.x as i128) * (v.y as i128)
}

/// Speed of `v` along `n`, times the length of `n`.
pub fn normal_speed(n: Vec2, v: Vec2) -> (r: i128)
    requires
        vec_within(n, NORMAL_LIMIT as int),
        vec_within(v, 2 * VEL_LIMIT),
    ensures
        r == dot(n, v),
{
    assert(within((n.x as int) * (v.x as int), 2 * NORMAL_LIMIT * VEL_LIMIT)) by (nonlinear_arith)
        requires within(n.x as int, NORMAL_LIMIT as int), within(v.x as int, 2 * VEL_LIMIT);
    assert(within((n.y as int) * (v.y as int), 2 * NORMAL_LIMIT * VEL_LIMIT)) by (nonlinear_arith)
        requires within(n.y as int, NORMAL_LIMIT as int), within(v.y as int, 2 * VEL_LIMIT);
    (n.x as i128) * (v.x as i128) + (n.y as i128) * (v.y as i128)
}

/// Squared length of `v`.
pub fn length_sq(v: Vec2) -> (r: i128)
    requires
        vec_within(v, 2 * VEL_LIMIT),
    ensures
        r == norm_sq(v),
{
    assert(0 <= (v.x as int) * (v.x as int) <= 4 * VEL_LIMIT * VEL_LIMIT) by (nonlinear_arith)
        requires within(v.x as int, 2 * VEL_LIMIT);
    assert(0 <= (v.y as int) * (v.y as int) <= 4 * VEL_LIMIT * VEL_LIMIT) by (nonlinear_arith)
        requires within(v.y as int, 2 * VEL_LIMIT);
    (v.x as i128) * (v.x as i128) + (v.y as i128) * (v.y as i128)
}

/// The projection of `v` onto the tangent of `n`.
pub fn slide_along(n: Vec2, v: Vec2) -> (r: Vec2)
    requires
        vec_within(n, NORMAL_LIMIT as int),
        vec_within(v, VEL_LIMIT as int),
    ensures
        r == slide(n, v),
        vec_within(r, 2 * VEL_LIMIT),
{
    proof {
        lemma_slide_bound(n, v, VEL_LIMIT as int);
    }
    assert(0 <= (n.x as int) * (n.x as int) <= NORMAL_LIMIT * NORMAL_LIMIT) by (nonlinear_arith)
        requires within(n.x as int, NORMAL_LIMIT as int);
    assert(0 <= (n.y as int) * (n.y as int) <= NORMAL_LIMIT * NORMAL_LIMIT) by (nonlinear_arith)
        requires within(n.y as int, NORMAL_LIMIT as int);
    let len_sq: i128 = (n.x as i128) * (n.x as i128) + (n.y as i128) * (n.y as i128);
    if len_sq == 0 {
        return Vec2 { x: 0, y: 0 };
    }
    let k: i128 = tangential_speed(n, v);
    assert(within((n.y as int) * (k as int), 4 * NORMAL_LIMIT * NORMAL_LIMIT * VEL_LIMIT)) by (nonlinear_arith)
        requires within(n.y as int, NORMAL_LIMIT as int), within(k as int, 4 * NORMAL_LIMIT * VEL_LIMIT);
    assert(within((-(n.x as int)) * (k as int), 4 * NORMAL_LIMIT * NORMAL_LIMIT * VEL_LIMIT)) by (nonlinear_arith)
        requires within(n.x as int, NORMAL_LIMIT as int), within(k as int, 4 * NORMAL_LIMIT * VEL_LIMIT);
    let qx: i128 = div_toward_zero((n.y as i128) * k, len_sq);
    let qy: i128 = div_toward_zero(-(n.x as i128) * k, len_sq);
    Vec2 { x: qx as i64, y: qy as i64 }
}

/// `p` advanced along `vel` for the fraction `t` of a tick.
pub fn advance_by(p: Vec2, vel: Vec2, t: i64) -> (r: Vec2)
    requires
        vec_within(p, 2 * POS_LIMIT),
        vec_within(vel, 2 * VEL_LIMIT),
        0 <= t <= SCALE,
    ensures
        r == advanced(p, vel, t as int),
        within(r.x - p.x, 2 * VEL_LIMIT),
        within(r.y - p.y, 2 * VEL_LIMIT),
{
    assert(abs((vel.x as int) * (t as int)) <= 2 * VEL_LIMIT * SCALE) by (nonlinear_arith)
        requires within(vel.x as int, 2 * VEL_LIMIT), 0 <= t <= SCALE;
    assert(abs((vel.y as int) * (t as int)) <= 2 * VEL_LIMIT * SCALE) by (nonlinear_arith)
        requires within(vel.y as int, 2 * VEL_LIMIT), 0 <= t <= SCALE;
    let dx: i128 = div_toward_zero((vel.x as i128) * (t as i128), SCALE as i128);
    let dy: i128 = div_toward_zero((vel.y as i128) * (t as i128), SCALE as i128);
    proof {
        lemma_div_trunc_bound((vel.x as int) * (t as int), SCALE as int, 2 * VEL_LIMIT);
        lemma_div_trunc_bound((vel.y as int) * (t as int), SCALE as int, 2 * VEL_LIMIT);
    }
    Vec2 { x: p.x + dx as i64, y: p.y + dy as i64 }
}

} // verus!
