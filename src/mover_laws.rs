//! What a move guarantees, stated over the mover's own contracts.
use vstd::prelude::*;
use vstd::arithmetic::div_mod::{lemma_div_multiples_vanish, lemma_fundamental_div_mod, lemma_mod_pos_bound};
use crate::geom::{
    Pose, Vec2, SCALE, pose_in_range, EPSILON, VEL_LIMIT, abs, div_trunc, vec_within, dot,
    norm_sq, tdot, proj_coord, slide, zero_vec, advance_coord, advanced, lemma_slide_bound,
};
use crate::mover::{
    Contact, Mover, MoveError, MAX_STEPS, started, envelope, approach_pass, touching, keeps_moving,
};

verus! {

proof fn lemma_advance_whole_tick(p: int, vel: int)
    ensures
        advance_coord(p, vel, SCALE as int) == p + vel,
{
    lemma_div_multiples_vanish(vel, SCALE as int);
    lemma_div_multiples_vanish(-vel, SCALE as int);
    assert(vel * SCALE == SCALE * vel) by (nonlinear_arith);
    assert(-(vel * SCALE) == SCALE * (-vel)) by (nonlinear_arith);
}

proof fn lemma_still(n: Vec2)
    ensures
        dot(n, zero_vec()) == 0,
        norm_sq(zero_vec()) == 0,
        !keeps_moving(SCALE as int, zero_vec()),
{
    assert((n.x as int) * 0 == 0 && (n.y as int) * 0 == 0) by (nonlinear_arith);
}

proof fn lemma_slide_of_zero_speed(n: Vec2, v: Vec2)
    requires
        tdot(n, v) == 0,
    ensures
        slide(n, v) == zero_vec(),
{
    assert((n.y as int) * 0 == 0);
    assert((-n.x) * 0 == 0);
}

/// The pass never speeds up a velocity that is zero.
proof fn lemma_pass_of_rest(cs: Seq<Option<Contact>>, p: int, q: int, n: int)
    ensures
        approach_pass(cs, zero_vec(), p, q, n).vel == zero_vec(),
    decreases n,
{
    if n > 0 {
        lemma_pass_of_rest(cs, p, q, n - 1);
        match cs[n - 1] {
            Some(c) => lemma_slide_of_zero_speed(c.normal, zero_vec()),
            None => {},
        }
    }
}

/// An entity with no contacts moves by exactly its desired velocity and turns
/// by exactly its angular delta; nothing is left for the sweep.
pub proof fn lemma_free_move(pose: Pose, v: Vec2, va: int, m: Mover)
    requires
        started(pose, v, va, Seq::empty(), m),
        pose_in_range(pose),
        vec_within(v, VEL_LIMIT as int),
    ensures
        m.done,
        m.pose.pos.x == pose.pos.x + v.x,
        m.pose.pos.y == pose.pos.y + v.y,
        m.pose.angle == pose.angle + va,
{
    lemma_advance_whole_tick(pose.pos.x as int, v.x as int);
    lemma_advance_whole_tick(pose.pos.y as int, v.y as int);
}

/// A move with zero velocity and zero angular delta leaves the pose as it
/// was, whatever the contacts.
pub proof fn lemma_rest_keeps_pose(pose: Pose, cs: Seq<Option<Contact>>, m: Mover)
    requires
        started(pose, zero_vec(), 0, cs, m),
    ensures
        m.done,
        m.pose == pose,
{
    if cs.len() == 0 {
        lemma_advance_whole_tick(pose.pos.x as int, 0);
        lemma_advance_whole_tick(pose.pos.y as int, 0);
    } else {
        let (p, q) = envelope(cs, zero_vec(), cs.len() as int);
        lemma_pass_of_rest(cs, p, q, cs.len() as int);
    }
}

/// Pressing head-on into a wall that already touches yields no motion at all.
pub proof fn lemma_head_on_touching(pose: Pose, v: Vec2, va: int, c: Contact, m: Mover)
    requires
        started(pose, v, va, seq![Some(c)], m),
        touching(c),
        dot(c.normal, v) >= 0,
        tdot(c.normal, v) == 0,
    ensures
        m.done,
        m.pose.pos == pose.pos,
        m.vel == zero_vec(),
{
    let cs = seq![Some(c)];
    assert(envelope(cs, v, 0) == (0int, 0int));
    lemma_slide_of_zero_speed(c.normal, v);
    assert(approach_pass(cs, v, 0, 0, 0).vel == v);
    lemma_still(c.normal);
}

/// Moving head-on toward a separated wall: the sweep stops at the reported
/// time of impact and the remaining motion is zero.
pub proof fn lemma_head_on_sweep(
    pose: Pose,
    v: Vec2,
    va: int,
    c: Contact,
    m1: Mover,
    t: u64,
    r: Result<(), MoveError>,
    m2: Mover,
)
    requires
        started(pose, v, va, seq![Some(c)], m1),
        c.depth < -EPSILON,
        tdot(c.normal, v) == 0,
        !m1.done,
        t < SCALE,
        m1.stepped(seq![Some(t)], r, &m2),
    ensures
        r is Ok,
        m2.pose.pos == advanced(pose.pos, v, t as int),
        m2.vel == zero_vec(),
        m2.done,
{
    let cs = seq![Some(c)];
    assert(envelope(cs, v, 0) == (0int, 0int));
    assert(approach_pass(cs, v, 0, 0, 0).vel == v);
    assert(m1.exhausted@[0] == false);
    assert(m1.earliest(seq![Some(t)], 0) is None);
    assert(m1.hit(seq![Some(t)]) == Some((0int, t as int)));
    lemma_slide_of_zero_speed(c.normal, v);
    lemma_still(c.normal);
    assert(!keeps_moving(SCALE - t, zero_vec()));
}

/// Sliding into a wall at an angle: the trial velocity becomes the projection
/// of the desired velocity onto the wall's tangent, and with no other contact
/// the whole tick is spent sliding along it.
pub proof fn lemma_oblique_slide(
    pose: Pose,
    v: Vec2,
    va: int,
    c: Contact,
    m1: Mover,
    tois: Seq<Option<u64>>,
    r: Result<(), MoveError>,
    m2: Mover,
)
    requires
        started(pose, v, va, seq![Some(c)], m1),
        touching(c),
        dot(c.normal, v) > 0,
    ensures
        m1.vel == slide(c.normal, v),
        !m1.done && m1.stepped(tois, r, &m2) ==> {
            &&& r is Ok
            &&& m2.pose.pos == advanced(pose.pos, slide(c.normal, v), SCALE as int)
            &&& m2.done
        },
{
    let cs = seq![Some(c)];
    assert(envelope(cs, v, 0) == (0int, 0int));
    assert(approach_pass(cs, v, 0, 0, 0).vel == v);
    assert(approach_pass(cs, v, 0, 0, 0).deflect is None);
    if !m1.done && m1.stepped(tois, r, &m2) {
        assert(!m1.eligible(0));
        assert(m1.earliest(tois, 0) is None);
        assert(m1.hit(tois) is None);
    }
}

/// Two walls met in one pass with opposite slide directions (a concave
/// corner): the entity does not move.
pub proof fn lemma_corner_stops(pose: Pose, v: Vec2, va: int, c1: Contact, c2: Contact, m: Mover)
    requires
        started(pose, v, va, seq![Some(c1), Some(c2)], m),
        touching(c1),
        touching(c2),
        dot(c1.normal, v) >= 0,
        dot(c2.normal, slide(c1.normal, v)) >= 0,
        (tdot(c1.normal, v) < 0) != (tdot(c2.normal, v) < 0),
    ensures
        m.done,
        m.pose.pos == pose.pos,
        m.vel == zero_vec(),
{
    let cs = seq![Some(c1), Some(c2)];
    let (p, q) = envelope(cs, v, 2);
    assert(approach_pass(cs, v, p, q, 0).vel == v);
    let s1 = approach_pass(cs, v, p, q, 1);
    assert(s1.stopped ==> s1.vel == zero_vec());
    assert(!s1.stopped ==> s1.vel == slide(c1.normal, v) && s1.deflect == Some(tdot(c1.normal, v) < 0));
    lemma_still(c2.normal);
}

proof fn lemma_earliest_is_eligible(m: Mover, tois: Seq<Option<u64>>, n: int)
    requires
        0 <= n <= m.contacts@.len(),
    ensures
        m.earliest(tois, n) matches Some((i, t)) ==> {
            &&& 0 <= i < n
            &&& m.eligible(i)
            &&& i < tois.len() && tois[i] == Some(t as u64)
            &&& 0 <= t < m.remaining
        },
    decreases n,
{
    if n > 0 {
        lemma_earliest_is_eligible(m, tois, n - 1);
    }
}

/// The sweep's chosen hit: a contact not yet used up in this move, never one
/// that was already touching (those belong to the passes), with its reported
/// time of impact, before the end of the time that is left.
pub proof fn lemma_hit_is_fresh(m: Mover, tois: Seq<Option<u64>>)
    requires
        m.wf(),
    ensures
        m.hit(tois) matches Some((i, t)) ==> {
            &&& 0 <= i < m.contacts@.len()
            &&& !m.exhausted@[i]
            &&& (m.contacts@[i] matches Some(c) ==> !touching(c))
            &&& tois[i] == Some(t as u64)
            &&& 0 <= t < m.remaining
        },
{
    lemma_earliest_is_eligible(m, tois, m.contacts@.len() as int);
}

/// Each successful sweep step either finishes the move or takes one more
/// projection step, a contact once used stays used, and no move takes more
/// than `MAX_STEPS + 1` steps.
pub proof fn lemma_sweep_bounded(m1: Mover, tois: Seq<Option<u64>>, r: Result<(), MoveError>, m2: Mover)
    requires
        m1.wf(),
        !m1.done,
        m1.stepped(tois, r, &m2),
        m2.wf(),
        r is Ok,
    ensures
        m2.done || m2.steps == m1.steps + 1,
        m2.steps <= MAX_STEPS + 1,
        forall|i: int| 0 <= i < m1.exhausted@.len() && m1.exhausted@[i] ==> #[trigger] m2.exhausted@[i],
{
    lemma_hit_is_fresh(m1, tois);
}

/// Rounding error of truncating division.
proof fn lemma_div_trunc_error(a: int, b: int)
    requires
        b > 0,
    ensures
        abs(a - b * div_trunc(a, b)) < b,
{
    if a >= 0 {
        lemma_fundamental_div_mod(a, b);
        lemma_mod_pos_bound(a, b);
    } else {
        lemma_fundamental_div_mod(-a, b);
        lemma_mod_pos_bound(-a, b);
        assert(a - b * div_trunc(a, b) == -((-a) - b * ((-a) / b))) by (nonlinear_arith)
            requires div_trunc(a, b) == -((-a) / b);
    }
}

/// The slide is the tangential projection up to rounding: its speed along the
/// normal is at most `|n.x| + |n.y|` (two millionths of a world unit per tick
/// for a unit normal), and its tangential speed differs from that of `v` by
/// no more than the same amount.
pub proof fn lemma_slide_is_projection(n: Vec2, v: Vec2)
    requires
        norm_sq(n) > 0,
        vec_within(v, VEL_LIMIT as int),
    ensures
        abs(dot(n, slide(n, v))) <= abs(n.x as int) + abs(n.y as int),
        abs(tdot(n, slide(n, v)) - tdot(n, v)) <= abs(n.x as int) + abs(n.y as int),
{
    lemma_slide_bound(n, v, VEL_LIMIT as int);
    let a = n.x as int;
    let b = n.y as int;
    let k = tdot(n, v);
    let big_n = norm_sq(n);
    let sx = proj_coord(n, b, v);
    let sy = proj_coord(n, -a, v);
    assert(slide(n, v).x == sx && slide(n, v).y == sy);
    lemma_div_trunc_error(b * k, big_n);
    lemma_div_trunc_error(-a * k, big_n);
    let ex = b * k - big_n * sx;
    let ey = -a * k - big_n * sy;
    assert(big_n * (a * sx + b * sy) == -(a * ex + b * ey)) by (nonlinear_arith)
        requires ex == b * k - big_n * sx, ey == -a * k - big_n * sy, big_n == a * a + b * b;
    assert(big_n * (b * sx - a * sy) - big_n * k == -(b * ex - a * ey)) by (nonlinear_arith)
        requires ex == b * k - big_n * sx, ey == -a * k - big_n * sy, big_n == a * a + b * b;
    lemma_weighted_error(a, b, ex, ey, big_n);
    lemma_weighted_error(b, -a, ex, ey, big_n);
    assert(abs(-a) == abs(a));
    lemma_scaled_bound(a * sx + b * sy, abs(a) + abs(b), big_n);
    assert(big_n * (b * sx - a * sy - k) == big_n * (b * sx - a * sy) - big_n * k) by (nonlinear_arith);
    assert((-a) * ey == -(a * ey)) by (nonlinear_arith);
    assert((abs(b) + abs(-a)) * big_n == (abs(a) + abs(b)) * big_n);
    assert(abs(big_n * (b * sx - a * sy - k)) == abs(b * ex + (-a) * ey));
    lemma_scaled_bound(b * sx - a * sy - k, abs(a) + abs(b), big_n);
    assert(b * sx - a * sy - k == tdot(n, slide(n, v)) - k);
}

proof fn lemma_weighted_error(a: int, b: int, ex: int, ey: int, big_n: int)
    requires
        abs(ex) < big_n,
        abs(ey) < big_n,
    ensures
        abs(a * ex + b * ey) <= (abs(a) + abs(b)) * big_n,
{
    assert(abs(a * ex) <= abs(a) * big_n) by (nonlinear_arith)
        requires abs(ex) < big_n, abs(a) == a || abs(a) == -a, abs(a) >= 0,
            abs(ex) == ex || abs(ex) == -ex, abs(a * ex) == a * ex || abs(a * ex) == -(a * ex);
    assert(abs(b * ey) <= abs(b) * big_n) by (nonlinear_arith)
        requires abs(ey) < big_n, abs(b) == b || abs(b) == -b, abs(b) >= 0,
            abs(ey) == ey || abs(ey) == -ey, abs(b * ey) == b * ey || abs(b * ey) == -(b * ey);
    assert((abs(a) + abs(b)) * big_n == abs(a) * big_n + abs(b) * big_n) by (nonlinear_arith);
}

proof fn lemma_scaled_bound(x: int, c: int, big_n: int)
    requires
        big_n > 0,
        abs(big_n * x) <= c * big_n,
    ensures
        abs(x) <= c,
{
    assert(abs(big_n * x) == big_n * abs(x)) by (nonlinear_arith)
        requires big_n > 0, abs(x) == x || abs(x) == -x,
            abs(big_n * x) == big_n * x || abs(big_n * x) == -(big_n * x);
    assert(abs(x) <= c) by (nonlinear_arith)
        requires big_n > 0, big_n * abs(x) <= c * big_n;
}

} // verus!
