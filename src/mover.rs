//! The move-and-slide resolver.
//!
//! A `Mover` holds the state of one `try_move` call. It is created from the
//! entity's pose, the desired velocity and angular delta, and a snapshot of the
//! entity's contacts; creation applies the rotation and runs the two passes
//! over the contacts that are already touching. The sweep then runs one step
//! per call of `advance`: the host answers the time of impact of the current
//! trial motion against each contact that `needs_toi` names, and the mover
//! moves up to the earliest hit and slides along it.
use vstd::prelude::*;
use crate::geom::{
    Pose, Vec2, SCALE, EPSILON, POS_LIMIT, VEL_LIMIT, NORMAL_LIMIT, DEPTH_LIMIT, within, vec_within,
    pose_in_range, dot, norm_sq, tdot, slide, zero_vec, advanced, advance_by, slide_along,
    tangential_speed, normal_speed, length_sq,
};

verus! {

/// Time fraction below which the sweep stops (0.001 of a tick).
pub const MIN_TIME_LEFT: i64 = 1_000;

/// Squared speed at or below which the sweep stops (1e-6 squared world units).
pub const MIN_SPEED_SQ: i128 = 1_000_000;

/// Number of projection steps after which motion halts for the tick.
pub const MAX_STEPS: u64 = 20;

/// One entry of a contact snapshot: the normal points away from the moving
/// entity; a positive depth is a penetration.
#[derive(Clone, Copy, Debug, PartialEq, Eq, Structural)]
pub struct Contact {
    pub normal: Vec2,
    pub depth: i64,
}

#[derive(Clone, Copy, Debug, PartialEq, Eq, Structural)]
pub enum MoveError {
    /// A time of impact was reported against a contact that has no normal.
    NoContactNormal,
}

/// Outcome of the pass over the touching contacts that the entity moves into.
#[derive(Clone, Copy, Debug, PartialEq, Eq, Structural)]
pub struct PassState {
    pub vel: Vec2,
    pub deflect: Option<bool>,
    pub stopped: bool,
}

/// The resolution state of one move.
pub struct Mover {
    /// The contact snapshot; `None` where the engine had no deepest contact.
    pub contacts: Vec<Option<Contact>>,
    /// The desired velocity, which every slide projects.
    pub desired: Vec2,
    /// The pose reached so far.
    pub pose: Pose,
    /// The current trial velocity.
    pub vel: Vec2,
    /// The fraction of the tick that is left.
    pub remaining: i64,
    /// Contacts that already stopped the sweep once in this move.
    pub exhausted: Vec<bool>,
    /// The slide direction chosen so far: whether the tangential speed was
    /// negative.
    pub deflect: Option<bool>,
    /// The sliding envelope: the largest positive and the most negative
    /// tangential speed allowed by the contacts being left.
    pub min_pos: i128,
    pub max_neg: i128,
    /// Projection steps taken by the sweep.
    pub steps: u64,
    /// Nothing is left to resolve.
    pub done: bool,
}

pub open spec fn contact_in_range(c: Contact) -> bool {
    vec_within(c.normal, NORMAL_LIMIT as int) && within(c.depth as int, DEPTH_LIMIT as int)
}

pub open spec fn contacts_in_range(cs: Seq<Option<Contact>>) -> bool {
    forall|i: int| 0 <= i < cs.len() && (#[trigger] cs[i]) is Some ==> contact_in_range(cs[i]->Some_0)
}

pub open spec fn touching(c: Contact) -> bool {
    c.depth > -EPSILON
}

pub open spec fn max_int(a: int, b: int) -> int {
    if a >= b { a } else { b }
}

pub open spec fn min_int(a: int, b: int) -> int {
    if a <= b { a } else { b }
}

/// The sliding envelope over the first `n` contacts: the largest positive and
/// the most negative tangential speed (against the tangent) of the touching
/// contacts that `v` moves away from or along.
pub open spec fn envelope(cs: Seq<Option<Contact>>, v: Vec2, n: int) -> (int, int)
    decreases n,
{
    if n <= 0 {
        (0, 0)
    } else {
        let (p, q) = envelope(cs, v, n - 1);
        match cs[n - 1] {
            Some(c) => if touching(c) && dot(c.normal, v) <= 0 {
                let d = -tdot(c.normal, v);
                if d > 0 { (max_int(d, p), q) } else { (p, min_int(d, q)) }
            } else {
                (p, q)
            },
            None => (p, q),
        }
    }
}

/// A tangential speed of the same sign as an envelope bound and strictly
/// inside it pins the entity.
pub open spec fn pinned(k: int, min_pos: int, max_neg: int) -> bool {
    (k > 0 && k < min_pos) || (k < 0 && k > max_neg)
}

/// The velocity after meeting a contact with normal `n`.
pub open spec fn deflected(n: Vec2, v: Vec2, min_pos: int, max_neg: int) -> Vec2 {
    if pinned(tdot(n, v), min_pos, max_neg) { zero_vec() } else { slide(n, v) }
}

/// The slide direction disagrees with the one chosen before.
pub open spec fn sign_conflict(deflect: Option<bool>, k: int) -> bool {
    match deflect {
        Some(d) => d != (k < 0),
        None => false,
    }
}

pub open spec fn chosen_sign(deflect: Option<bool>, k: int) -> Option<bool> {
    match deflect {
        Some(d) => Some(d),
        None => Some(k < 0),
    }
}

/// The pass over the first `n` touching contacts that the trial velocity
/// moves into: slide along each, and stop when pinned or at a corner.
pub open spec fn approach_pass(cs: Seq<Option<Contact>>, v: Vec2, min_pos: int, max_neg: int, n: int) -> PassState
    decreases n,
{
    if n <= 0 {
        PassState { vel: v, deflect: None, stopped: false }
    } else {
        let s = approach_pass(cs, v, min_pos, max_neg, n - 1);
        if s.stopped {
            s
        } else {
            match cs[n - 1] {
                Some(c) => if touching(c) && dot(c.normal, s.vel) >= 0 {
                    let k = tdot(c.normal, v);
                    if pinned(k, min_pos, max_neg) || sign_conflict(s.deflect, k) {
                        PassState { vel: zero_vec(), deflect: s.deflect, stopped: true }
                    } else {
                        PassState { vel: slide(c.normal, v), deflect: chosen_sign(s.deflect, k), stopped: false }
                    }
                } else {
                    s
                },
                None => s,
            }
        }
    }
}

/// The sweep goes on while time is left and the trial velocity is not tiny.
pub open spec fn keeps_moving(remaining: int, vel: Vec2) -> bool {
    remaining > MIN_TIME_LEFT && norm_sq(vel) > MIN_SPEED_SQ
}

/// The pose that a `Mover` starts from, after the rotation and the two passes.
pub open spec fn started(pose: Pose, v: Vec2, va: int, cs: Seq<Option<Contact>>, m: Mover) -> bool {
    &&& m.contacts@ == cs
    &&& m.desired == v
    &&& m.pose.angle == pose.angle + va
    &&& m.remaining == SCALE
    &&& m.exhausted@ == Seq::new(cs.len(), |i: int| false)
    &&& m.steps == 0
    &&& if cs.len() == 0 {
        &&& m.pose.pos == advanced(pose.pos, v, SCALE as int)
        &&& m.vel == v
        &&& m.done
    } else {
        let (p, q) = envelope(cs, v, cs.len() as int);
        let s = approach_pass(cs, v, p, q, cs.len() as int);
        &&& m.pose.pos == pose.pos
        &&& m.min_pos == p
        &&& m.max_neg == q
        &&& m.vel == s.vel
        &&& m.deflect == s.deflect
        &&& m.done == !keeps_moving(SCALE as int, s.vel)
    }
}

impl Mover {
    /// The state is consistent and every value fits its integer type.
    pub open spec fn wf(&self) -> bool {
        &&& self.exhausted@.len() == self.contacts@.len()
        &&& contacts_in_range(self.contacts@)
        &&& vec_within(self.desired, VEL_LIMIT as int)
        &&& vec_within(self.vel, 2 * VEL_LIMIT)
        &&& 0 <= self.remaining <= SCALE
        &&& self.steps <= MAX_STEPS + 1
        &&& !self.done ==> self.steps <= MAX_STEPS
        &&& vec_within(self.pose.pos, POS_LIMIT + 2 * VEL_LIMIT * (self.steps + 2))
        &&& !self.done ==> vec_within(self.pose.pos, POS_LIMIT + 2 * VEL_LIMIT * (self.steps + 1))
        &&& within(self.pose.angle as int, POS_LIMIT + VEL_LIMIT)
        &&& 0 <= self.min_pos <= 4 * NORMAL_LIMIT * VEL_LIMIT
        &&& -4 * NORMAL_LIMIT * VEL_LIMIT <= self.max_neg <= 0
    }

    /// Contact `i` may still stop the sweep: not used up this call, and not
    /// already touching.
    pub open spec fn eligible(&self, i: int) -> bool {
        &&& !self.exhausted@[i]
        &&& match self.contacts@[i] {
            Some(c) => c.depth < -EPSILON,
            None => true,
        }
    }

    /// The earliest reported hit among the first `n` contacts, before the
    /// time that is left; the lower index wins a tie.
    pub open spec fn earliest(&self, tois: Seq<Option<u64>>, n: int) -> Option<(int, int)>
        decreases n,
    {
        if n <= 0 {
            None
        } else {
            let prev = self.earliest(tois, n - 1);
            let best = match prev {
                Some((_, t)) => t,
                None => self.remaining as int,
            };
            let i = n - 1;
            if i < tois.len() && self.eligible(i) && tois[i] is Some && (tois[i]->Some_0 as int) < best {
                Some((i, tois[i]->Some_0 as int))
            } else {
                prev
            }
        }
    }

    pub open spec fn hit(&self, tois: Seq<Option<u64>>) -> Option<(int, int)> {
        self.earliest(tois, self.contacts@.len() as int)
    }

    /// One sweep step, as `advance` takes it.
    pub open spec fn stepped(&self, tois: Seq<Option<u64>>, r: Result<(), MoveError>, next: &Mover) -> bool {
        &&& next.contacts@ == self.contacts@
        &&& next.desired == self.desired
        &&& next.pose.angle == self.pose.angle
        &&& next.min_pos == self.min_pos
        &&& next.max_neg == self.max_neg
        &&& match self.hit(tois) {
            None => {
                &&& r is Ok
                &&& next.pose.pos == advanced(self.pose.pos, self.vel, self.remaining as int)
                &&& next.vel == self.vel
                &&& next.remaining == self.remaining
                &&& next.exhausted@ == self.exhausted@
                &&& next.deflect == self.deflect
                &&& next.steps == self.steps
                &&& next.done
            },
            Some((i, t)) => match self.contacts@[i] {
                None => {
                    &&& r == Err::<(), MoveError>(MoveError::NoContactNormal)
                    &&& next.pose == self.pose
                    &&& next.vel == self.vel
                    &&& next.remaining == self.remaining
                    &&& next.exhausted@ == self.exhausted@
                    &&& next.deflect == self.deflect
                    &&& next.steps == self.steps
                    &&& next.done == self.done
                },
                Some(c) => {
                    let k = tdot(c.normal, self.desired);
                    let vel = deflected(c.normal, self.desired, self.min_pos as int, self.max_neg as int);
                    &&& r is Ok
                    &&& next.pose.pos == advanced(self.pose.pos, self.vel, t)
                    &&& next.remaining == self.remaining - t
                    &&& next.exhausted@ == self.exhausted@.update(i, true)
                    &&& next.vel == vel
                    &&& next.deflect == chosen_sign(self.deflect, k)
                    &&& next.steps == self.steps + 1
                    &&& next.done == (sign_conflict(self.deflect, k) || next.steps > MAX_STEPS
                        || !keeps_moving(self.remaining - t, vel))
                },
            },
        }
    }

    /// Starts a move: applies the angular delta, then resolves the desired
    /// velocity against the contacts that already touch.
    pub fn new(pose: Pose, v: Vec2, va: i64, contacts: Vec<Option<Contact>>) -> (m: Mover)
        requires
            pose_in_range(pose),
            vec_within(v, VEL_LIMIT as int),
            within(va as int, VEL_LIMIT as int),
            contacts_in_range(contacts@),
        ensures
            m.wf(),
            started(pose, v, va as int, contacts@, m),
    {
        let n = contacts.len();
        let angle = pose.angle + va;
        let mut exhausted: Vec<bool> = Vec::with_capacity(n);
        let mut j: usize = 0;
        while j < n
            invariant
                j <= n,
                exhausted@ == Seq::new(j as nat, |i: int| false),
            decreases n - j,
        {
            exhausted.push(false);
            j = j + 1;
        }
        assert(exhausted@ =~= Seq::new(contacts@.len(), |i: int| false));
        if n == 0 {
            let pos = advance_by(pose.pos, v, SCALE);
            return Mover {
                contacts,
                desired: v,
                pose: Pose { pos, angle },
                vel: v,
                remaining: SCALE,
                exhausted,
                deflect: None,
                min_pos: 0,
                max_neg: 0,
                steps: 0,
                done: true,
            };
        }
        let (min_pos, max_neg) = sliding_envelope(&contacts, v);
        let s = approach(&contacts, v, min_pos, max_neg);
        let done = !(SCALE > MIN_TIME_LEFT && length_sq(s.vel) > MIN_SPEED_SQ);
        Mover {
            contacts,
            desired: v,
            pose: Pose { pos: pose.pos, angle },
            vel: s.vel,
            remaining: SCALE,
            exhausted,
            deflect: s.deflect,
            min_pos,
            max_neg,
            steps: 0,
            done,
        }
    }

    /// The sweep must know the time of impact against contact `i`.
    pub fn needs_toi(&self, i: usize) -> (r: bool)
        requires
            self.wf(),
        ensures
            r == (i < self.contacts@.len() && self.eligible(i as int)),
    {
        if i >= self.contacts.len() || self.exhausted[i] {
            return false;
        }
        match self.contacts[i] {
            Some(c) => c.depth < -EPSILON,
            None => true,
        }
    }

    /// One sweep step. `tois[i]` is the time of impact, as a fraction of the
    /// tick, of the current trial motion against contact `i`, if any.
    pub fn advance(&mut self, tois: &Vec<Option<u64>>) -> (r: Result<(), MoveError>)
        requires
            old(self).wf(),
            !old(self).done,
        ensures
            final(self).wf(),
            old(self).stepped(tois@, r, final(self)),
    {
        let n = self.contacts.len();
        let mut first: Option<usize> = None;
        let mut collide_at: i64 = self.remaining;
        let mut i: usize = 0;
        while i < n
            invariant
                i <= n,
                n == self.contacts@.len(),
                self.wf(),
                self == old(self),
                0 <= collide_at <= self.remaining,
                match self.earliest(tois@, i as int) {
                    Some((j, t)) => first == Some(j as usize) && collide_at == t && 0 <= j < i,
                    None => first is None && collide_at == self.remaining,
                },
            decreases n - i,
        {
            if i < tois.len() && self.needs_toi(i) {
                match tois[i] {
                    Some(t) => {
                        if (t as i128) < (collide_at as i128) {
                            collide_at = t as i64;
                            first = Some(i);
                        }
                    },
                    None => {},
                }
            }
            i = i + 1;
        }
        proof {
            assert(2 * VEL_LIMIT * (self.steps + 1) <= 44 * VEL_LIMIT) by (nonlinear_arith)
                requires self.steps <= MAX_STEPS + 1;
            assert(2 * VEL_LIMIT * (self.steps + 2) == 2 * VEL_LIMIT * (self.steps + 1) + 2 * VEL_LIMIT) by (nonlinear_arith);
        }
        match first {
            None => {
                self.pose.pos = advance_by(self.pose.pos, self.vel, self.remaining);
                self.done = true;
                Ok(())
            },
            Some(idx) => {
                match self.contacts[idx] {
                    None => Err(MoveError::NoContactNormal),
                    Some(c) => {
                        self.exhausted.set(idx, true);
                        self.pose.pos = advance_by(self.pose.pos, self.vel, collide_at);
                        self.remaining = self.remaining - collide_at;
                        let k = tangential_speed(c.normal, self.desired);
                        if (k > 0 && k < self.min_pos) || (k < 0 && k > self.max_neg) {
                            self.vel = Vec2 { x: 0, y: 0 };
                        } else {
                            self.vel = slide_along(c.normal, self.desired);
                        }
                        let conflict = match self.deflect {
                            Some(d) => d != (k < 0),
                            None => false,
                        };
                        if self.deflect.is_none() {
                            self.deflect = Some(k < 0);
                        }
                        self.steps = self.steps + 1;
                        self.done = conflict || self.steps > MAX_STEPS || !(self.remaining > MIN_TIME_LEFT
                            && length_sq(self.vel) > MIN_SPEED_SQ);
                        Ok(())
                    },
                }
            },
        }
    }
}

/// The sliding envelope of a contact snapshot for velocity `v`.
fn sliding_envelope(contacts: &Vec<Option<Contact>>, v: Vec2) -> (r: (i128, i128))
    requires
        contacts_in_range(contacts@),
        vec_within(v, VEL_LIMIT as int),
    ensures
        r.0 == envelope(contacts@, v, contacts@.len() as int).0,
        r.1 == envelope(contacts@, v, contacts@.len() as int).1,
        0 <= r.0 <= 4 * NORMAL_LIMIT * VEL_LIMIT,
        -4 * NORMAL_LIMIT * VEL_LIMIT <= r.1 <= 0,
{
    let mut min_pos: i128 = 0;
    let mut max_neg: i128 = 0;
    let mut i: usize = 0;
    while i < contacts.len()
        invariant
            i <= contacts@.len(),
            contacts_in_range(contacts@),
            vec_within(v, VEL_LIMIT as int),
            min_pos == envelope(contacts@, v, i as int).0,
            max_neg == envelope(contacts@, v, i as int).1,
            0 <= min_pos <= 4 * NORMAL_LIMIT * VEL_LIMIT,
            -4 * NORMAL_LIMIT * VEL_LIMIT <= max_neg <= 0,
        decreases contacts@.len() - i,
    {
        match contacts[i] {
            Some(c) => {
                assert(contact_in_range(contacts@[i as int]->Some_0));
                if c.depth > -EPSILON && normal_speed(c.normal, v) <= 0 {
                    let d: i128 = -tangential_speed(c.normal, v);
                    if d > 0 {
                        if d > min_pos {
                            min_pos = d;
                        }
                    } else {
                        if d < max_neg {
                            max_neg = d;
                        }
                    }
                }
            },
            None => {},
        }
        i = i + 1;
    }
    (min_pos, max_neg)
}

/// The pass over the touching contacts that the trial velocity moves into.
fn approach(contacts: &Vec<Option<Contact>>, v: Vec2, min_pos: i128, max_neg: i128) -> (s: PassState)
    requires
        contacts_in_range(contacts@),
        vec_within(v, VEL_LIMIT as int),
    ensures
        s == approach_pass(contacts@, v, min_pos as int, max_neg as int, contacts@.len() as int),
        vec_within(s.vel, 2 * VEL_LIMIT),
{
    let mut s = PassState { vel: v, deflect: None, stopped: false };
    let mut i: usize = 0;
    while i < contacts.len()
        invariant
            i <= contacts@.len(),
            contacts_in_range(contacts@),
            vec_within(v, VEL_LIMIT as int),
            vec_within(s.vel, 2 * VEL_LIMIT),
            s == approach_pass(contacts@, v, min_pos as int, max_neg as int, i as int),
            s.stopped ==> s == approach_pass(contacts@, v, min_pos as int, max_neg as int, contacts@.len() as int),
        decreases contacts@.len() - i,
    {
        if s.stopped {
            proof {
                lemma_pass_stays_stopped(contacts@, v, min_pos as int, max_neg as int, i as int, contacts@.len() as int);
            }
            return s;
        }
        match contacts[i] {
            Some(c) => {
                assert(contact_in_range(contacts@[i as int]->Some_0));
                if c.depth > -EPSILON && normal_speed(c.normal, s.vel) >= 0 {
                    let k = tangential_speed(c.normal, v);
                    let conflict = match s.deflect {
                        Some(d) => d != (k < 0),
                        None => false,
                    };
                    if (k > 0 && k < min_pos) || (k < 0 && k > max_neg) || conflict {
                        s = PassState { vel: Vec2 { x: 0, y: 0 }, deflect: s.deflect, stopped: true };
                    } else {
                        let deflect = match s.deflect {
                            Some(d) => Some(d),
                            None => Some(k < 0),
                        };
                        s = PassState { vel: slide_along(c.normal, v), deflect, stopped: false };
                    }
                }
            },
            None => {},
        }
        i = i + 1;
        proof {
            if s.stopped {
                lemma_pass_stays_stopped(contacts@, v, min_pos as int, max_neg as int, i as int, contacts@.len() as int);
            }
        }
    }
    s
}

/// Once stopped, the pass keeps its state.
pub proof fn lemma_pass_stays_stopped(cs: Seq<Option<Contact>>, v: Vec2, p: int, q: int, i: int, j: int)
    requires
        0 <= i <= j,
        approach_pass(cs, v, p, q, i).stopped,
    ensures
        approach_pass(cs, v, p, q, j) == approach_pass(cs, v, p, q, i),
    decreases j - i,
{
    if j > i {
        lemma_pass_stays_stopped(cs, v, p, q, i, j - 1);
    }
}

} // verus!
