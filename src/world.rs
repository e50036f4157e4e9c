//! The entity registry, and the per-tick passes built on it: starting and
//! committing moves, depenetration, and proximity events.
//!
//! Handles are slot indices with a generation: removing an entity bumps its
//! slot's generation, so a removed handle is rejected forever and a new
//! entity never takes the handle of an old one.
use vstd::prelude::*;
use crate::geom::{Pose, Vec2, SCALE, EPSILON, POS_LIMIT, VEL_LIMIT, DEPTH_LIMIT, NORMAL_LIMIT, div_trunc,
    within, vec_within, pose_in_range, div_toward_zero};
use crate::entity::{CGroup, Shape, LocalShapeHandle, QueryMode, query_mode_of};
use crate::mover::{Contact, Mover, started, contacts_in_range, contact_in_range};

verus! {

/// Extra distance by which depenetration pushes an entity clear (0.01 world
/// units).
pub const SKIN: i64 = 10_000;

#[derive(Clone, Copy, Debug, PartialEq, Eq, Structural)]
pub struct Handle {
    pub index: usize,
    pub generation: u32,
}

#[derive(Clone, Copy, Debug, PartialEq, Eq, Structural)]
pub enum WorldError {
    /// The handle names no live entity.
    NotFound,
    /// A coordinate, velocity or contact lies outside the representable range.
    OutOfRange,
}

#[derive(Clone, Copy, Debug, PartialEq, Eq, Structural)]
pub struct Entity {
    pub id: u32,
    pub pose: Pose,
    pub shape: Shape,
    pub group: CGroup,
    pub query: QueryMode,
}

#[derive(Clone, Copy, Debug, PartialEq, Eq, Structural)]
pub struct Slot {
    pub generation: u32,
    pub spent: bool,
    pub entity: Option<Entity>,
}

/// The deepest contact of a pair whose normal points from `first` to
/// `second`, as the geometry engine reports it after an update.
#[derive(Clone, Copy, Debug, PartialEq, Eq, Structural)]
pub struct ContactPair {
    pub first: Handle,
    pub second: Handle,
    pub deepest: Option<Contact>,
}

/// A depenetration move: the entity, its external id, and its new pose.
#[derive(Clone, Copy, Debug, PartialEq, Eq, Structural)]
pub struct Correction {
    pub handle: Handle,
    pub id: u32,
    pub pose: Pose,
}

#[derive(Clone, Copy, Debug, PartialEq, Eq, Structural)]
pub enum Proximity {
    Intersecting,
    WithinMargin,
    Disjoint,
}

#[derive(Clone, Copy, Debug, PartialEq, Eq, Structural)]
pub struct ProximityPair {
    pub first: Handle,
    pub second: Handle,
    pub status: Proximity,
}

#[derive(Clone, Copy, Debug, PartialEq, Eq, Structural)]
pub enum ContactEventKind {
    Started,
    Stopped,
}

#[derive(Clone, Copy, Debug, PartialEq, Eq, Structural)]
pub struct ContactEvent {
    pub kind: ContactEventKind,
    pub first: Handle,
    pub second: Handle,
}

pub struct World {
    slots: Vec<Slot>,
    intersecting: Vec<(Handle, Handle)>,
    in_contact: Vec<(Handle, Handle)>,
}

pub open spec fn with_pose(e: Entity, pose: Pose) -> Entity {
    Entity { id: e.id, pose, shape: e.shape, group: e.group, query: e.query }
}

/// One coordinate of a depenetration push: depth plus skin along the unit
/// normal coordinate `n`, in the direction `sign`.
pub open spec fn push_coord(n: int, depth: int, sign: int) -> int {
    div_trunc((depth + SKIN) * sign * n, SCALE as int)
}

/// The pose after the corrections `cs`, the last one for `h` winning.
pub open spec fn corrected_pose(cs: Seq<Correction>, h: Handle, p: Pose) -> Pose
    decreases cs.len(),
{
    if cs.len() == 0 {
        p
    } else if cs.last().handle == h {
        cs.last().pose
    } else {
        corrected_pose(cs.drop_last(), h, p)
    }
}

pub open spec fn same_pair(a: (Handle, Handle), b: (Handle, Handle)) -> bool {
    a == b || (a.0 == b.1 && a.1 == b.0)
}

pub open spec fn listed(s: Seq<(Handle, Handle)>, p: (Handle, Handle)) -> bool {
    exists|i: int| 0 <= i < s.len() && same_pair(#[trigger] s[i], p)
}

/// The pairs among the first `n` that intersect.
pub open spec fn intersecting_pairs(pairs: Seq<ProximityPair>, n: int) -> Seq<(Handle, Handle)>
    decreases n,
{
    if n <= 0 {
        Seq::empty()
    } else {
        let prev = intersecting_pairs(pairs, n - 1);
        let p = pairs[n - 1];
        if p.status == Proximity::Intersecting { prev.push((p.first, p.second)) } else { prev }
    }
}

/// The pairs among the first `n` of `now` that are not in `before`, each
/// once.
pub open spec fn newly_listed(before: Seq<(Handle, Handle)>, now: Seq<(Handle, Handle)>, n: int) -> Seq<(Handle, Handle)>
    decreases n,
{
    if n <= 0 {
        Seq::empty()
    } else {
        let prev = newly_listed(before, now, n - 1);
        let q = now[n - 1];
        if !listed(before, q) && !listed(now.take(n - 1), q) { prev.push(q) } else { prev }
    }
}

pub open spec fn as_events(s: Seq<(Handle, Handle)>, kind: ContactEventKind) -> Seq<ContactEvent> {
    s.map_values(|q: (Handle, Handle)| ContactEvent { kind, first: q.0, second: q.1 })
}

/// The pairs among the first `n` that intersect now and did not before,
/// each once.
pub open spec fn entering(before: Seq<(Handle, Handle)>, pairs: Seq<ProximityPair>, n: int) -> Seq<(Handle, Handle)>
    decreases n,
{
    if n <= 0 {
        Seq::empty()
    } else {
        let prev = entering(before, pairs, n - 1);
        let p = pairs[n - 1];
        let q = (p.first, p.second);
        if p.status == Proximity::Intersecting && !listed(before, q) && !listed(intersecting_pairs(pairs, n - 1), q) {
            prev.push(q)
        } else {
            prev
        }
    }
}

impl World {
    pub closed spec fn live(&self, h: Handle) -> bool {
        &&& h.index < self.slots@.len()
        &&& self.slots@[h.index as int].generation == h.generation
        &&& self.slots@[h.index as int].entity is Some
    }

    pub closed spec fn entity(&self, h: Handle) -> Entity {
        self.slots@[h.index as int].entity->Some_0
    }

    /// `h` was handed out once and its entity has been removed since.
    pub closed spec fn retired(&self, h: Handle) -> bool {
        &&& h.index < self.slots@.len()
        &&& {
            let s = self.slots@[h.index as int];
            h.generation < s.generation || (h.generation == s.generation && s.spent)
        }
    }

    /// The pairs that intersected at the last proximity report.
    pub closed spec fn previous(&self) -> Seq<(Handle, Handle)> {
        self.intersecting@
    }

    /// The pairs that were in contact at the last contact report.
    pub closed spec fn previous_contacts(&self) -> Seq<(Handle, Handle)> {
        self.in_contact@
    }

    pub closed spec fn wf(&self) -> bool {
        forall|i: int| 0 <= i < self.slots@.len() ==> {
            let s = #[trigger] self.slots@[i];
            &&& s.entity is Some ==> pose_in_range(s.entity->Some_0.pose)
            &&& s.spent ==> s.entity is None
        }
    }

    /// `other` holds the same entities as `self`, but for `h`.
    pub open spec fn agrees_except(&self, other: &World, h: Handle) -> bool {
        &&& forall|g: Handle| g != h ==> (#[trigger] other.live(g)) == self.live(g)
        &&& forall|g: Handle| g != h && self.live(g) ==> (#[trigger] other.entity(g)) == self.entity(g)
        &&& forall|g: Handle| self.retired(g) ==> #[trigger] other.retired(g)
        &&& other.previous() == self.previous()
        &&& other.previous_contacts() == self.previous_contacts()
    }

    pub open spec fn known(&self, p: ContactPair) -> bool {
        self.live(p.first) && self.live(p.second)
    }

    /// The depenetration move of one pair, if any: the side that is not
    /// static (the first one when neither is) moves along the normal by the
    /// depth plus the skin.
    pub open spec fn correction_of(&self, p: ContactPair) -> Option<Correction> {
        match p.deepest {
            None => None,
            Some(c) => if c.depth <= EPSILON {
                None
            } else {
                let first_static = self.entity(p.first).group == CGroup::Static;
                let h = if first_static { p.second } else { p.first };
                let sign: int = if first_static { 1 } else { -1 };
                let e = self.entity(h);
                if e.group == CGroup::Static {
                    None
                } else {
                    Some(Correction {
                        handle: h,
                        id: e.id,
                        pose: Pose {
                            pos: Vec2 {
                                x: (e.pose.pos.x + push_coord(c.normal.x as int, c.depth as int, sign)) as i64,
                                y: (e.pose.pos.y + push_coord(c.normal.y as int, c.depth as int, sign)) as i64,
                            },
                            angle: e.pose.angle,
                        },
                    })
                }
            },
        }
    }

    pub open spec fn corrections(&self, pairs: Seq<ContactPair>, n: int) -> Seq<Correction>
        decreases n,
    {
        if n <= 0 {
            Seq::empty()
        } else {
            let prev = self.corrections(pairs, n - 1);
            match self.correction_of(pairs[n - 1]) {
                Some(c) => prev.push(c),
                None => prev,
            }
        }
    }

    pub fn new() -> (w: World)
        ensures
            w.wf(),
            forall|h: Handle| !w.live(h) && !w.retired(h),
            w.previous() == Seq::<(Handle, Handle)>::empty(),
            w.previous_contacts() == Seq::<(Handle, Handle)>::empty(),
    {
        World { slots: Vec::new(), intersecting: Vec::new(), in_contact: Vec::new() }
    }

    /// Registers an entity; its query mode follows from its classification
    /// and speed budget.
    pub fn add(&mut self, id: u32, pose: Pose, shape: LocalShapeHandle, cgroup: CGroup, linear_speed: i64) -> (r: Result<
        Handle,
        WorldError,
    >)
        requires
            old(self).wf(),
        ensures
            final(self).wf(),
            !pose_in_range(pose) ==> r == Err::<Handle, WorldError>(WorldError::OutOfRange) && *final(self) == *old(self),
            pose_in_range(pose) ==> r is Ok,
            r is Ok ==> {
                let h = r->Ok_0;
                &&& !old(self).live(h)
                &&& !old(self).retired(h)
                &&& final(self).live(h)
                &&& final(self).entity(h) == (Entity {
                    id,
                    pose,
                    shape: shape.0,
                    group: cgroup,
                    query: query_mode_of(cgroup, linear_speed),
                })
                &&& old(self).agrees_except(final(self), h)
            },
    {
        if !pose_fits(pose) {
            return Err(WorldError::OutOfRange);
        }
        let e = Entity { id, pose, shape: shape.0, group: cgroup, query: cgroup.query_mode(linear_speed) };
        let n = self.slots.len();
        let mut i: usize = 0;
        while i < n
            invariant
                i <= n,
                n == self.slots@.len(),
                self == old(self),
                old(self).wf(),
                pose_in_range(pose),
                e == (Entity { id, pose, shape: shape.0, group: cgroup, query: query_mode_of(cgroup, linear_speed) }),
                forall|j: int| 0 <= j < i ==> (#[trigger] self.slots@[j]).entity is Some || self.slots@[j].spent,
            decreases n - i,
        {
            let s = self.slots[i];
            if s.entity.is_none() && !s.spent {
                let h = Handle { index: i, generation: s.generation };
                self.slots.set(i, Slot { generation: s.generation, spent: false, entity: Some(e) });
                proof {
                    self.lemma_agrees_after_set(old(self), h);
                }
                return Ok(h);
            }
            i = i + 1;
        }
        let h = Handle { index: n, generation: 0 };
        self.slots.push(Slot { generation: 0, spent: false, entity: Some(e) });
        proof {
            assert(self.slots@[n as int].generation == 0);
            assert forall|j: int| 0 <= j < old(self).slots@.len() implies #[trigger] self.slots@[j] == old(self).slots@[j] by {}
            self.lemma_agrees_after_set(old(self), h);
        }
        Ok(h)
    }

    /// `self` differs from `before` in the slot of `h` alone.
    proof fn lemma_agrees_after_set(&self, before: &World, h: Handle)
        requires
            before.wf(),
            self.slots@.len() >= before.slots@.len(),
            self.slots@.len() <= before.slots@.len() + 1,
            h.index < self.slots@.len(),
            self.slots@.len() > before.slots@.len() ==> h.index == before.slots@.len(),
            forall|j: int| 0 <= j < before.slots@.len() && j != h.index ==> #[trigger] self.slots@[j] == before.slots@[j],
            self.slots@[h.index as int].generation == h.generation,
            self.slots@[h.index as int].entity is Some ==> pose_in_range(self.slots@[h.index as int].entity->Some_0.pose),
            self.slots@[h.index as int].spent ==> self.slots@[h.index as int].entity is None,
            h.index < before.slots@.len() ==> before.slots@[h.index as int].generation <= h.generation,
            h.index < before.slots@.len() && before.slots@[h.index as int].generation == h.generation
                && before.slots@[h.index as int].spent ==> self.slots@[h.index as int].spent,
            h.index < before.slots@.len() && before.slots@[h.index as int].generation < h.generation
                ==> before.slots@[h.index as int].entity is None,
            self.intersecting@ == before.intersecting@,
            self.in_contact@ == before.in_contact@,
        ensures
            self.wf(),
            before.agrees_except(self, h),
    {
        assert forall|g: Handle| g != h implies (#[trigger] self.live(g)) == before.live(g) by {
            if g.index == h.index {
                assert(g.generation != h.generation);
            }
        }
        assert forall|g: Handle| before.retired(g) implies #[trigger] self.retired(g) by {}
        assert forall|i: int| 0 <= i < self.slots@.len() implies {
            let s = #[trigger] self.slots@[i];
            &&& s.entity is Some ==> pose_in_range(s.entity->Some_0.pose)
            &&& s.spent ==> s.entity is None
        } by {
            if i != h.index {
                assert(self.slots@[i] == before.slots@[i]);
            }
        }
    }

    /// Deletes an entity; its handle is invalid from then on.
    pub fn remove(&mut self, h: Handle) -> (r: Result<(), WorldError>)
        requires
            old(self).wf(),
        ensures
            final(self).wf(),
            !old(self).live(h) ==> r == Err::<(), WorldError>(WorldError::NotFound) && *final(self) == *old(self),
            old(self).live(h) ==> {
                &&& r is Ok
                &&& !final(self).live(h)
                &&& final(self).retired(h)
                &&& old(self).agrees_except(final(self), h)
            },
    {
        if !self.is_live(h) {
            return Err(WorldError::NotFound);
        }
        let g = self.slots[h.index].generation;
        let s = if g < u32::MAX {
            Slot { generation: g + 1, spent: false, entity: None }
        } else {
            Slot { generation: g, spent: true, entity: None }
        };
        self.slots.set(h.index, s);
        proof {
            assert forall|k: Handle| k != h implies (#[trigger] self.live(k)) == old(self).live(k) by {}
            assert forall|k: Handle| old(self).retired(k) implies #[trigger] self.retired(k) by {}
            assert forall|i: int| 0 <= i < self.slots@.len() implies {
                let s = #[trigger] self.slots@[i];
                &&& s.entity is Some ==> pose_in_range(s.entity->Some_0.pose)
                &&& s.spent ==> s.entity is None
            } by {
                if i != h.index {
                    assert(self.slots@[i] == old(self).slots@[i]);
                }
            }
        }
        Ok(())
    }

    pub fn is_live(&self, h: Handle) -> (r: bool)
        ensures
            r == self.live(h),
    {
        h.index < self.slots.len() && self.slots[h.index].generation == h.generation
            && self.slots[h.index].entity.is_some()
    }

    /// The entity behind a handle.
    pub fn get(&self, h: Handle) -> (r: Result<Entity, WorldError>)
        ensures
            self.live(h) ==> r == Ok::<Entity, WorldError>(self.entity(h)),
            !self.live(h) ==> r == Err::<Entity, WorldError>(WorldError::NotFound),
    {
        if !self.is_live(h) {
            return Err(WorldError::NotFound);
        }
        match self.slots[h.index].entity {
            Some(e) => Ok(e),
            None => Err(WorldError::NotFound),
        }
    }

    /// Overwrites an entity's pose, with no collision check.
    pub fn set_position(&mut self, h: Handle, pose: Pose) -> (r: Result<(), WorldError>)
        requires
            old(self).wf(),
        ensures
            final(self).wf(),
            !old(self).live(h) ==> r == Err::<(), WorldError>(WorldError::NotFound) && *final(self) == *old(self),
            old(self).live(h) && !pose_in_range(pose) ==> r == Err::<(), WorldError>(WorldError::OutOfRange)
                && *final(self) == *old(self),
            old(self).live(h) && pose_in_range(pose) ==> {
                &&& r is Ok
                &&& final(self).live(h)
                &&& final(self).entity(h) == with_pose(old(self).entity(h), pose)
                &&& old(self).agrees_except(final(self), h)
            },
    {
        let e = match self.get(h) {
            Ok(e) => e,
            Err(err) => return Err(err),
        };
        if !pose_fits(pose) {
            return Err(WorldError::OutOfRange);
        }
        let s = self.slots[h.index];
        self.slots.set(
            h.index,
            Slot { generation: s.generation, spent: false, entity: Some(Entity { id: e.id, pose, shape: e.shape, group: e.group, query: e.query }) },
        );
        proof {
            self.lemma_agrees_after_set(old(self), h);
        }
        Ok(())
    }

    /// Starts moving entity `h` with velocity `v` and angular delta `va`,
    /// against `contacts`, its contact snapshot from the last update. The
    /// host runs the returned mover's sweep and then calls `commit_move`.
    pub fn try_move(&self, h: Handle, v: Vec2, va: i64, contacts: Vec<Option<Contact>>) -> (r: Result<Mover, WorldError>)
        requires
            self.wf(),
        ensures
            !self.live(h) ==> r == Err::<Mover, WorldError>(WorldError::NotFound),
            self.live(h) && !(vec_within(v, VEL_LIMIT as int) && within(va as int, VEL_LIMIT as int)
                && contacts_in_range(contacts@)) ==> r is Err && r->Err_0 == WorldError::OutOfRange,
            self.live(h) && vec_within(v, VEL_LIMIT as int) && within(va as int, VEL_LIMIT as int)
                && contacts_in_range(contacts@) ==> {
                &&& r is Ok
                &&& r->Ok_0.wf()
                &&& started(self.entity(h).pose, v, va as int, contacts@, r->Ok_0)
            },
    {
        let e = match self.get(h) {
            Ok(e) => e,
            Err(err) => return Err(err),
        };
        if !(v.x >= -VEL_LIMIT && v.x <= VEL_LIMIT && v.y >= -VEL_LIMIT && v.y <= VEL_LIMIT && va >= -VEL_LIMIT
            && va <= VEL_LIMIT) || !contacts_fit(&contacts) {
            return Err(WorldError::OutOfRange);
        }
        proof {
            let i = h.index as int;
            assert(self.slots@[i].entity is Some);
        }
        Ok(Mover::new(e.pose, v, va, contacts))
    }

    /// Writes the pose that a move resolved to, and returns it.
    pub fn commit_move(&mut self, h: Handle, m: &Mover) -> (r: Result<Pose, WorldError>)
        requires
            old(self).wf(),
        ensures
            final(self).wf(),
            !old(self).live(h) ==> r == Err::<Pose, WorldError>(WorldError::NotFound) && *final(self) == *old(self),
            old(self).live(h) && !pose_in_range(m.pose) ==> r == Err::<Pose, WorldError>(WorldError::OutOfRange)
                && *final(self) == *old(self),
            old(self).live(h) && pose_in_range(m.pose) ==> {
                &&& r == Ok::<Pose, WorldError>(m.pose)
                &&& final(self).live(h)
                &&& final(self).entity(h) == with_pose(old(self).entity(h), m.pose)
                &&& old(self).agrees_except(final(self), h)
            },
    {
        match self.set_position(h, m.pose) {
            Ok(()) => Ok(m.pose),
            Err(e) => Err(e),
        }
    }
}

pub open spec fn pair_in_range(p: ContactPair) -> bool {
    p.deepest is Some ==> contact_in_range(p.deepest->Some_0)
}

pub open spec fn all_in_range(pairs: Seq<ContactPair>) -> bool {
    forall|i: int| 0 <= i < pairs.len() ==> pair_in_range(#[trigger] pairs[i])
}

pub open spec fn corrections_fit(cs: Seq<Correction>) -> bool {
    forall|i: int| 0 <= i < cs.len() ==> pose_in_range(#[trigger] cs[i].pose)
}

impl World {
    pub open spec fn all_known(&self, pairs: Seq<ContactPair>) -> bool {
        forall|i: int| 0 <= i < pairs.len() ==> self.known(#[trigger] pairs[i])
    }

    pub open spec fn all_live(&self, pairs: Seq<ProximityPair>) -> bool {
        forall|i: int| 0 <= i < pairs.len() ==> self.live((#[trigger] pairs[i]).first) && self.live(pairs[i].second)
    }

    /// `other` holds the entities of `self`, each moved to its corrected pose.
    pub open spec fn corrected_to(&self, other: &World, cs: Seq<Correction>) -> bool {
        &&& forall|g: Handle| (#[trigger] other.live(g)) == self.live(g)
        &&& forall|g: Handle| self.live(g) ==> (#[trigger] other.entity(g)) == with_pose(
            self.entity(g),
            corrected_pose(cs, g, self.entity(g).pose),
        )
        &&& forall|g: Handle| self.retired(g) ==> #[trigger] other.retired(g)
        &&& other.previous() == self.previous()
        &&& other.previous_contacts() == self.previous_contacts()
    }

    /// `other` holds the same entities as `self`.
    pub open spec fn same_entities(&self, other: &World) -> bool {
        &&& forall|g: Handle| (#[trigger] other.live(g)) == self.live(g)
        &&& forall|g: Handle| self.live(g) ==> (#[trigger] other.entity(g)) == self.entity(g)
        &&& forall|g: Handle| (#[trigger] other.retired(g)) == self.retired(g)
    }

    proof fn lemma_corrections_prefix(&self, pairs: Seq<ContactPair>, i: int, j: int)
        requires
            0 <= i <= j,
        ensures
            self.corrections(pairs, i).len() <= self.corrections(pairs, j).len(),
            forall|k: int| 0 <= k < self.corrections(pairs, i).len() ==> #[trigger] self.corrections(pairs, j)[k]
                == self.corrections(pairs, i)[k],
        decreases j - i,
    {
        if j > i {
            self.lemma_corrections_prefix(pairs, i, j - 1);
        }
    }

    /// The depenetration move of one pair.
    fn correction(&self, p: ContactPair) -> (r: Option<Correction>)
        requires
            self.wf(),
            self.known(p),
            pair_in_range(p),
        ensures
            r == self.correction_of(p),
            r is Some ==> self.live(r->Some_0.handle),
    {
        match p.deepest {
            None => None,
            Some(c) => {
                if c.depth <= EPSILON {
                    return None;
                }
                let first_static = match self.get(p.first) {
                    Ok(e) => e.group.is_static(),
                    Err(_) => false,
                };
                let h = if first_static { p.second } else { p.first };
                let sign: i128 = if first_static { 1 } else { -1 };
                let e = match self.get(h) {
                    Ok(e) => e,
                    Err(_) => return None,
                };
                if e.group.is_static() {
                    return None;
                }
                proof {
                    let i = h.index as int;
                    assert(self.slots@[i].entity is Some);
                }
                let push: i128 = c.depth as i128 + SKIN as i128;
                assert(within((push * sign) as int, DEPTH_LIMIT + SKIN)) by (nonlinear_arith)
                    requires 0 < push <= DEPTH_LIMIT + SKIN, sign == 1 || sign == -1;
                assert(within((push * sign) as int * (c.normal.x as int), 2 * DEPTH_LIMIT * NORMAL_LIMIT)) by (nonlinear_arith)
                    requires 0 < push <= DEPTH_LIMIT + SKIN, sign == 1 || sign == -1, within(c.normal.x as int, NORMAL_LIMIT as int);
                assert(within((push * sign) as int * (c.normal.y as int), 2 * DEPTH_LIMIT * NORMAL_LIMIT)) by (nonlinear_arith)
                    requires 0 < push <= DEPTH_LIMIT + SKIN, sign == 1 || sign == -1, within(c.normal.y as int, NORMAL_LIMIT as int);
                let dx = div_toward_zero(push * sign * (c.normal.x as i128), SCALE as i128);
                let dy = div_toward_zero(push * sign * (c.normal.y as i128), SCALE as i128);
                proof {
                    crate::geom::lemma_div_trunc_bound((push * sign) as int * (c.normal.x as int), SCALE as int, 1_125_899_906_842_624);
                    crate::geom::lemma_div_trunc_bound((push * sign) as int * (c.normal.y as int), SCALE as int, 1_125_899_906_842_624);
                }
                Some(Correction {
                    handle: h,
                    id: e.id,
                    pose: Pose {
                        pos: Vec2 { x: (e.pose.pos.x as i128 + dx) as i64, y: (e.pose.pos.y as i128 + dy) as i64 },
                        angle: e.pose.angle,
                    },
                })
            },
        }
    }

    /// Depenetration, after the geometry engine's update: each pair that
    /// penetrates deeper than the tolerance pushes its movable side out along
    /// the contact normal. All moves are computed from the poses before the
    /// pass; returns them in the order of the pairs.
    pub fn update(&mut self, pairs: &Vec<ContactPair>) -> (r: Result<Vec<Correction>, WorldError>)
        requires
            old(self).wf(),
        ensures
            final(self).wf(),
            !old(self).all_known(pairs@) ==> r == Err::<Vec<Correction>, WorldError>(WorldError::NotFound)
                && *final(self) == *old(self),
            old(self).all_known(pairs@) && !all_in_range(pairs@) ==> r == Err::<Vec<Correction>, WorldError>(
                WorldError::OutOfRange,
            ) && *final(self) == *old(self),
            old(self).all_known(pairs@) && all_in_range(pairs@) && !corrections_fit(
                old(self).corrections(pairs@, pairs@.len() as int),
            ) ==> r == Err::<Vec<Correction>, WorldError>(WorldError::OutOfRange) && *final(self) == *old(self),
            old(self).all_known(pairs@) && all_in_range(pairs@) && corrections_fit(
                old(self).corrections(pairs@, pairs@.len() as int),
            ) ==> {
                &&& r is Ok
                &&& r->Ok_0@ == old(self).corrections(pairs@, pairs@.len() as int)
                &&& old(self).corrected_to(final(self), r->Ok_0@)
            },
    {
        let n = pairs.len();
        let mut i: usize = 0;
        while i < n
            invariant
                i <= n,
                n == pairs@.len(),
                self == old(self),
                old(self).wf(),
                forall|j: int| 0 <= j < i ==> self.known(#[trigger] pairs@[j]),
            decreases n - i,
        {
            let p = pairs[i];
            if !self.is_live(p.first) || !self.is_live(p.second) {
                assert(!self.known(pairs@[i as int]));
                return Err(WorldError::NotFound);
            }
            i = i + 1;
        }
        let mut i: usize = 0;
        while i < n
            invariant
                i <= n,
                n == pairs@.len(),
                self == old(self),
                old(self).wf(),
                old(self).all_known(pairs@),
                forall|j: int| 0 <= j < i ==> pair_in_range(#[trigger] pairs@[j]),
            decreases n - i,
        {
            match pairs[i].deepest {
                Some(c) => {
                    if !contact_fits(c) {
                        assert(!pair_in_range(pairs@[i as int]));
                        return Err(WorldError::OutOfRange);
                    }
                },
                None => {},
            }
            i = i + 1;
        }
        let mut out: Vec<Correction> = Vec::new();
        let mut i: usize = 0;
        while i < n
            invariant
                i <= n,
                n == pairs@.len(),
                self == old(self),
                self.wf(),
                self.all_known(pairs@),
                all_in_range(pairs@),
                out@ == self.corrections(pairs@, i as int),
                corrections_fit(out@),
                forall|j: int| 0 <= j < out@.len() ==> self.live((#[trigger] out@[j]).handle),
            decreases n - i,
        {
            let p = pairs[i];
            match self.correction(p) {
                Some(c) => {
                    if !pose_fits(c.pose) {
                        proof {
                            let cs = self.corrections(pairs@, i + 1);
                            assert(cs == out@.push(c));
                            self.lemma_corrections_prefix(pairs@, i + 1, n as int);
                            assert(self.corrections(pairs@, n as int)[out@.len() as int] == c);
                        }
                        return Err(WorldError::OutOfRange);
                    }
                    out.push(c);
                },
                None => {},
            }
            i = i + 1;
        }
        let ghost before = *self;
        let mut k: usize = 0;
        while k < out.len()
            invariant
                k <= out@.len(),
                before.wf(),
                corrections_fit(out@),
                forall|j: int| 0 <= j < out@.len() ==> before.live((#[trigger] out@[j]).handle),
                self.slots@.len() == before.slots@.len(),
                self.intersecting@ == before.intersecting@,
                self.in_contact@ == before.in_contact@,
                forall|j: int| 0 <= j < self.slots@.len() ==> {
                    &&& (#[trigger] self.slots@[j]).generation == before.slots@[j].generation
                    &&& self.slots@[j].spent == before.slots@[j].spent
                    &&& self.slots@[j].entity is Some == before.slots@[j].entity is Some
                },
                forall|g: Handle| before.live(g) ==> (#[trigger] self.entity(g)) == with_pose(
                    before.entity(g),
                    corrected_pose(out@.take(k as int), g, before.entity(g).pose),
                ),
                self.wf(),
            decreases out@.len() - k,
        {
            let ghost prev = *self;
            let c = out[k];
            assert(before.live(out@[k as int].handle));
            let s = self.slots[c.handle.index];
            let e = match s.entity {
                Some(e) => e,
                None => Entity { id: 0, pose: c.pose, shape: crate::entity::Shape::Ball { radius: 0 }, group: CGroup::Static, query: QueryMode::Proximity { margin: 0 } },
            };
            self.slots.set(
                c.handle.index,
                Slot { generation: s.generation, spent: s.spent, entity: Some(with_pose_exec(e, c.pose)) },
            );
            proof {
                assert(out@.take(k + 1).drop_last() =~= out@.take(k as int));
                assert(pose_in_range(out@[k as int].pose));
                assert forall|g: Handle| before.live(g) implies (#[trigger] self.entity(g)) == with_pose(
                    before.entity(g),
                    corrected_pose(out@.take(k + 1), g, before.entity(g).pose),
                ) by {
                    assert(out@.take(k + 1).last() == c);
                    if g.index != c.handle.index {
                        assert(self.slots@[g.index as int] == prev.slots@[g.index as int]);
                        assert(prev.entity(g) == self.entity(g));
                    } else {
                        assert(g == c.handle);
                    }
                }
                assert forall|j: int| 0 <= j < self.slots@.len() implies {
                    &&& (#[trigger] self.slots@[j]).generation == before.slots@[j].generation
                    &&& self.slots@[j].spent == before.slots@[j].spent
                    &&& self.slots@[j].entity is Some == before.slots@[j].entity is Some
                } by {
                    if j != c.handle.index {
                        assert(self.slots@[j] == prev.slots@[j]);
                    }
                }
                assert forall|j: int| 0 <= j < self.slots@.len() implies {
                    let s = #[trigger] self.slots@[j];
                    &&& s.entity is Some ==> pose_in_range(s.entity->Some_0.pose)
                    &&& s.spent ==> s.entity is None
                } by {
                    if j != c.handle.index {
                        assert(self.slots@[j] == prev.slots@[j]);
                    }
                }
            }
            k = k + 1;
        }
        proof {
            assert(out@.take(out@.len() as int) =~= out@);
        }
        Ok(out)
    }

    /// Edge-triggered proximity events: the external ids of each pair that
    /// intersects now and did not at the previous report, once per pair.
    pub fn proximity_events(&mut self, pairs: &Vec<ProximityPair>) -> (r: Result<Vec<(u32, u32)>, WorldError>)
        requires
            old(self).wf(),
        ensures
            final(self).wf(),
            !old(self).all_live(pairs@) ==> r == Err::<Vec<(u32, u32)>, WorldError>(WorldError::NotFound)
                && *final(self) == *old(self),
            old(self).all_live(pairs@) ==> {
                &&& r is Ok
                &&& r->Ok_0@ == entering(old(self).previous(), pairs@, pairs@.len() as int).map_values(
                    |q: (Handle, Handle)| (old(self).entity(q.0).id, old(self).entity(q.1).id),
                )
                &&& final(self).previous() == intersecting_pairs(pairs@, pairs@.len() as int)
                &&& final(self).previous_contacts() == old(self).previous_contacts()
                &&& old(self).same_entities(final(self))
            },
    {
        let n = pairs.len();
        let ghost f = |q: (Handle, Handle)| (self.entity(q.0).id, self.entity(q.1).id);
        let mut now: Vec<(Handle, Handle)> = Vec::new();
        let mut out: Vec<(u32, u32)> = Vec::new();
        let mut i: usize = 0;
        while i < n
            invariant
                i <= n,
                n == pairs@.len(),
                self == old(self),
                old(self).wf(),
                forall|j: int| 0 <= j < i ==> self.live((#[trigger] pairs@[j]).first) && self.live(pairs@[j].second),
                now@ == intersecting_pairs(pairs@, i as int),
                out@ == entering(self.previous(), pairs@, i as int).map_values(f),
                f == (|q: (Handle, Handle)| (self.entity(q.0).id, self.entity(q.1).id)),
            decreases n - i,
        {
            let p = pairs[i];
            let e1 = match self.get(p.first) {
                Ok(e) => e,
                Err(err) => {
                    assert(!self.all_live(pairs@));
                    return Err(err);
                },
            };
            let e2 = match self.get(p.second) {
                Ok(e) => e,
                Err(err) => {
                    assert(!self.all_live(pairs@));
                    return Err(err);
                },
            };
            let q = (p.first, p.second);
            let ghost ent = entering(self.previous(), pairs@, i as int);
            if p.status == Proximity::Intersecting {
                if !contains_pair(&self.intersecting, q) && !contains_pair(&now, q) {
                    out.push((e1.id, e2.id));
                    proof {
                        assert(ent.push(q).map_values(f) =~= ent.map_values(f).push(f(q)));
                    }
                }
                now.push(q);
            }
            i = i + 1;
        }
        proof {
            assert forall|g: Handle| (#[trigger] self.live(g)) == old(self).live(g) by {}
        }
        self.intersecting = now;
        Ok(out)
    }
}

fn with_pose_exec(e: Entity, pose: Pose) -> (r: Entity)
    ensures
        r == with_pose(e, pose),
{
    Entity { id: e.id, pose, shape: e.shape, group: e.group, query: e.query }
}

/// `s` lists the pair `q`, in either order.
pub fn contains_pair(s: &Vec<(Handle, Handle)>, q: (Handle, Handle)) -> (r: bool)
    ensures
        r == listed(s@, q),
{
    let mut i: usize = 0;
    while i < s.len()
        invariant
            i <= s@.len(),
            forall|j: int| 0 <= j < i ==> !same_pair(#[trigger] s@[j], q),
        decreases s@.len() - i,
    {
        let p = s[i];
        if (p.0 == q.0 && p.1 == q.1) || (p.0 == q.1 && p.1 == q.0) {
            assert(same_pair(s@[i as int], q));
            return true;
        }
        i = i + 1;
    }
    false
}

impl World {
    /// A removed handle names no entity. Every operation keeps a retired
    /// handle retired (see `agrees_except`, `corrected_to` and
    /// `same_entities`), answers `NotFound` for a handle that is not live,
    /// and `add` never returns a retired handle: a removed handle is rejected
    /// for good and never aliases a newer entity.
    pub proof fn lemma_retired_not_live(&self, h: Handle)
        requires
            self.wf(),
            self.retired(h),
        ensures
            !self.live(h),
    {
    }

    /// Depenetration of a static entity and a unit that overlap deeper than
    /// the tolerance, whichever of the two the pair names first: after
    /// `update` the unit alone has moved, away from the static entity, by the
    /// depth plus the skin along the contact normal (exactly that along a
    /// unit normal on an axis), and the static entity has not moved.
    pub proof fn lemma_depenetration_push(&self, after: &World, out: Seq<Correction>, st: Handle, unit: Handle, c: Contact, static_first: bool)
        requires
            self.wf(),
            self.live(st),
            self.live(unit),
            self.entity(st).group == CGroup::Static,
            self.entity(unit).group == CGroup::Unit,
            c.depth > EPSILON,
            out == self.corrections(
                seq![if static_first {
                    ContactPair { first: st, second: unit, deepest: Some(c) }
                } else {
                    ContactPair { first: unit, second: st, deepest: Some(c) }
                }],
                1,
            ),
            self.corrected_to(after, out),
        ensures
            ({
                let sign: int = if static_first { 1 } else { -1 };
                let p = self.entity(unit).pose;
                &&& after.entity(unit).pose == Pose {
                    pos: Vec2 {
                        x: (p.pos.x + push_coord(c.normal.x as int, c.depth as int, sign)) as i64,
                        y: (p.pos.y + push_coord(c.normal.y as int, c.depth as int, sign)) as i64,
                    },
                    angle: p.angle,
                }
                &&& after.entity(st).pose == self.entity(st).pose
            }),
            push_coord(SCALE as int, c.depth as int, 1) == c.depth + SKIN,
            push_coord(SCALE as int, c.depth as int, -1) == -(c.depth + SKIN),
            push_coord(0, c.depth as int, 1) == 0,
            push_coord(0, c.depth as int, -1) == 0,
    {
        let pair = if static_first {
            ContactPair { first: st, second: unit, deepest: Some(c) }
        } else {
            ContactPair { first: unit, second: st, deepest: Some(c) }
        };
        assert(self.corrections(seq![pair], 0) == Seq::<Correction>::empty());
        assert(seq![pair][0] == pair);
        assert(out.len() == 1 && out[0].handle == unit);
        assert(out.drop_last() =~= Seq::<Correction>::empty());
        assert(st != unit);
        assert(out.last() == out[0]);
        assert(corrected_pose(out, unit, self.entity(unit).pose) == out[0].pose);
        assert(corrected_pose(out, st, self.entity(st).pose) == corrected_pose(out.drop_last(), st, self.entity(st).pose));
        assert(after.entity(unit) == with_pose(self.entity(unit), out[0].pose));
        assert(after.entity(st) == with_pose(self.entity(st), self.entity(st).pose));
        let d = c.depth + SKIN;
        vstd::arithmetic::div_mod::lemma_div_multiples_vanish(d, SCALE as int);
        assert(d * 1 * SCALE == SCALE * d) by (nonlinear_arith);
        assert(d * (-1) * SCALE == -(SCALE * d)) by (nonlinear_arith);
        assert(d * 1 * 0 == 0 && d * (-1) * 0 == 0) by (nonlinear_arith);
    }
}

proof fn lemma_same_pair_listed(s: Seq<(Handle, Handle)>, a: (Handle, Handle), b: (Handle, Handle))
    requires
        same_pair(a, b),
    ensures
        listed(s, a) == listed(s, b),
{
    if listed(s, a) {
        let i = choose|i: int| 0 <= i < s.len() && same_pair(#[trigger] s[i], a);
        assert(same_pair(s[i], b));
    }
    if listed(s, b) {
        let i = choose|i: int| 0 <= i < s.len() && same_pair(#[trigger] s[i], b);
        assert(same_pair(s[i], a));
    }
}

proof fn lemma_listed_push(s: Seq<(Handle, Handle)>, x: (Handle, Handle), q: (Handle, Handle))
    ensures
        listed(s.push(x), q) == (listed(s, q) || same_pair(x, q)),
{
    if listed(s.push(x), q) {
        let i = choose|i: int| 0 <= i < s.push(x).len() && same_pair(#[trigger] s.push(x)[i], q);
        if i < s.len() {
            assert(s[i] == s.push(x)[i]);
        }
    }
    if listed(s, q) {
        let i = choose|i: int| 0 <= i < s.len() && same_pair(#[trigger] s[i], q);
        assert(s.push(x)[i] == s[i]);
    }
    if same_pair(x, q) {
        assert(s.push(x)[s.len() as int] == x);
    }
}

/// A proximity report names a pair exactly when the pair intersects now and
/// did not at the previous report, and names it once: a pair is reported on
/// entering an intersection, never while it stays intersecting, and never on
/// leaving it.
pub proof fn lemma_entering_exactly(before: Seq<(Handle, Handle)>, pairs: Seq<ProximityPair>, n: int, q: (Handle, Handle))
    requires
        0 <= n <= pairs.len(),
    ensures
        listed(entering(before, pairs, n), q) == (listed(intersecting_pairs(pairs, n), q) && !listed(before, q)),
        forall|i: int, j: int|
            0 <= i < j < entering(before, pairs, n).len() ==> !same_pair(
                #[trigger] entering(before, pairs, n)[i],
                #[trigger] entering(before, pairs, n)[j],
            ),
    decreases n,
{
    if n > 0 {
        let p = pairs[n - 1];
        let x = (p.first, p.second);
        let prev_e = entering(before, pairs, n - 1);
        let prev_i = intersecting_pairs(pairs, n - 1);
        lemma_entering_exactly(before, pairs, n - 1, q);
        lemma_entering_exactly(before, pairs, n - 1, x);
        lemma_listed_push(prev_e, x, q);
        lemma_listed_push(prev_i, x, q);
        if same_pair(x, q) {
            lemma_same_pair_listed(before, x, q);
            lemma_same_pair_listed(prev_i, x, q);
        }
        let e = entering(before, pairs, n);
        if p.status == Proximity::Intersecting && !listed(before, x) && !listed(prev_i, x) {
            assert(e == prev_e.push(x));
            assert forall|i: int, j: int| 0 <= i < j < e.len() implies !same_pair(#[trigger] e[i], #[trigger] e[j]) by {
                if j == e.len() - 1 {
                    assert(e[j] == x);
                    assert(e[i] == prev_e[i]);
                    lemma_entering_exactly(before, pairs, n - 1, e[i]);
                    if same_pair(e[i], x) {
                        assert(listed(prev_e, e[i]));
                        lemma_same_pair_listed(prev_i, e[i], x);
                    }
                } else {
                    assert(e[i] == prev_e[i] && e[j] == prev_e[j]);
                }
            }
        }
    }
}

impl World {
    /// Edge-triggered contact events from the pairs in contact now: a
    /// `Started` event for each pair that was not in contact at the previous
    /// report, then a `Stopped` event for each pair that no longer is.
    pub fn contact_events(&mut self, now: Vec<(Handle, Handle)>) -> (r: Vec<ContactEvent>)
        requires
            old(self).wf(),
        ensures
            final(self).wf(),
            r@ == as_events(newly_listed(old(self).previous_contacts(), now@, now@.len() as int), ContactEventKind::Started)
                + as_events(
                newly_listed(now@, old(self).previous_contacts(), old(self).previous_contacts().len() as int),
                ContactEventKind::Stopped,
            ),
            final(self).previous_contacts() == now@,
            final(self).previous() == old(self).previous(),
            old(self).same_entities(final(self)),
    {
        let started = fresh_pairs(&self.in_contact, &now);
        let stopped = fresh_pairs(&now, &self.in_contact);
        let mut out: Vec<ContactEvent> = Vec::new();
        let mut i: usize = 0;
        while i < started.len()
            invariant
                i <= started@.len(),
                out@ == as_events(started@.take(i as int), ContactEventKind::Started),
            decreases started@.len() - i,
        {
            let q = started[i];
            out.push(ContactEvent { kind: ContactEventKind::Started, first: q.0, second: q.1 });
            proof {
                assert(started@.take(i + 1) =~= started@.take(i as int).push(q));
                assert(as_events(started@.take(i + 1), ContactEventKind::Started) =~= as_events(
                    started@.take(i as int),
                    ContactEventKind::Started,
                ).push(ContactEvent { kind: ContactEventKind::Started, first: q.0, second: q.1 }));
            }
            i = i + 1;
        }
        let ghost head = out@;
        let mut j: usize = 0;
        while j < stopped.len()
            invariant
                j <= stopped@.len(),
                out@ == head + as_events(stopped@.take(j as int), ContactEventKind::Stopped),
            decreases stopped@.len() - j,
        {
            let q = stopped[j];
            out.push(ContactEvent { kind: ContactEventKind::Stopped, first: q.0, second: q.1 });
            proof {
                assert(stopped@.take(j + 1) =~= stopped@.take(j as int).push(q));
                assert(as_events(stopped@.take(j + 1), ContactEventKind::Stopped) =~= as_events(
                    stopped@.take(j as int),
                    ContactEventKind::Stopped,
                ).push(ContactEvent { kind: ContactEventKind::Stopped, first: q.0, second: q.1 }));
                assert(head + as_events(stopped@.take(j + 1), ContactEventKind::Stopped) =~= (head + as_events(
                    stopped@.take(j as int),
                    ContactEventKind::Stopped,
                )).push(ContactEvent { kind: ContactEventKind::Stopped, first: q.0, second: q.1 }));
            }
            j = j + 1;
        }
        proof {
            assert(started@.take(started@.len() as int) =~= started@);
            assert(stopped@.take(stopped@.len() as int) =~= stopped@);
        }
        self.in_contact = now;
        proof {
            assert forall|g: Handle| (#[trigger] self.live(g)) == old(self).live(g) by {}
        }
        out
    }
}

/// The pairs of `now` that `before` does not list, each once.
pub fn fresh_pairs(before: &Vec<(Handle, Handle)>, now: &Vec<(Handle, Handle)>) -> (r: Vec<(Handle, Handle)>)
    ensures
        r@ == newly_listed(before@, now@, now@.len() as int),
{
    let mut out: Vec<(Handle, Handle)> = Vec::new();
    let mut seen: Vec<(Handle, Handle)> = Vec::new();
    let mut i: usize = 0;
    while i < now.len()
        invariant
            i <= now@.len(),
            seen@ == now@.take(i as int),
            out@ == newly_listed(before@, now@, i as int),
        decreases now@.len() - i,
    {
        let q = now[i];
        if !contains_pair(before, q) && !contains_pair(&seen, q) {
            out.push(q);
        }
        seen.push(q);
        proof {
            assert(now@.take(i + 1) =~= now@.take(i as int).push(q));
        }
        i = i + 1;
    }
    out
}

/// A contact report starts a pair exactly when it is in contact now and was
/// not before, and names it once (with `before` and `now` swapped, the same
/// holds of the pairs it stops).
pub proof fn lemma_newly_exactly(before: Seq<(Handle, Handle)>, now: Seq<(Handle, Handle)>, n: int, q: (Handle, Handle))
    requires
        0 <= n <= now.len(),
    ensures
        listed(newly_listed(before, now, n), q) == (listed(now.take(n), q) && !listed(before, q)),
        forall|i: int, j: int|
            0 <= i < j < newly_listed(before, now, n).len() ==> !same_pair(
                #[trigger] newly_listed(before, now, n)[i],
                #[trigger] newly_listed(before, now, n)[j],
            ),
    decreases n,
{
    if n == 0 {
        assert(now.take(0) =~= Seq::<(Handle, Handle)>::empty());
    } else {
        let x = now[n - 1];
        let prev_e = newly_listed(before, now, n - 1);
        let prev_i = now.take(n - 1);
        assert(now.take(n) =~= prev_i.push(x));
        lemma_newly_exactly(before, now, n - 1, q);
        lemma_newly_exactly(before, now, n - 1, x);
        lemma_listed_push(prev_e, x, q);
        lemma_listed_push(prev_i, x, q);
        if same_pair(x, q) {
            lemma_same_pair_listed(before, x, q);
            lemma_same_pair_listed(prev_i, x, q);
        }
        let e = newly_listed(before, now, n);
        if !listed(before, x) && !listed(prev_i, x) {
            assert(e == prev_e.push(x));
            assert forall|i: int, j: int| 0 <= i < j < e.len() implies !same_pair(#[trigger] e[i], #[trigger] e[j]) by {
                if j == e.len() - 1 {
                    assert(e[j] == x);
                    assert(e[i] == prev_e[i]);
                    lemma_newly_exactly(before, now, n - 1, e[i]);
                    if same_pair(e[i], x) {
                        assert(listed(prev_e, e[i]));
                        lemma_same_pair_listed(prev_i, e[i], x);
                    }
                } else {
                    assert(e[i] == prev_e[i] && e[j] == prev_e[j]);
                }
            }
        }
    }
}

/// The pose lies within the representable range.
pub fn pose_fits(p: Pose) -> (r: bool)
    ensures
        r == pose_in_range(p),
{
    p.pos.x >= -POS_LIMIT && p.pos.x <= POS_LIMIT && p.pos.y >= -POS_LIMIT && p.pos.y <= POS_LIMIT && p.angle
        >= -POS_LIMIT && p.angle <= POS_LIMIT
}

/// The contact lies within the range that the mover accepts.
pub fn contact_fits(c: Contact) -> (r: bool)
    ensures
        r == contact_in_range(c),
{
    c.normal.x >= -NORMAL_LIMIT && c.normal.x <= NORMAL_LIMIT && c.normal.y >= -NORMAL_LIMIT && c.normal.y
        <= NORMAL_LIMIT && c.depth >= -DEPTH_LIMIT && c.depth <= DEPTH_LIMIT
}

/// Every contact of the snapshot lies within the range the mover accepts.
pub fn contacts_fit(cs: &Vec<Option<Contact>>) -> (r: bool)
    ensures
        r == contacts_in_range(cs@),
{
    let mut i: usize = 0;
    while i < cs.len()
        invariant
            i <= cs@.len(),
            forall|j: int| 0 <= j < i && (#[trigger] cs@[j]) is Some ==> contact_in_range(cs@[j]->Some_0),
        decreases cs@.len() - i,
    {
        match cs[i] {
            Some(c) => {
                if !contact_fits(c) {
                    assert(cs@[i as int] is Some);
                    return false;
                }
            },
            None => {},
        }
        i = i + 1;
    }
    true
}

} // verus!
