//! Shapes, classifications, and what a classification decides: the group
//! mask of the broad phase and the query mode of the narrow phase.
use vstd::prelude::*;
use crate::geom::{abs, div_trunc, div_toward_zero};

verus! {

pub const STATIC_GROUP: usize = 0;
pub const UNIT_GROUP: usize = 1;
pub const PROJECTILES_GROUP: usize = 2;

/// A shape description, lengths in millionths of a world unit.
#[derive(Clone, Copy, Debug, PartialEq, Eq, Structural)]
pub enum Shape {
    Ball { radius: i64 },
    Cuboid { half_width: i64, half_height: i64 },
}

/// A shape as the host registers it with an entity.
#[derive(Clone, Copy, Debug, PartialEq, Eq, Structural)]
pub struct LocalShapeHandle(pub Shape);

#[derive(Clone, Copy, Debug, PartialEq, Eq, Structural)]
pub enum CGroup {
    Static,
    Unit,
    Projectile,
}

/// Collision groups: the group an entity belongs to, the groups it may meet
/// (all of them when `whitelist` is empty), and the groups it never meets.
#[derive(Debug)]
pub struct GroupMask {
    pub membership: usize,
    pub whitelist: Vec<usize>,
    pub blacklist: Vec<usize>,
}

/// How the narrow phase treats an entity: full contacts with the given
/// linear and angular prediction margins, or a proximity test only.
#[derive(Clone, Copy, Debug, PartialEq, Eq, Structural)]
pub enum QueryMode {
    Contacts { linear: i64, angular: i64 },
    Proximity { margin: i64 },
}

pub fn make_circle(r: i64) -> (s: LocalShapeHandle)
    ensures
        s == LocalShapeHandle(Shape::Ball { radius: r }),
{
    LocalShapeHandle(Shape::Ball { radius: r })
}

/// A box of the given width and height, kept as half extents.
pub fn make_box(w: i64, h: i64) -> (s: LocalShapeHandle)
    ensures
        s == LocalShapeHandle(Shape::Cuboid { half_width: div_trunc(w as int, 2) as i64, half_height: div_trunc(h as int, 2) as i64 }),
{
    let hw = div_toward_zero(w as i128, 2);
    let hh = div_toward_zero(h as i128, 2);
    proof {
        vstd::arithmetic::div_mod::lemma_div_is_ordered(0, abs(w as int), 2);
        vstd::arithmetic::div_mod::lemma_div_is_ordered(abs(w as int), 2 * abs(w as int), 2);
        vstd::arithmetic::div_mod::lemma_div_multiples_vanish(abs(w as int), 2);
        vstd::arithmetic::div_mod::lemma_div_is_ordered(0, abs(h as int), 2);
        vstd::arithmetic::div_mod::lemma_div_is_ordered(abs(h as int), 2 * abs(h as int), 2);
        vstd::arithmetic::div_mod::lemma_div_multiples_vanish(abs(h as int), 2);
    }
    LocalShapeHandle(Shape::Cuboid { half_width: hw as i64, half_height: hh as i64 })
}

impl CGroup {
    /// Static entities never meet each other, units never meet each other,
    /// and projectiles meet only static entities and units.
    pub fn mask(&self) -> (m: GroupMask)
        ensures
            *self == CGroup::Static ==> m.membership == STATIC_GROUP && m.whitelist@ == Seq::<usize>::empty()
                && m.blacklist@ == seq![STATIC_GROUP],
            *self == CGroup::Unit ==> m.membership == UNIT_GROUP && m.whitelist@ == Seq::<usize>::empty()
                && m.blacklist@ == seq![UNIT_GROUP],
            *self == CGroup::Projectile ==> m.membership == PROJECTILES_GROUP
                && m.whitelist@ == seq![STATIC_GROUP, UNIT_GROUP] && m.blacklist@ == Seq::<usize>::empty(),
    {
        match self {
            CGroup::Static => GroupMask { membership: STATIC_GROUP, whitelist: Vec::new(), blacklist: vec![STATIC_GROUP] },
            CGroup::Unit => GroupMask { membership: UNIT_GROUP, whitelist: Vec::new(), blacklist: vec![UNIT_GROUP] },
            CGroup::Projectile => GroupMask {
                membership: PROJECTILES_GROUP,
                whitelist: vec![STATIC_GROUP, UNIT_GROUP],
                blacklist: Vec::new(),
            },
        }
    }

    /// Units predict contacts as far ahead as they can move in a tick;
    /// projectiles only need to know whether they overlap.
    pub fn query_mode(&self, linear_speed: i64) -> (q: QueryMode)
        ensures
            q == query_mode_of(*self, linear_speed),
    {
        match self {
            CGroup::Static => QueryMode::Contacts { linear: 0, angular: 0 },
            CGroup::Unit => QueryMode::Contacts { linear: linear_speed, angular: linear_speed },
            CGroup::Projectile => QueryMode::Proximity { margin: 0 },
        }
    }

    pub fn is_static(&self) -> (r: bool)
        ensures
            r == (*self == CGroup::Static),
    {
        match self {
            CGroup::Static => true,
            _ => false,
        }
    }
}

pub open spec fn query_mode_of(g: CGroup, linear_speed: i64) -> QueryMode {
    match g {
        CGroup::Static => QueryMode::Contacts { linear: 0, angular: 0 },
        CGroup::Unit => QueryMode::Contacts { linear: linear_speed, angular: linear_speed },
        CGroup::Projectile => QueryMode::Proximity { margin: 0 },
    }
}

} // verus!
