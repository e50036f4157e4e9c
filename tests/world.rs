use sweep_slide::entity::{make_box, make_circle, CGroup, QueryMode, Shape, PROJECTILES_GROUP, STATIC_GROUP, UNIT_GROUP};
use sweep_slide::geom::{Pose, Vec2, POS_LIMIT, SCALE, VEL_LIMIT};
use sweep_slide::mover::Contact;
use sweep_slide::world::{
    contains_pair, fresh_pairs, ContactEvent, ContactEventKind, ContactPair, Correction, Handle, Proximity, ProximityPair,
    World, WorldError, SKIN,
};

fn pose(x: i64, y: i64, angle: i64) -> Pose {
    Pose { pos: Vec2 { x, y }, angle }
}

fn add(w: &mut World, id: u32, p: Pose, g: CGroup) -> Handle {
    w.add(id, p, make_circle(500_000), g, 2_000_000).unwrap()
}

#[test]
fn shapes_keep_half_extents() {
    assert_eq!(make_circle(3).0, Shape::Ball { radius: 3 });
    assert_eq!(make_box(2_000_000, 1_000_000).0, Shape::Cuboid { half_width: 1_000_000, half_height: 500_000 });
    assert_eq!(make_box(3, -5).0, Shape::Cuboid { half_width: 1, half_height: -2 });
}

#[test]
fn group_masks() {
    let s = CGroup::Static.mask();
    assert_eq!((s.membership, s.whitelist.clone(), s.blacklist.clone()), (STATIC_GROUP, vec![], vec![STATIC_GROUP]));
    let u = CGroup::Unit.mask();
    assert_eq!((u.membership, u.whitelist.clone(), u.blacklist.clone()), (UNIT_GROUP, vec![], vec![UNIT_GROUP]));
    let p = CGroup::Projectile.mask();
    assert_eq!(p.membership, PROJECTILES_GROUP);
    assert_eq!(p.whitelist, vec![STATIC_GROUP, UNIT_GROUP]);
    assert!(p.blacklist.is_empty());
}

#[test]
fn query_modes() {
    assert_eq!(CGroup::Static.query_mode(9), QueryMode::Contacts { linear: 0, angular: 0 });
    assert_eq!(CGroup::Unit.query_mode(9), QueryMode::Contacts { linear: 9, angular: 9 });
    assert_eq!(CGroup::Projectile.query_mode(9), QueryMode::Proximity { margin: 0 });
}

#[test]
fn add_get_and_set_position() {
    let mut w = World::new();
    let h = add(&mut w, 42, pose(1, 2, 3), CGroup::Unit);
    let e = w.get(h).unwrap();
    assert_eq!(e.id, 42);
    assert_eq!(e.pose, pose(1, 2, 3));
    assert_eq!(e.query, QueryMode::Contacts { linear: 2_000_000, angular: 2_000_000 });
    w.set_position(h, pose(-5, 6, 7)).unwrap();
    assert_eq!(w.get(h).unwrap().pose, pose(-5, 6, 7));
}

#[test]
fn out_of_range_pose_is_refused() {
    let mut w = World::new();
    assert_eq!(w.add(1, pose(POS_LIMIT + 1, 0, 0), make_circle(1), CGroup::Unit, 0), Err(WorldError::OutOfRange));
    let h = add(&mut w, 1, pose(0, 0, 0), CGroup::Unit);
    assert_eq!(w.set_position(h, pose(0, -POS_LIMIT - 1, 0)), Err(WorldError::OutOfRange));
    assert_eq!(w.get(h).unwrap().pose, pose(0, 0, 0));
}

#[test]
fn removed_handle_is_not_found_and_never_reused() {
    let mut w = World::new();
    let a = add(&mut w, 1, pose(0, 0, 0), CGroup::Unit);
    let b = add(&mut w, 2, pose(5, 5, 0), CGroup::Static);
    w.remove(a).unwrap();
    assert_eq!(w.get(a), Err(WorldError::NotFound));
    assert_eq!(w.remove(a), Err(WorldError::NotFound));
    assert_eq!(w.set_position(a, pose(1, 1, 1)), Err(WorldError::NotFound));
    assert!(w.try_move(a, Vec2 { x: 1, y: 1 }, 0, Vec::new()).is_err());
    let c = add(&mut w, 3, pose(9, 9, 0), CGroup::Unit);
    assert_eq!(c.index, a.index);
    assert_ne!(c, a);
    assert_eq!(w.get(a), Err(WorldError::NotFound));
    assert_eq!(w.get(c).unwrap().id, 3);
    assert_eq!(w.get(b).unwrap().id, 2);
}

#[test]
fn try_move_and_commit() {
    let mut w = World::new();
    let h = add(&mut w, 1, pose(100, 200, 0), CGroup::Unit);
    let m = w.try_move(h, Vec2 { x: 1_000, y: -2_000 }, 50, Vec::new()).unwrap();
    assert!(m.done);
    assert_eq!(w.commit_move(h, &m), Ok(pose(1_100, -1_800, 50)));
    assert_eq!(w.get(h).unwrap().pose, pose(1_100, -1_800, 50));
}

#[test]
fn try_move_refuses_out_of_range_inputs() {
    let w0 = World::new();
    let mut w = w0;
    let h = add(&mut w, 1, pose(0, 0, 0), CGroup::Unit);
    assert!(matches!(w.try_move(h, Vec2 { x: VEL_LIMIT + 1, y: 0 }, 0, Vec::new()), Err(WorldError::OutOfRange)));
    let bad = vec![Some(Contact { normal: Vec2 { x: i64::MAX, y: 0 }, depth: 0 })];
    assert!(matches!(w.try_move(h, Vec2 { x: 1, y: 0 }, 0, bad), Err(WorldError::OutOfRange)));
}

#[test]
fn depenetration_pushes_unit_out_of_static() {
    let mut w = World::new();
    let s = add(&mut w, 10, pose(0, 0, 0), CGroup::Static);
    let u = add(&mut w, 20, pose(0, 100, 9), CGroup::Unit);
    let d = 50_000;
    let pair = ContactPair { first: s, second: u, deepest: Some(Contact { normal: Vec2 { x: 0, y: SCALE }, depth: d }) };
    let out = w.update(&vec![pair]).unwrap();
    assert_eq!(out, vec![Correction { handle: u, id: 20, pose: pose(0, 100 + d + SKIN, 9) }]);
    assert_eq!(w.get(u).unwrap().pose, pose(0, 60_100, 9));
    assert_eq!(w.get(s).unwrap().pose, pose(0, 0, 0));
}

#[test]
fn depenetration_moves_first_when_it_is_movable() {
    let mut w = World::new();
    let s = add(&mut w, 10, pose(0, 0, 0), CGroup::Static);
    let u = add(&mut w, 20, pose(300, 0, 0), CGroup::Unit);
    let pair = ContactPair { first: u, second: s, deepest: Some(Contact { normal: Vec2 { x: -SCALE, y: 0 }, depth: 20_000 }) };
    let out = w.update(&vec![pair]).unwrap();
    assert_eq!(out.len(), 1);
    assert_eq!(w.get(u).unwrap().pose, pose(30_300, 0, 0));
}

#[test]
fn shallow_or_static_pairs_do_not_move() {
    let mut w = World::new();
    let s1 = add(&mut w, 1, pose(0, 0, 0), CGroup::Static);
    let s2 = add(&mut w, 2, pose(0, 0, 0), CGroup::Static);
    let u = add(&mut w, 3, pose(0, 0, 0), CGroup::Unit);
    let c = |depth| Some(Contact { normal: Vec2 { x: SCALE, y: 0 }, depth });
    let pairs = vec![
        ContactPair { first: s1, second: s2, deepest: c(90_000) },
        ContactPair { first: s1, second: u, deepest: c(1) },
        ContactPair { first: s1, second: u, deepest: None },
    ];
    assert_eq!(w.update(&pairs).unwrap(), vec![]);
    assert_eq!(w.get(u).unwrap().pose, pose(0, 0, 0));
}

#[test]
fn update_with_unknown_handle_changes_nothing() {
    let mut w = World::new();
    let s = add(&mut w, 1, pose(0, 0, 0), CGroup::Static);
    let u = add(&mut w, 2, pose(0, 0, 0), CGroup::Unit);
    let gone = add(&mut w, 3, pose(0, 0, 0), CGroup::Unit);
    w.remove(gone).unwrap();
    let c = Some(Contact { normal: Vec2 { x: SCALE, y: 0 }, depth: 90_000 });
    let pairs = vec![ContactPair { first: s, second: u, deepest: c }, ContactPair { first: s, second: gone, deepest: c }];
    assert_eq!(w.update(&pairs), Err(WorldError::NotFound));
    assert_eq!(w.get(u).unwrap().pose, pose(0, 0, 0));
}

#[test]
fn later_correction_of_same_entity_wins() {
    let mut w = World::new();
    let s1 = add(&mut w, 1, pose(0, 0, 0), CGroup::Static);
    let s2 = add(&mut w, 2, pose(0, 0, 0), CGroup::Static);
    let u = add(&mut w, 3, pose(0, 0, 0), CGroup::Unit);
    let pairs = vec![
        ContactPair { first: s1, second: u, deepest: Some(Contact { normal: Vec2 { x: SCALE, y: 0 }, depth: 10_000 }) },
        ContactPair { first: s2, second: u, deepest: Some(Contact { normal: Vec2 { x: 0, y: SCALE }, depth: 30_000 }) },
    ];
    let out = w.update(&pairs).unwrap();
    assert_eq!(out.len(), 2);
    assert_eq!(w.get(u).unwrap().pose, pose(0, 40_000, 0));
}

#[test]
fn proximity_reported_once_on_entering() {
    let mut w = World::new();
    let a = add(&mut w, 7, pose(0, 0, 0), CGroup::Unit);
    let b = add(&mut w, 8, pose(0, 0, 0), CGroup::Projectile);
    let snap = |s| vec![ProximityPair { first: a, second: b, status: s }];
    assert_eq!(w.proximity_events(&snap(Proximity::WithinMargin)).unwrap(), vec![]);
    assert_eq!(w.proximity_events(&snap(Proximity::Intersecting)).unwrap(), vec![(7, 8)]);
    assert_eq!(w.proximity_events(&snap(Proximity::Intersecting)).unwrap(), vec![]);
    let swapped = vec![ProximityPair { first: b, second: a, status: Proximity::Intersecting }];
    assert_eq!(w.proximity_events(&swapped).unwrap(), vec![]);
    assert_eq!(w.proximity_events(&snap(Proximity::Disjoint)).unwrap(), vec![]);
    assert_eq!(w.proximity_events(&snap(Proximity::Intersecting)).unwrap(), vec![(7, 8)]);
}

#[test]
fn proximity_duplicate_in_one_snapshot_reported_once() {
    let mut w = World::new();
    let a = add(&mut w, 1, pose(0, 0, 0), CGroup::Unit);
    let b = add(&mut w, 2, pose(0, 0, 0), CGroup::Projectile);
    let pairs = vec![
        ProximityPair { first: a, second: b, status: Proximity::Intersecting },
        ProximityPair { first: b, second: a, status: Proximity::Intersecting },
    ];
    assert_eq!(w.proximity_events(&pairs).unwrap(), vec![(1, 2)]);
}

#[test]
fn proximity_with_removed_handle_is_not_found() {
    let mut w = World::new();
    let a = add(&mut w, 1, pose(0, 0, 0), CGroup::Unit);
    let b = add(&mut w, 2, pose(0, 0, 0), CGroup::Projectile);
    w.remove(b).unwrap();
    let pairs = vec![ProximityPair { first: a, second: b, status: Proximity::Intersecting }];
    assert_eq!(w.proximity_events(&pairs), Err(WorldError::NotFound));
}

#[test]
fn pair_lookup_ignores_order() {
    let a = Handle { index: 0, generation: 0 };
    let b = Handle { index: 1, generation: 3 };
    let c = Handle { index: 2, generation: 0 };
    let s = vec![(a, b)];
    assert!(contains_pair(&s, (b, a)));
    assert!(contains_pair(&s, (a, b)));
    assert!(!contains_pair(&s, (a, c)));
}

#[test]
fn contact_events_start_and_stop_once() {
    let mut w = World::new();
    let a = add(&mut w, 1, pose(0, 0, 0), CGroup::Unit);
    let b = add(&mut w, 2, pose(0, 0, 0), CGroup::Static);
    let c = add(&mut w, 3, pose(0, 0, 0), CGroup::Static);
    let started = |p: Handle, q: Handle| ContactEvent { kind: ContactEventKind::Started, first: p, second: q };
    let stopped = |p: Handle, q: Handle| ContactEvent { kind: ContactEventKind::Stopped, first: p, second: q };
    assert_eq!(w.contact_events(vec![(a, b)]), vec![started(a, b)]);
    assert_eq!(w.contact_events(vec![(b, a), (a, c)]), vec![started(a, c)]);
    assert_eq!(w.contact_events(vec![(a, c)]), vec![stopped(b, a)]);
    assert_eq!(w.contact_events(vec![]), vec![stopped(a, c)]);
    assert_eq!(w.contact_events(vec![]), vec![]);
}

#[test]
fn fresh_pairs_skip_known_and_repeated() {
    let a = Handle { index: 0, generation: 0 };
    let b = Handle { index: 1, generation: 0 };
    let c = Handle { index: 2, generation: 0 };
    assert_eq!(fresh_pairs(&vec![(a, b)], &vec![(b, a), (a, c), (c, a)]), vec![(a, c)]);
}
