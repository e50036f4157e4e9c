use sweep_slide::geom::{advance_by, div_toward_zero, slide_along, Pose, Vec2, SCALE};
use sweep_slide::mover::{Contact, MoveError, Mover, MAX_STEPS};

fn v(x: i64, y: i64) -> Vec2 {
    Vec2 { x, y }
}

fn pose(x: i64, y: i64, angle: i64) -> Pose {
    Pose { pos: v(x, y), angle }
}

fn touching(nx: i64, ny: i64) -> Option<Contact> {
    Some(Contact { normal: v(nx, ny), depth: 0 })
}

fn run(m: &mut Mover, toi: Option<u64>) {
    let mut guard = 0;
    while !m.done {
        let tois: Vec<Option<u64>> =
            (0..m.contacts.len()).map(|i| if m.needs_toi(i) { toi } else { None }).collect();
        m.advance(&tois).unwrap();
        guard += 1;
        assert!(guard < 100);
    }
}

#[test]
fn division_rounds_toward_zero() {
    assert_eq!(div_toward_zero(7, 2), 3);
    assert_eq!(div_toward_zero(-7, 2), -3);
    assert_eq!(div_toward_zero(0, 5), 0);
}

#[test]
fn slide_on_axis_wall_is_exact() {
    assert_eq!(slide_along(v(0, SCALE), v(3, 5)), v(3, 0));
    assert_eq!(slide_along(v(SCALE, 0), v(300_000, 400_000)), v(0, 400_000));
}

#[test]
fn slide_head_on_is_zero() {
    assert_eq!(slide_along(v(SCALE, 0), v(500_000, 0)), v(0, 0));
}

#[test]
fn slide_on_diagonal_wall() {
    // 45 degree wall: the projection of (1, 0) onto the tangent (1, -1)/sqrt2 is (0.5, -0.5).
    let n = v(707_107, 707_107);
    let r = slide_along(n, v(1_000_000, 0));
    assert!((r.x - 500_000).abs() <= 2);
    assert!((r.y + 500_000).abs() <= 2);
}

#[test]
fn advance_by_half_a_tick() {
    assert_eq!(advance_by(v(0, 0), v(10, -10), SCALE / 2), v(5, -5));
    assert_eq!(advance_by(v(7, 7), v(-3, 3), SCALE), v(4, 10));
}

#[test]
fn free_move_translates_and_rotates_exactly() {
    let m = Mover::new(pose(1, 2, 3), v(10, 20), 5, Vec::new());
    assert!(m.done);
    assert_eq!(m.pose, pose(11, 22, 8));
}

#[test]
fn free_move_of_tiny_velocity_still_translates() {
    let m = Mover::new(pose(0, 0, 0), v(1, -1), 0, Vec::new());
    assert_eq!(m.pose.pos, v(1, -1));
}

#[test]
fn rest_keeps_pose_with_contacts() {
    let contacts = vec![touching(SCALE, 0), Some(Contact { normal: v(0, SCALE), depth: -500 }), None];
    let mut m = Mover::new(pose(4, 5, 6), v(0, 0), 0, contacts);
    run(&mut m, Some(0));
    assert_eq!(m.pose, pose(4, 5, 6));
}

#[test]
fn head_on_into_touching_wall_stops() {
    let mut m = Mover::new(pose(0, 0, 0), v(500_000, 0), 0, vec![touching(SCALE, 0)]);
    assert!(m.done);
    assert_eq!(m.vel, v(0, 0));
    run(&mut m, None);
    assert_eq!(m.pose.pos, v(0, 0));
}

#[test]
fn head_on_sweep_stops_at_impact() {
    let wall = Some(Contact { normal: v(SCALE, 0), depth: -100_000 });
    let mut m = Mover::new(pose(0, 0, 0), v(500_000, 0), 0, vec![wall]);
    assert!(!m.done);
    assert!(m.needs_toi(0));
    m.advance(&vec![Some(400_000)]).unwrap();
    assert_eq!(m.pose.pos, v(200_000, 0));
    assert_eq!(m.vel, v(0, 0));
    assert!(m.done);
}

#[test]
fn oblique_slides_along_wall() {
    let mut m = Mover::new(pose(0, 0, 0), v(300_000, 400_000), 0, vec![touching(SCALE, 0)]);
    assert_eq!(m.vel, v(0, 400_000));
    assert!(!m.needs_toi(0));
    run(&mut m, Some(0));
    assert_eq!(m.pose.pos, v(0, 400_000));
}

#[test]
fn concave_corner_stops() {
    let contacts = vec![touching(SCALE, 0), touching(0, SCALE)];
    let mut m = Mover::new(pose(9, 9, 0), v(300_000, 400_000), 7, contacts);
    assert!(m.done);
    assert_eq!(m.vel, v(0, 0));
    run(&mut m, None);
    assert_eq!(m.pose, pose(9, 9, 7));
}

#[test]
fn squeezed_between_disagreeing_walls_stops() {
    // Leaving the floor below lets the entity slide at most 0.3 along its
    // tangent; the slope ahead asks for less in the same direction.
    let contacts = vec![touching(0, -SCALE), touching(200_000, 979_796)];
    let m = Mover::new(pose(0, 0, 0), v(300_000, 400_000), 0, contacts);
    assert_eq!(m.min_pos, 300_000_000_000);
    assert_eq!(m.vel, v(0, 0));
    assert!(m.done);
}

#[test]
fn sweep_then_slide_along_hit_wall() {
    let wall = Some(Contact { normal: v(SCALE, 0), depth: -50_000 });
    let mut m = Mover::new(pose(0, 0, 0), v(300_000, 400_000), 0, vec![wall]);
    m.advance(&vec![Some(500_000)]).unwrap();
    assert_eq!(m.pose.pos, v(150_000, 200_000));
    assert_eq!(m.vel, v(0, 400_000));
    assert_eq!(m.remaining, 500_000);
    assert!(!m.done);
    m.advance(&vec![Some(0)]).unwrap();
    assert!(m.done);
    assert_eq!(m.pose.pos, v(150_000, 400_000));
}

#[test]
fn earliest_impact_wins() {
    let a = Some(Contact { normal: v(SCALE, 0), depth: -50_000 });
    let b = Some(Contact { normal: v(0, SCALE), depth: -50_000 });
    let mut m = Mover::new(pose(0, 0, 0), v(300_000, 400_000), 0, vec![a, b]);
    m.advance(&vec![Some(600_000), Some(250_000)]).unwrap();
    assert_eq!(m.pose.pos, v(75_000, 100_000));
    assert_eq!(m.vel, v(300_000, 0));
    assert!(m.exhausted[1]);
    assert!(!m.exhausted[0]);
}

#[test]
fn impact_at_or_after_the_tick_end_is_ignored() {
    let a = Some(Contact { normal: v(SCALE, 0), depth: -50_000 });
    let mut m = Mover::new(pose(0, 0, 0), v(300_000, 400_000), 0, vec![a]);
    m.advance(&vec![Some(SCALE as u64)]).unwrap();
    assert!(m.done);
    assert_eq!(m.pose.pos, v(300_000, 400_000));
}

#[test]
fn impact_without_normal_is_an_error() {
    let mut m = Mover::new(pose(0, 0, 0), v(500_000, 0), 0, vec![None]);
    assert!(m.needs_toi(0));
    let before = m.pose;
    assert_eq!(m.advance(&vec![Some(100)]), Err(MoveError::NoContactNormal));
    assert_eq!(m.pose, before);
}

#[test]
fn sweep_halts_after_step_limit() {
    let wall = Some(Contact { normal: v(SCALE, 0), depth: -50_000 });
    let mut m = Mover::new(pose(0, 0, 0), v(300_000, 400_000), 0, vec![wall; 30]);
    run(&mut m, Some(0));
    assert_eq!(m.steps, MAX_STEPS + 1);
    assert_eq!(m.pose.pos, v(0, 0));
}
