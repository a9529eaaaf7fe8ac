use rts_core::unit::{Heading, Nemo, Point, State, CAST_MS};

fn p(x: i32, y: i32) -> Point {
    Point { x, y }
}

#[test]
fn new_unit_is_stopped_at_origin() {
    let u = Nemo::new();
    assert_eq!(u.position(), p(0, 0));
    assert_eq!(u.state(), State::Stopped);
    assert_eq!(u.q_flag(), 0);
}

#[test]
fn walk_of_a_hundred_units_takes_two_seconds() {
    let mut u = Nemo::new();
    u.go(p(100_000, 0));
    assert_eq!(u.heading(), Heading { dx: 100_000, dy: 0 });
    u.update(1000);
    assert_eq!(u.position(), p(50_000, 0));
    assert_eq!(u.state(), State::Moving { dest: p(100_000, 0) });
    u.update(1000);
    assert_eq!(u.position(), p(100_000, 0));
    assert_eq!(u.state(), State::Stopped);
}

#[test]
fn arrival_snaps_without_overshoot() {
    let mut u = Nemo::new();
    u.go(p(30_000, 40_000));
    u.update(300);
    // 15 units along a 3-4-5 line
    assert_eq!(u.position(), p(9_000, 12_000));
    u.update(10_000);
    assert_eq!(u.position(), p(30_000, 40_000));
    assert_eq!(u.state(), State::Stopped);
}

#[test]
fn many_small_frames_reach_the_destination_exactly() {
    let mut u = Nemo::new();
    let dest = p(-12_345, 6_789);
    u.go(dest);
    let mut frames = 0;
    while u.state() != State::Stopped {
        let before = u.position();
        u.update(17);
        let after = u.position();
        let dx = (after.x - before.x) as i64;
        let dy = (after.y - before.y) as i64;
        assert!(dx * dx + dy * dy <= 850 * 850);
        frames += 1;
        assert!(frames < 10_000);
    }
    assert_eq!(u.position(), dest);
}

#[test]
fn stopped_unit_does_not_move() {
    let mut u = Nemo::new();
    u.update(5000);
    assert_eq!(u.position(), p(0, 0));
    assert_eq!(u.state(), State::Stopped);
}

#[test]
fn cast_runs_for_its_duration() {
    let mut u = Nemo::new();
    u.q();
    assert_eq!(u.state(), State::QSkill { t: 0 });
    assert_eq!(u.q_flag(), 1);
    u.update(400);
    u.update(400);
    assert_eq!(u.state(), State::QSkill { t: 800 });
    u.update(199);
    assert_eq!(u.state(), State::QSkill { t: 999 });
    u.update(1);
    assert_eq!(u.state(), State::Stopped);
    assert_eq!(u.q_flag(), 0);
    assert_eq!(CAST_MS, 1000);
}

#[test]
fn cast_ends_on_long_frame() {
    let mut u = Nemo::new();
    u.q();
    u.update(u32::MAX);
    assert_eq!(u.state(), State::Stopped);
}

#[test]
fn cast_blocks_move() {
    let mut u = Nemo::new();
    u.q();
    u.update(250);
    u.go(p(5_000, 5_000));
    assert_eq!(u.state(), State::QSkill { t: 250 });
    assert_eq!(u.heading(), Heading { dx: 1, dy: 0 });
    u.update(750);
    assert_eq!(u.state(), State::Stopped);
    assert_eq!(u.position(), p(0, 0));
}

#[test]
fn cast_abandons_move() {
    let mut u = Nemo::new();
    u.go(p(100_000, 0));
    u.update(100);
    u.q();
    u.update(1000);
    assert_eq!(u.state(), State::Stopped);
    u.update(1000);
    assert_eq!(u.position(), p(5_000, 0));
}

#[test]
fn move_supersedes_move() {
    let mut u = Nemo::new();
    u.go(p(10_000, 0));
    u.go(p(0, -20_000));
    assert_eq!(u.state(), State::Moving { dest: p(0, -20_000) });
    assert_eq!(u.heading(), Heading { dx: 0, dy: -20_000 });
}

#[test]
fn move_to_own_position_is_ignored() {
    let mut u = Nemo::new();
    u.go(p(0, 0));
    assert_eq!(u.state(), State::Stopped);
    assert_eq!(u.heading(), Heading { dx: 1, dy: 0 });
}

#[test]
fn walk_across_the_whole_map() {
    let mut u = Nemo::new();
    u.go(p(i32::MIN, i32::MAX));
    u.update(u32::MAX);
    assert_eq!(u.position(), p(i32::MIN, i32::MAX));
    u.go(p(i32::MAX, i32::MIN));
    u.update(1);
    assert!(u.position().x > i32::MIN);
    assert!(u.position().y < i32::MAX);
}
