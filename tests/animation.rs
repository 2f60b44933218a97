use maze_walker::animation::{Animation, State};
use maze_walker::direction::Direction;
use maze_walker::maze::Maze;
use maze_walker::motion::settle;
use maze_walker::random::RandomSource;
use maze_walker::specials::SpecialTiles;
use maze_walker::walker::Walker;

/// (0,0) east to (0,1), south to (1,1), west to (1,0).
fn corridor() -> Maze {
    Maze { grid: vec![vec![2, 12, 0], vec![2, 9, 0], vec![0, 0, 0]], width: 3, height: 3 }
}

#[test]
fn special_tiles_insert_contains_remove() {
    let mut s = SpecialTiles::new();
    assert!(!s.contains((1, 2)));
    s.insert((1, 2));
    s.insert((3, 4));
    s.insert((1, 2));
    assert!(s.contains((1, 2)));
    assert!(s.contains((3, 4)));
    assert!(!s.contains((2, 1)));
    s.remove((1, 2));
    assert!(!s.contains((1, 2)));
    assert!(s.contains((3, 4)));
    s.remove((9, 9));
    assert!(s.contains((3, 4)));
}

#[test]
fn animation_starts_walking_upright() {
    let m = corridor();
    let a = Animation::new(Walker::new(&m, 0, 0), SpecialTiles::new());
    assert_eq!(a.state, State::Walking);
    assert!(!a.upside_down);
}

#[test]
fn incomplete_motion_changes_nothing() {
    let m = corridor();
    let mut rng = RandomSource::seeded(1);
    let mut a = Animation::new(Walker::new(&m, 0, 0), SpecialTiles::new());
    a.update(&mut rng, false, Some(Direction::East));
    assert_eq!(a.state, State::Walking);
    assert_eq!(a.walker.pos(), (0, 0));
}

#[test]
fn walking_on_without_turn_or_special() {
    let m = corridor();
    let mut rng = RandomSource::seeded(1);
    let mut a = Animation::new(Walker::new(&m, 0, 0), SpecialTiles::new());
    a.update(&mut rng, true, Some(Direction::East));
    assert_eq!(a.walker.pos(), (0, 1));
    assert_eq!(a.state, State::Walking);
}

#[test]
fn walking_then_turning_when_camera_faces_elsewhere() {
    let m = corridor();
    let mut rng = RandomSource::seeded(1);
    let mut a = Animation::new(Walker::new(&m, 0, 0), SpecialTiles::new());
    a.update(&mut rng, true, None);
    assert_eq!(a.state, State::Turning);
    a.update(&mut rng, true, Some(Direction::East));
    assert_eq!(a.state, State::Walking);
    assert_eq!(a.walker.pos(), (0, 1));
}

#[test]
fn special_tile_rolls_once() {
    let m = corridor();
    let mut rng = RandomSource::seeded(1);
    let mut specials = SpecialTiles::new();
    specials.insert((0, 1));
    let mut a = Animation::new(Walker::new(&m, 0, 0), specials);
    // walk onto the special tile, already facing east
    a.update(&mut rng, true, Some(Direction::East));
    assert_eq!(a.walker.pos(), (0, 1));
    assert_eq!(a.state, State::Rolling);
    a.update(&mut rng, false, Some(Direction::East));
    assert_eq!(a.state, State::Rolling);
    assert!(!a.upside_down);
    a.update(&mut rng, true, Some(Direction::East));
    assert_eq!(a.state, State::Walking);
    assert!(a.upside_down);
    assert!(!a.specials.contains((0, 1)));
    // walk to the far dead end and back over the tile: no second roll
    let mut rolls = 0;
    for _ in 0..40 {
        let facing = Some(a.walker.direction);
        a.update(&mut rng, true, facing);
        if a.state == State::Rolling {
            rolls += 1;
        }
    }
    assert_eq!(rolls, 0);
    assert!(a.upside_down);
}

#[test]
fn special_tile_reached_by_a_turn_rolls_after_turning() {
    let m = corridor();
    let mut rng = RandomSource::seeded(1);
    let mut specials = SpecialTiles::new();
    specials.insert((1, 1));
    let mut a = Animation::new(Walker::new(&m, 0, 1), specials);
    a.walker.direction = Direction::East;
    a.update(&mut rng, true, Some(Direction::East));
    assert_eq!(a.walker.pos(), (1, 1));
    assert_eq!(a.state, State::Turning);
    a.update(&mut rng, true, Some(Direction::South));
    assert_eq!(a.state, State::Rolling);
    a.update(&mut rng, true, Some(Direction::South));
    assert_eq!(a.state, State::Walking);
    assert!(a.upside_down);
    assert!(!a.specials.contains((1, 1)));
}

#[test]
fn many_specials_each_roll_at_most_once() {
    let mut rng = RandomSource::seeded(77);
    let m = Maze::new(8, 8, &mut rng).unwrap();
    let mut specials = SpecialTiles::new();
    for i in 0..7 {
        specials.insert((i, (i * 3) % 7));
    }
    let mut a = Animation::new(Walker::new(&m, 0, 0), specials);
    let mut rolled: Vec<(usize, usize)> = Vec::new();
    let mut flips = 0;
    for step in 0..5000 {
        let before = a.state;
        let facing = if step % 3 == 0 { None } else { Some(a.walker.direction) };
        a.update(&mut rng, true, facing);
        if before != State::Rolling && a.state == State::Rolling {
            assert!(!rolled.contains(&a.walker.pos()));
            rolled.push(a.walker.pos());
        }
        if before == State::Rolling && a.state == State::Walking {
            flips += 1;
        }
    }
    assert_eq!(a.upside_down, flips % 2 == 1);
}

#[test]
fn settle_snaps_exactly_on_overshoot() {
    let target = [0.5f32, 0.0, 7.5];
    let stepped = [0.50001f32, 0.0, 7.6];
    let (p, done) = settle(stepped, target, true);
    assert!(done);
    assert_eq!(p, target);
}

#[test]
fn settle_keeps_stepping_before_target() {
    let target = [0.5f32, 0.0, 7.5];
    let stepped = [0.5f32, 0.0, 6.25];
    let (p, done) = settle(stepped, target, false);
    assert!(!done);
    assert_eq!(p, stepped);
}

#[test]
fn settle_snaps_rotations_and_rolls() {
    let facing = [0.0f32, 0.0, -1.0];
    let turned_past = [0.0123f32, 0.0, -0.99992];
    assert_eq!(settle(turned_past, facing, true), (facing, true));
    let up = [0.0f32, -1.0, 0.0];
    let rolled_near = [0.04f32, -0.9992, 0.0];
    assert_eq!(settle(rolled_near, up, true), (up, true));
}
