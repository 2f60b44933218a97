use maze_walker::direction::Direction;
use maze_walker::maze::Maze;
use maze_walker::random::RandomSource;
use maze_walker::walker::Walker;

fn open_count(m: &Maze, i: usize, j: usize) -> usize {
    [!m.north(i, j), !m.east(i, j), !m.south(i, j), !m.west(i, j)].iter().filter(|&&b| b).count()
}

/// (0,0) east to (0,1), south to (1,1), west to (1,0): a corridor with a
/// dead end at each of its ends.
fn corridor() -> Maze {
    Maze { grid: vec![vec![2, 12, 0], vec![2, 9, 0], vec![0, 0, 0]], width: 3, height: 3 }
}

#[test]
fn new_walker_faces_south_when_open() {
    // (0,0) open to the south only
    let m = Maze { grid: vec![vec![4, 0, 0], vec![1, 0, 0], vec![0, 0, 0]], width: 3, height: 3 };
    let w = Walker::new(&m, 0, 0);
    assert_eq!(w.direction, Direction::South);
    assert_eq!(w.pos(), (0, 0));
}

#[test]
fn new_walker_faces_east_when_south_closed() {
    let m = corridor();
    let w = Walker::new(&m, 0, 0);
    assert_eq!(w.direction, Direction::East);
    let w = Walker::new(&m, 1, 1);
    assert_eq!(w.direction, Direction::East);
    assert_eq!(w.pos(), (1, 1));
}

#[test]
fn open_reports_passages_of_the_current_cell() {
    let m = corridor();
    let w = Walker::new(&m, 0, 1);
    assert!(!w.open(&Direction::North));
    assert!(!w.open(&Direction::East));
    assert!(w.open(&Direction::South));
    assert!(w.open(&Direction::West));
}

#[test]
fn dead_end_forces_reversal() {
    let m = corridor();
    let mut rng = RandomSource::seeded(5);
    let mut w = Walker::new(&m, 0, 0);
    w.direction = Direction::West;
    w.next(&mut rng);
    assert_eq!(w.pos(), (0, 1));
    assert_eq!(w.direction, Direction::East);
}

#[test]
fn corridor_is_walked_without_turning_back() {
    let m = corridor();
    let mut rng = RandomSource::seeded(6);
    let mut w = Walker::new(&m, 0, 0);
    w.next(&mut rng);
    assert_eq!(w.pos(), (0, 1));
    w.next(&mut rng);
    assert_eq!((w.pos(), w.direction), ((1, 1), Direction::South));
    w.next(&mut rng);
    assert_eq!((w.pos(), w.direction), ((1, 0), Direction::West));
    // dead end: the only way is back
    w.next(&mut rng);
    assert_eq!((w.pos(), w.direction), ((1, 1), Direction::East));
}

#[test]
fn walled_in_walker_stays_put() {
    let m = corridor();
    let mut rng = RandomSource::seeded(7);
    let mut w = Walker::new(&m, 2, 2);
    let before = w.direction;
    w.next(&mut rng);
    assert_eq!(w.pos(), (2, 2));
    assert_eq!(w.direction, before);
}

#[test]
fn walker_turns_back_only_at_dead_ends() {
    for seed in 0..5 {
        let mut rng = RandomSource::seeded(seed);
        let m = Maze::new(12, 12, &mut rng).unwrap();
        let mut w = Walker::new(&m, 0, 0);
        for _ in 0..2000 {
            let (i, j) = w.pos();
            let exits = open_count(&m, i, j);
            let before = w.direction;
            w.next(&mut rng);
            let (a, b) = w.pos();
            assert!(a < 11 && b < 11);
            if exits >= 2 {
                assert_ne!(w.direction, before.opposite());
            }
            if exits == 1 {
                assert!(w.open(&w.direction.opposite()));
            }
        }
    }
}

#[test]
fn three_by_three_walk_scenario() {
    let mut rng = RandomSource::seeded(2024);
    let m = Maze::new(3, 3, &mut rng).unwrap();
    let mut w = Walker::new(&m, 0, 0);
    let expected_start = if m.south(0, 0) { Direction::East } else { Direction::South };
    assert_eq!(w.direction, expected_start);
    let mut previous = w.direction;
    let mut previous_exits = open_count(&m, 0, 0);
    for _ in 0..1000 {
        w.next(&mut rng);
        if w.direction == previous.opposite() {
            assert_eq!(previous_exits, 1);
        }
        let (i, j) = w.pos();
        previous = w.direction;
        previous_exits = open_count(&m, i, j);
    }
}
