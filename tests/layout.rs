use maze_walker::layout::{scatter, tiles_of_indices, wall_slots, Side, WallSlot};
use maze_walker::maze::Maze;
use maze_walker::random::RandomSource;
use maze_walker::texture::TexType;

fn corridor() -> Maze {
    Maze { grid: vec![vec![2, 12, 0], vec![2, 9, 0], vec![0, 0, 0]], width: 3, height: 3 }
}

fn slot(row: usize, col: usize, side: Side) -> WallSlot {
    WallSlot { row, col, side }
}

#[test]
fn wall_slots_of_two_by_two() {
    let m = Maze { grid: vec![vec![0, 0], vec![0, 0]], width: 2, height: 2 };
    let slots = wall_slots(&m);
    let mut expected = vec![slot(0, 0, Side::North), slot(0, 1, Side::North), slot(0, 0, Side::West), slot(1, 0, Side::West)];
    for i in 0..2 {
        for j in 0..2 {
            expected.push(slot(i, j, Side::South));
            expected.push(slot(i, j, Side::East));
            expected.push(slot(i, j, Side::Ceiling));
            expected.push(slot(i, j, Side::Floor));
        }
    }
    assert_eq!(slots, expected);
}

#[test]
fn wall_slots_skip_open_sides() {
    let m = corridor();
    let slots = wall_slots(&m);
    // (0,0) is open to the east, (0,1) to the south
    assert!(!slots.contains(&slot(0, 0, Side::East)));
    assert!(slots.contains(&slot(0, 0, Side::South)));
    assert!(!slots.contains(&slot(0, 1, Side::South)));
    assert!(slots.contains(&slot(0, 1, Side::East)));
    // 3 + 3 border panels, 9 ceilings, 9 floors, 18 sides less 3 passages
    assert_eq!(slots.len(), 3 + 3 + 9 + 9 + 18 - 3);
}

#[test]
fn tile_indices_map_row_by_row() {
    let tiles = tiles_of_indices(&vec![0, 4, 5, 23], 5);
    assert_eq!(tiles, vec![(0, 0), (0, 4), (1, 0), (4, 3)]);
}

#[test]
fn scatter_picks_six_percent() {
    let mut rng = RandomSource::seeded(3);
    let tiles = scatter(20, 20, 6, &mut rng);
    assert_eq!(tiles.len(), 24);
    for (k, t) in tiles.iter().enumerate() {
        assert!(t.0 < 20 && t.1 < 20);
        assert!(!tiles[k + 1..].contains(t));
    }
}

#[test]
fn scatter_picks_at_least_two() {
    let mut rng = RandomSource::seeded(4);
    let tiles = scatter(3, 3, 2, &mut rng);
    assert_eq!(tiles.len(), 2);
    assert_ne!(tiles[0], tiles[1]);
    let tiles = scatter(2, 1, 0, &mut rng);
    assert_eq!(tiles.len(), 2);
}

#[test]
fn texture_tiling() {
    assert_eq!(TexType::Rat.tiling(), 1);
    assert_eq!(TexType::Brick.tiling(), 1);
    assert_eq!(TexType::Thing.tiling(), 1);
    assert_eq!(TexType::Ceiling.tiling(), 4);
    assert_eq!(TexType::Floor.tiling(), 4);
}
