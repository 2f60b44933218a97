use std::collections::VecDeque;

use maze_walker::direction::Direction;
use maze_walker::maze::{Maze, MazeError};
use maze_walker::random::RandomSource;

fn generate(width: usize, height: usize, seed: u64) -> Maze {
    let mut rng = RandomSource::seeded(seed);
    Maze::new(width, height, &mut rng).expect("valid size")
}

fn open(m: &Maze, i: usize, j: usize, d: Direction) -> bool {
    match d {
        Direction::North => !m.north(i, j),
        Direction::East => !m.east(i, j),
        Direction::South => !m.south(i, j),
        Direction::West => !m.west(i, j),
    }
}

fn neighbour(i: usize, j: usize, d: Direction) -> (usize, usize) {
    match d {
        Direction::North => (i - 1, j),
        Direction::East => (i, j + 1),
        Direction::South => (i + 1, j),
        Direction::West => (i, j - 1),
    }
}

const ALL: [Direction; 4] = [Direction::North, Direction::East, Direction::South, Direction::West];

fn passage_count(m: &Maze) -> usize {
    let mut n = 0;
    for i in 0..m.height {
        for j in 0..m.width {
            if open(m, i, j, Direction::East) {
                n += 1;
            }
            if open(m, i, j, Direction::South) {
                n += 1;
            }
        }
    }
    n
}

fn reached_from_origin(m: &Maze) -> Vec<Vec<bool>> {
    let mut seen = vec![vec![false; m.width]; m.height];
    let mut queue = VecDeque::new();
    seen[0][0] = true;
    queue.push_back((0usize, 0usize));
    while let Some((i, j)) = queue.pop_front() {
        for d in ALL {
            if open(m, i, j, d) {
                let (a, b) = neighbour(i, j, d);
                if !seen[a][b] {
                    seen[a][b] = true;
                    queue.push_back((a, b));
                }
            }
        }
    }
    seen
}

#[test]
fn opposite_directions() {
    assert_eq!(Direction::North.opposite(), Direction::South);
    assert_eq!(Direction::East.opposite(), Direction::West);
    assert_eq!(Direction::South.opposite(), Direction::North);
    assert_eq!(Direction::West.opposite(), Direction::East);
}

#[test]
fn too_small_sizes_are_rejected() {
    let mut rng = RandomSource::seeded(1);
    assert_eq!(Maze::new(1, 5, &mut rng).unwrap_err(), MazeError::InvalidSize);
    assert_eq!(Maze::new(5, 1, &mut rng).unwrap_err(), MazeError::InvalidSize);
    assert_eq!(Maze::new(0, 0, &mut rng).unwrap_err(), MazeError::InvalidSize);
    assert!(Maze::new(2, 2, &mut rng).is_ok());
}

#[test]
fn generated_maze_has_requested_shape() {
    let m = generate(7, 4, 3);
    assert_eq!(m.width, 7);
    assert_eq!(m.height, 4);
    assert_eq!(m.grid.len(), 4);
    assert!(m.grid.iter().all(|row| row.len() == 7));
}

#[test]
fn generated_mazes_are_connected() {
    for seed in 0..20 {
        for &(w, h) in &[(2usize, 2usize), (3, 3), (5, 4), (20, 20), (9, 13)] {
            let m = generate(w, h, seed);
            let seen = reached_from_origin(&m);
            for i in 0..h {
                for j in 0..w {
                    let carved = i < h - 1 && j < w - 1;
                    assert_eq!(seen[i][j], carved, "cell ({}, {}) of {}x{} seed {}", i, j, w, h, seed);
                }
            }
        }
    }
}

#[test]
fn generated_mazes_have_tree_passage_count() {
    for seed in 0..20 {
        for &(w, h) in &[(2usize, 2usize), (3, 3), (5, 4), (20, 20), (9, 13)] {
            let m = generate(w, h, seed);
            assert_eq!(passage_count(&m), (w - 1) * (h - 1) - 1);
        }
    }
}

#[test]
fn generated_passages_are_symmetric() {
    for seed in 0..20 {
        let m = generate(12, 8, seed);
        for i in 0..m.height {
            for j in 0..m.width {
                for d in ALL {
                    if open(&m, i, j, d) {
                        assert!(i < m.height - 1 && j < m.width - 1);
                        let (a, b) = neighbour(i, j, d);
                        assert!(a < m.height - 1 && b < m.width - 1);
                        assert!(open(&m, a, b, d.opposite()));
                    }
                }
            }
        }
    }
}

#[test]
fn border_cells_stay_walled() {
    let m = generate(6, 5, 11);
    for i in 0..m.height {
        for j in 0..m.width {
            if i == m.height - 1 || j == m.width - 1 {
                assert_eq!(m.grid[i][j], 0);
                for d in ALL {
                    assert!(!open(&m, i, j, d));
                }
            }
        }
    }
}

#[test]
fn two_by_two_maze_has_one_cell_and_no_passage() {
    let m = generate(2, 2, 4);
    assert_eq!(passage_count(&m), 0);
    assert!(m.grid.iter().all(|row| row.iter().all(|&b| b == 0)));
}

#[test]
fn three_by_three_maze_is_a_three_passage_tree() {
    let m = generate(3, 3, 42);
    assert_eq!(passage_count(&m), 3);
    let seen = reached_from_origin(&m);
    assert!(seen[0][0] && seen[0][1] && seen[1][0] && seen[1][1]);
}

#[test]
fn same_seed_gives_same_maze() {
    let a = generate(10, 10, 99);
    let b = generate(10, 10, 99);
    assert_eq!(a.grid, b.grid);
}

#[test]
fn wall_predicates_read_the_masks() {
    let m = Maze { grid: vec![vec![2, 12, 0], vec![2, 9, 0], vec![0, 0, 0]], width: 3, height: 3 };
    assert!(m.north(0, 0) && !m.east(0, 0) && m.south(0, 0) && m.west(0, 0));
    assert!(m.north(0, 1) && m.east(0, 1) && !m.south(0, 1) && !m.west(0, 1));
    assert!(!m.north(1, 1) && m.east(1, 1) && m.south(1, 1) && !m.west(1, 1));
    assert!(m.north(2, 2) && m.east(2, 2) && m.south(2, 2) && m.west(2, 2));
}

#[test]
fn text_picture_of_a_small_maze() {
    // (0,0) east to (0,1), south to (1,1), west to (1,0)
    let m = Maze { grid: vec![vec![2, 12, 0], vec![2, 9, 0], vec![0, 0, 0]], width: 3, height: 3 };
    let lines: Vec<String> = m.text_lines().into_iter().map(|l| l.into_iter().collect()).collect();
    assert_eq!(lines, vec![" ___".to_string(), "|_  |".to_string(), "|___|".to_string()]);
}

#[test]
fn text_picture_has_a_line_per_carved_row() {
    let m = generate(6, 4, 8);
    let lines = m.text_lines();
    assert_eq!(lines.len(), 4);
    assert_eq!(lines[0].len(), 1 + 2 * 6 - 3);
    for line in &lines[1..] {
        assert_eq!(line.len(), 1 + 2 * 5);
        assert_eq!(line[0], '|');
    }
}

#[test]
fn different_seeds_give_different_mazes() {
    let first = generate(10, 10, 0);
    let differing = (1..10).filter(|&seed| generate(10, 10, seed).grid != first.grid).count();
    assert!(differing > 0);
}
