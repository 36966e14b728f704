use maze::{d, Grid, Maze, MazeError};

fn open_grid(width: i64, height: i64, start: (i64, i64), end: (i64, i64)) -> Grid {
    Grid { start, end, width, height, walls: vec![] }
}

fn is_valid_path(g: &Grid, p: &[(i64, i64)]) -> bool {
    if p.is_empty() || p[0] != g.start || p[p.len() - 1] != g.end {
        return false;
    }
    for i in 0..p.len() - 1 {
        let (a, b) = (p[i], p[i + 1]);
        let inside = |c: (i64, i64)| 0 <= c.0 && c.0 < g.width && 0 <= c.1 && c.1 < g.height;
        if !inside(a) || !inside(b) || g.walls.contains(&b) || (a.0 - b.0).abs() + (a.1 - b.1).abs() != 1 {
            return false;
        }
    }
    true
}

fn sorted(mut v: Vec<(i64, i64)>) -> Vec<(i64, i64)> {
    v.sort();
    v
}

#[test]
fn half_cell_offset_blocks_three_cells() {
    let mut m = Maze::new(10);
    m.size = (100, 100);
    m.walls.push((15, 0, 20, 10));
    let g = m.grid();
    assert_eq!(sorted(g.walls), vec![(1, 0), (2, 0), (3, 0)]);
}

#[test]
fn obstacles_are_shifted_by_the_origin() {
    let mut m = Maze::new(10);
    m.origin = (100, 200);
    m.size = (50, 50);
    m.walls.push((120, 230, 10, 10));
    let g = m.grid();
    assert_eq!(g.walls, vec![(2, 3)]);
}

#[test]
fn overlapping_obstacles_block_each_cell_once() {
    let mut m = Maze::new(1);
    m.size = (10, 10);
    m.walls.push((0, 0, 3, 2));
    m.walls.push((2, 1, 3, 2));
    let g = m.grid();
    assert_eq!(g.walls.len(), 11);
    assert_eq!(g.walls.iter().filter(|c| **c == (2, 1)).count(), 1);
}

#[test]
fn empty_and_negative_obstacles_block_nothing() {
    let mut m = Maze::new(1);
    m.size = (10, 10);
    m.walls.push((3, 3, 0, 5));
    m.walls.push((3, 3, -2, 5));
    let g = m.grid();
    assert!(g.walls.is_empty());
}

#[test]
fn fractional_size_rounds_up() {
    let mut m = Maze::new(10);
    m.size = (25, 30);
    let g = m.grid();
    assert_eq!((g.width, g.height), (3, 3));
}

#[test]
fn zero_size_gives_empty_grid() {
    let m = Maze::new(4);
    let g = m.grid();
    assert_eq!((g.width, g.height), (0, 0));
    assert!(g.walls.is_empty());
}

#[test]
fn start_and_end_round_to_nearest_cell() {
    let mut m = Maze::new(10);
    m.origin = (5, 5);
    m.start = (19, 41);
    m.end = (-20, -9);
    let g = m.grid();
    assert_eq!(g.start, (1, 4));
    assert_eq!(g.end, (-3, -1));
}

#[test]
fn rounding_halves_go_away_from_zero() {
    let mut m = Maze::new(10);
    m.start = (15, 25);
    m.end = (-15, -25);
    let g = m.grid();
    assert_eq!(g.start, (2, 3));
    assert_eq!(g.end, (-2, -3));
}

#[test]
fn new_maze_is_empty() {
    let m = Maze::new(7);
    assert_eq!(m.unit, 7);
    assert_eq!(m.origin, (0, 0));
    assert_eq!(m.start, (0, 0));
    assert_eq!(m.end, (0, 0));
    assert_eq!(m.size, (0, 0));
    assert!(m.walls.is_empty());
}

#[test]
fn heuristic_is_manhattan_distance() {
    assert_eq!(d((0, 0), (3, 4)), 7);
    assert_eq!(d((3, 4), (0, 0)), 7);
    assert_eq!(d((-2, 5), (1, -1)), 9);
    assert_eq!(d((5, 5), (5, 5)), 0);
    assert_eq!(d((i64::MIN, i64::MIN), (i64::MAX, i64::MAX)), 2 * (u64::MAX as u128));
}

#[test]
fn open_grid_path_has_manhattan_length() {
    let g = open_grid(10, 10, (0, 0), (3, 4));
    let p = g.path().unwrap();
    assert_eq!(p.len() - 1, 7);
    assert!(is_valid_path(&g, &p));
}

#[test]
fn open_grid_path_toward_origin() {
    let g = open_grid(6, 6, (5, 5), (1, 2));
    let p = g.path().unwrap();
    assert_eq!(p.len() - 1, 7);
    assert!(is_valid_path(&g, &p));
}

#[test]
fn same_grid_gives_same_result() {
    let mut g = open_grid(8, 8, (0, 0), (7, 7));
    g.walls = vec![(3, 0), (3, 1), (3, 2), (3, 3), (5, 7), (5, 6)];
    assert_eq!(g.path(), g.path());
    let mut h = open_grid(5, 5, (2, 2), (4, 4));
    h.walls = vec![(1, 2), (3, 2), (2, 1), (2, 3)];
    assert_eq!(h.path(), h.path());
}

#[test]
fn enclosed_start_has_no_path() {
    let mut g = open_grid(7, 7, (3, 3), (0, 0));
    for x in 2..5 {
        for y in 2..5 {
            if (x, y) != (3, 3) {
                g.walls.push((x, y));
            }
        }
    }
    assert_eq!(g.path(), None);
}

#[test]
fn start_shut_in_by_four_walls_has_no_path() {
    let mut g = open_grid(5, 5, (2, 2), (4, 4));
    g.walls = vec![(1, 2), (3, 2), (2, 1), (2, 3)];
    assert_eq!(g.path(), None);
}

#[test]
fn start_equal_to_end_is_a_single_cell() {
    let g = open_grid(4, 4, (2, 1), (2, 1));
    assert_eq!(g.path(), Some(vec![(2, 1)]));
    let outside = open_grid(4, 4, (-5, 9), (-5, 9));
    assert_eq!(outside.path(), Some(vec![(-5, 9)]));
}

#[test]
fn path_includes_both_endpoints() {
    let mut g = open_grid(6, 4, (0, 3), (5, 0));
    g.walls = vec![(2, 1), (2, 2), (2, 3)];
    let p = g.path().unwrap();
    assert_eq!(p[0], (0, 3));
    assert_eq!(p[p.len() - 1], (5, 0));
    assert!(is_valid_path(&g, &p));
}

#[test]
fn path_goes_around_a_wall() {
    let mut g = open_grid(5, 5, (0, 2), (4, 2));
    g.walls = vec![(2, 0), (2, 1), (2, 2), (2, 3)];
    let p = g.path().unwrap();
    assert!(is_valid_path(&g, &p));
    assert_eq!(p.len() - 1, 8);
    assert!(p.contains(&(2, 4)));
}

#[test]
fn start_outside_grid_has_no_path() {
    let g = open_grid(4, 4, (-1, 0), (2, 2));
    assert_eq!(g.path(), None);
    let far = open_grid(4, 4, (10, 10), (2, 2));
    assert_eq!(far.path(), None);
}

#[test]
fn end_outside_grid_has_no_path() {
    let g = open_grid(4, 4, (0, 0), (4, 0));
    assert_eq!(g.path(), None);
}

#[test]
fn walled_end_has_no_path() {
    let mut g = open_grid(4, 4, (0, 0), (3, 3));
    g.walls = vec![(3, 3)];
    assert_eq!(g.path(), None);
}

#[test]
fn walled_start_still_moves() {
    let mut g = open_grid(3, 1, (0, 0), (2, 0));
    g.walls = vec![(0, 0)];
    assert_eq!(g.path(), Some(vec![(0, 0), (1, 0), (2, 0)]));
}

#[test]
fn walls_outside_grid_are_ignored_by_search() {
    let mut g = open_grid(3, 1, (0, 0), (2, 0));
    g.walls = vec![(-1, 0), (5, 5), (1, 1)];
    assert_eq!(g.path(), Some(vec![(0, 0), (1, 0), (2, 0)]));
}

#[test]
fn rasterized_scene_is_solved() {
    let mut m = Maze::new(10);
    m.origin = (-50, -50);
    m.size = (50, 30);
    m.start = (-45, -48);
    m.end = (-8, -48);
    m.walls.push((-28, -52, 5, 32));
    let g = m.grid();
    assert_eq!((g.width, g.height), (5, 3));
    assert_eq!(g.start, (1, 0));
    assert_eq!(g.end, (4, 0));
    assert_eq!(sorted(g.walls.clone()), vec![(2, -1), (2, 0), (2, 1), (2, 2)]);
    assert_eq!(g.path(), None);
    let mut m2 = Maze::new(10);
    m2.size = (60, 40);
    m2.start = (10, 5);
    m2.end = (50, 5);
    m2.walls.push((22, 0, 5, 25));
    let g2 = m2.grid();
    let p = g2.path().unwrap();
    assert_eq!((g2.start, g2.end), ((1, 1), (5, 1)));
    assert!(is_valid_path(&g2, &p));
    assert_eq!(p.len() - 1, 8);
}

#[test]
fn error_messages() {
    let e = MazeError::XMLError;
    assert_eq!(e.message(), "xml error");
    let io = MazeError::IOError(std::io::Error::new(std::io::ErrorKind::NotFound, "missing"));
    assert_eq!(io.message(), "io error");
}
