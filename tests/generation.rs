use maze::geometry::{geometry_parse, MazeError};
use maze::maze::{generate_image, pop_random_wall, CellKind, Coord, Maze, CELL_SIZE};
use maze::random::Direction;
use maze::raster::Color;
use rand::rngs::StdRng;
use rand::SeedableRng;
use std::collections::VecDeque;

const PATH: Color = Color { r: 253, g: 246, b: 227 };
const WALL: Color = Color { r: 7, g: 54, b: 66 };
const BLANK: Color = Color { r: 0, g: 0, b: 0 };

fn kind(m: &Maze, x: u32, y: u32) -> CellKind {
    m.cell_kind(&Coord { x, y })
}

fn path_cells(m: &Maze) -> Vec<(u32, u32)> {
    let mut v = Vec::new();
    for y in 0..m.grid_height {
        for x in 0..m.grid_width {
            if kind(m, x, y) == CellKind::Path {
                v.push((x, y));
            }
        }
    }
    v
}

fn reached_from_start(m: &Maze) -> Vec<(u32, u32)> {
    let mut seen = vec![false; (m.grid_width * m.grid_height) as usize];
    let mut queue = VecDeque::new();
    let mut out = Vec::new();
    if kind(m, 0, 0) != CellKind::Path {
        return out;
    }
    seen[0] = true;
    queue.push_back((0u32, 0u32));
    while let Some((x, y)) = queue.pop_front() {
        out.push((x, y));
        let mut next = Vec::new();
        if x > 0 {
            next.push((x - 1, y));
        }
        if y > 0 {
            next.push((x, y - 1));
        }
        if x + 1 < m.grid_width {
            next.push((x + 1, y));
        }
        if y + 1 < m.grid_height {
            next.push((x, y + 1));
        }
        for (nx, ny) in next {
            let i = (ny * m.grid_width + nx) as usize;
            if !seen[i] && kind(m, nx, ny) == CellKind::Path {
                seen[i] = true;
                queue.push_back((nx, ny));
            }
        }
    }
    out.sort();
    out
}

fn all_pixels(m: &Maze) -> Vec<Color> {
    let mut v = Vec::new();
    for y in 0..m.height {
        for x in 0..m.width {
            v.push(m.pixel(x, y));
        }
    }
    v
}

#[test]
fn start_is_path_and_paths_are_connected() {
    for (w, h, seed) in [(40u32, 24u32, 1u64), (8, 8, 2), (13, 7, 3), (100, 100, 4), (4, 60, 5)] {
        let mut rng = StdRng::seed_from_u64(seed);
        let m = generate_image(w, h, &mut rng);
        assert_eq!(kind(&m, 0, 0), CellKind::Path);
        let mut paths = path_cells(&m);
        paths.sort();
        assert_eq!(reached_from_start(&m), paths);
    }
}

#[test]
fn generation_terminates_on_fifty_by_fifty() {
    let mut rng = StdRng::seed_from_u64(50);
    let m = generate_image(200, 200, &mut rng);
    assert_eq!(m.grid_width, 50);
    assert_eq!(m.grid_height, 50);
    assert_eq!(kind(&m, 0, 0), CellKind::Path);
    assert!(path_cells(&m).len() > 1);
}

#[test]
fn path_cells_touch_another_path_cell() {
    let mut rng = StdRng::seed_from_u64(11);
    let m = generate_image(80, 80, &mut rng);
    for (x, y) in path_cells(&m) {
        if (x, y) == (0, 0) {
            continue;
        }
        let near = [(x.wrapping_sub(1), y), (x + 1, y), (x, y.wrapping_sub(1)), (x, y + 1)];
        assert!(near.iter().any(|&(a, b)| kind(&m, a, b) == CellKind::Path));
    }
}

#[test]
fn cell_kind_reads_do_not_change_the_raster() {
    let mut rng = StdRng::seed_from_u64(3);
    let m = generate_image(32, 32, &mut rng);
    let before = all_pixels(&m);
    for y in 0..9 {
        for x in 0..9 {
            let first = kind(&m, x, y);
            assert_eq!(first, kind(&m, x, y));
        }
    }
    assert_eq!(before, all_pixels(&m));
}

#[test]
fn border_strips_are_walls_before_generation() {
    let m = Maze::new(13, 7, 4);
    assert_eq!(m.grid_width, 3);
    assert_eq!(m.grid_height, 1);
    for y in 0..7 {
        assert_eq!(m.pixel(12, y), WALL);
    }
    for y in 4..7 {
        for x in 0..13 {
            assert_eq!(m.pixel(x, y), WALL);
        }
    }
    for y in 0..4 {
        for x in 0..12 {
            assert_eq!(m.pixel(x, y), BLANK);
        }
    }
    for x in 0..3 {
        assert_eq!(kind(&m, x, 0), CellKind::Undefined);
    }
}

#[test]
fn two_by_two_grid_is_reproducible() {
    let mut some_neighbor_path = false;
    for seed in 0..40u64 {
        let a = generate_image(8, 8, &mut StdRng::seed_from_u64(seed));
        let b = generate_image(8, 8, &mut StdRng::seed_from_u64(seed));
        assert_eq!(a.grid_width, 2);
        assert_eq!(a.grid_height, 2);
        assert_eq!(all_pixels(&a), all_pixels(&b));
        assert_eq!(kind(&a, 0, 0), CellKind::Path);
        if kind(&a, 1, 0) == CellKind::Path || kind(&a, 0, 1) == CellKind::Path {
            some_neighbor_path = true;
        }
    }
    assert!(some_neighbor_path);
}

#[test]
fn single_cell_grid_has_only_the_start() {
    let mut rng = StdRng::seed_from_u64(9);
    let m = generate_image(4, 4, &mut rng);
    assert_eq!(m.grid_width, 1);
    assert_eq!(m.grid_height, 1);
    assert_eq!(path_cells(&m), vec![(0, 0)]);
    assert!(all_pixels(&m).iter().all(|&c| c == PATH));
}

#[test]
fn empty_grid_is_left_as_walls() {
    let mut rng = StdRng::seed_from_u64(1);
    let m = generate_image(3, 5, &mut rng);
    assert_eq!(m.grid_width, 0);
    assert_eq!(m.grid_height, 1);
    assert!(all_pixels(&m).iter().all(|&c| c == WALL));
}

#[test]
fn cell_size_is_four() {
    assert_eq!(CELL_SIZE, 4);
    let mut rng = StdRng::seed_from_u64(1);
    let m = generate_image(10, 9, &mut rng);
    assert_eq!(m.pixel_size, 4);
    assert_eq!((m.grid_width, m.grid_height), (2, 2));
}

#[test]
fn neighbors_stop_at_the_grid_edges() {
    let m = Maze::new(12, 8, 4);
    let corner = Coord { x: 0, y: 0 };
    assert_eq!(m.get_coord_up(&corner), None);
    assert_eq!(m.get_coord_left(&corner), None);
    assert_eq!(m.get_coord_down(&corner), Some(Coord { x: 0, y: 1 }));
    assert_eq!(m.get_coord_right(&corner), Some(Coord { x: 1, y: 0 }));
    let far = Coord { x: 2, y: 1 };
    assert_eq!(m.get_coord_down(&far), None);
    assert_eq!(m.get_coord_right(&far), None);
    assert_eq!(m.get_coord_next(&far, Direction::Up), Some(Coord { x: 2, y: 0 }));
    assert_eq!(m.get_coord_next(&far, Direction::Left), Some(Coord { x: 1, y: 1 }));
}

#[test]
fn direction_follows_remainder_by_four() {
    assert_eq!(Direction::from_u32(0), Direction::Up);
    assert_eq!(Direction::from_u32(5), Direction::Down);
    assert_eq!(Direction::from_u32(10), Direction::Left);
    assert_eq!(Direction::from_u32(u32::MAX), Direction::Right);
}

#[test]
fn painting_fills_the_whole_cell() {
    let mut m = Maze::new(12, 8, 4);
    m.draw_path(&Coord { x: 1, y: 1 });
    m.draw_wall(&Coord { x: 2, y: 0 });
    for y in 0..8 {
        for x in 0..12 {
            let expected = if (4..8).contains(&x) && (4..8).contains(&y) {
                PATH
            } else if x >= 8 && y < 4 {
                WALL
            } else {
                BLANK
            };
            assert_eq!(m.pixel(x, y), expected);
        }
    }
    assert_eq!(kind(&m, 1, 1), CellKind::Path);
    assert_eq!(kind(&m, 2, 0), CellKind::Wall);
    assert_eq!(kind(&m, 0, 0), CellKind::Undefined);
    assert_eq!(kind(&m, 3, 0), CellKind::Undefined);
}

#[test]
fn expanding_the_start_queues_its_undefined_neighbors() {
    let mut m = Maze::new(12, 8, 4);
    m.draw_path(&Coord { x: 0, y: 0 });
    let mut walls = Vec::new();
    m.add_walls_around(&Coord { x: 0, y: 0 }, &mut walls);
    assert_eq!(walls, vec![Coord { x: 0, y: 1 }, Coord { x: 1, y: 0 }]);
    assert_eq!(kind(&m, 0, 1), CellKind::Wall);
    assert_eq!(kind(&m, 1, 0), CellKind::Wall);
    let mut more = Vec::new();
    m.add_walls_around(&Coord { x: 1, y: 1 }, &mut more);
    assert_eq!(more, vec![Coord { x: 2, y: 1 }]);
}

#[test]
fn pop_random_wall_removes_one_entry() {
    let mut rng = StdRng::seed_from_u64(21);
    let original: Vec<Coord> = (0..6).map(|i| Coord { x: i, y: 10 * i }).collect();
    let mut walls = original.clone();
    let mut taken = Vec::new();
    while !walls.is_empty() {
        let n = walls.len();
        let w = pop_random_wall(&mut walls, &mut rng);
        assert_eq!(walls.len(), n - 1);
        assert!(!walls.contains(&w));
        taken.push(w);
    }
    taken.sort_by_key(|c| c.x);
    assert_eq!(taken, original);
}

#[test]
fn pop_random_wall_draws_more_than_the_last_entry() {
    let mut rng = StdRng::seed_from_u64(5);
    let mut firsts = Vec::new();
    for _ in 0..60 {
        let mut walls: Vec<Coord> = (0..4).map(|i| Coord { x: i, y: 0 }).collect();
        firsts.push(pop_random_wall(&mut walls, &mut rng).x);
    }
    assert!(firsts.iter().any(|&x| x != 3));
    assert!(firsts.iter().all(|&x| x < 4));
}

#[test]
fn geometry_accepts_two_positive_numbers() {
    assert_eq!(geometry_parse("100x100"), Ok((100, 100)));
    assert_eq!(geometry_parse("13x7"), Ok((13, 7)));
    assert_eq!(geometry_parse("+5x+6"), Ok((5, 6)));
    assert_eq!(geometry_parse("4294967295x1"), Ok((4294967295, 1)));
}

#[test]
fn geometry_rejects_malformed_input() {
    for g in ["", "100", "x", "10x", "x10", "1x2x3", "0x5", "5x0", "axb", "10 x10", "-1x5",
              "4294967296x1", "10X10", "++1x1"] {
        assert_eq!(geometry_parse(g), Err(MazeError::InvalidGeometry), "{}", g);
    }
}

#[test]
fn grow_step_joins_an_undefined_neighbor() {
    let mut m = Maze::new(12, 8, 4);
    m.draw_path(&Coord { x: 0, y: 0 });
    let mut walls = Vec::new();
    m.add_walls_around(&Coord { x: 0, y: 0 }, &mut walls);
    let w = m.grow_step(&mut walls, 1, Direction::Right);
    assert_eq!(w, Coord { x: 1, y: 0 });
    assert_eq!(walls, vec![Coord { x: 0, y: 1 }, Coord { x: 2, y: 1 }]);
    assert_eq!(kind(&m, 1, 0), CellKind::Path);
    assert_eq!(kind(&m, 2, 0), CellKind::Path);
    assert_eq!(kind(&m, 2, 1), CellKind::Wall);
    assert_eq!(kind(&m, 0, 1), CellKind::Wall);
    assert_eq!(kind(&m, 1, 1), CellKind::Undefined);
    for y in 0..4 {
        for x in 0..12 {
            assert_eq!(m.pixel(x, y), PATH);
        }
    }
    for y in 4..8 {
        for x in 8..12 {
            assert_eq!(m.pixel(x, y), WALL);
        }
    }
}

#[test]
fn grow_step_miss_drops_the_entry() {
    let mut m = Maze::new(12, 8, 4);
    m.draw_path(&Coord { x: 0, y: 0 });
    let mut walls = Vec::new();
    m.add_walls_around(&Coord { x: 0, y: 0 }, &mut walls);
    let before = all_pixels(&m);
    let w = m.grow_step(&mut walls, 0, Direction::Up);
    assert_eq!(w, Coord { x: 0, y: 1 });
    assert_eq!(walls, vec![Coord { x: 1, y: 0 }]);
    assert_eq!(kind(&m, 0, 1), CellKind::Wall);
    assert_eq!(all_pixels(&m), before);
    let w = m.grow_step(&mut walls, 0, Direction::Up);
    assert_eq!(w, Coord { x: 1, y: 0 });
    assert!(walls.is_empty());
    assert_eq!(kind(&m, 1, 0), CellKind::Wall);
    assert_eq!(all_pixels(&m), before);
}

#[test]
fn single_cell_grid_with_strips_is_painted_exactly() {
    let mut rng = StdRng::seed_from_u64(2);
    let m = generate_image(6, 5, &mut rng);
    for y in 0..5 {
        for x in 0..6 {
            let expected = if x < 4 && y < 4 { PATH } else { WALL };
            assert_eq!(m.pixel(x, y), expected);
        }
    }
}

#[test]
fn walls_touch_paths_and_start_neighbors_are_resolved() {
    for seed in 0..5u64 {
        let mut rng = StdRng::seed_from_u64(seed);
        let m = generate_image(60, 44, &mut rng);
        assert_ne!(kind(&m, 1, 0), CellKind::Undefined);
        assert_ne!(kind(&m, 0, 1), CellKind::Undefined);
        for y in 0..m.grid_height {
            for x in 0..m.grid_width {
                if kind(&m, x, y) == CellKind::Wall {
                    let near = [(x.wrapping_sub(1), y), (x + 1, y), (x, y.wrapping_sub(1)), (x, y + 1)];
                    assert!(near.iter().any(|&(a, b)| kind(&m, a, b) == CellKind::Path));
                }
            }
        }
        for y in 0..m.height {
            for x in 0..m.width {
                if x >= 60 / 4 * 4 || y >= 44 / 4 * 4 {
                    assert_eq!(m.pixel(x, y), WALL);
                } else {
                    let origin = m.pixel(x / 4 * 4, y / 4 * 4);
                    assert_eq!(m.pixel(x, y), origin);
                }
            }
        }
    }
}

#[test]
fn construction_does_not_depend_on_randomness() {
    let a = Maze::new(13, 7, 4);
    let b = Maze::new(13, 7, 4);
    assert_eq!(all_pixels(&a), all_pixels(&b));
}
