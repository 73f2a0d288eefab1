use maze::coord_set::CoordSet;
use maze::maze::{Direction, HorizontalWall, Maze, VerticalWall, Wall};

/// A `width` by `height` maze with every wall standing and no cost known.
fn closed_maze(width: usize, height: usize, start: (usize, usize)) -> Maze {
    Maze {
        horizontal_walls: vec![vec![true; width + 1]; height],
        vertical_walls: vec![vec![true; height + 1]; width],
        start,
        end: (0, 0),
        cost: vec![vec![None; width]; height],
    }
}

/// Opens the wall between cell `(r, c)` and its neighbour in `d`.
fn open(m: &mut Maze, r: usize, c: usize, d: Direction) {
    m.set_wall_by_cell(r, c, Some(d), false);
}

fn cell_coord(m: &Maze, r: i32, c: i32) -> Option<(usize, usize)> {
    m.get_maze_cell(r, c).map(|cell| cell.coord)
}

#[test]
fn test_shuffle() {
    let mut v = (0..10).collect::<Vec<usize>>();
    println!("{:?}", v);
    v = Maze::shuffle(v);
    println!("{:?}", v);
}

#[test]
fn shuffle_keeps_the_elements() {
    let v: Vec<usize> = (0..50).collect();
    let mut w = Maze::shuffle(v.clone());
    assert_eq!(w.len(), 50);
    w.sort();
    assert_eq!(w, v);
    let empty: Vec<usize> = Vec::new();
    assert!(Maze::shuffle(empty).is_empty());
}

#[test]
fn direction_default_is_north() {
    assert_eq!(Direction::default(), Direction::North);
}

#[test]
fn get_maze_cell_inside_and_outside() {
    let mut m = closed_maze(3, 2, (0, 0));
    m.cost[1][2] = Some(7);
    let cell = m.get_maze_cell(1, 2).unwrap();
    assert_eq!(cell.coord, (1, 2));
    assert_eq!(cell.cost, Some(7));
    assert_eq!(cell.top.coord, (1, 2));
    assert_eq!(cell.down.coord, (2, 2));
    assert_eq!(cell.left.coord, (1, 2));
    assert_eq!(cell.right.coord, (1, 3));
    assert!(m.get_maze_cell(2, 0).is_none());
    assert!(m.get_maze_cell(0, 3).is_none());
    assert!(m.get_maze_cell(-1, 0).is_none());
    assert!(m.get_maze_cell(0, -1).is_none());
    assert!(m.get_maze_cell(0, 0).is_some());
}

#[test]
fn set_wall_then_is_traversable() {
    let mut m = closed_maze(3, 3, (0, 0));
    let h = Wall::HorizontalWall(HorizontalWall { coord: (1, 2) });
    let v = Wall::VerticalWall(VerticalWall { coord: (2, 1) });
    assert!(!m.is_traversable(&h));
    assert!(!m.is_traversable(&v));
    m.set_wall(&h, false);
    assert!(m.is_traversable(&h));
    assert!(!m.horizontal_walls[1][2]);
    m.set_wall(&v, false);
    assert!(m.is_traversable(&v));
    assert!(!m.vertical_walls[1][2]);
    m.set_wall(&h, true);
    assert!(!m.is_traversable(&h));
}

#[test]
fn is_traversable_outside_is_false() {
    let mut m = closed_maze(2, 2, (0, 0));
    for row in m.horizontal_walls.iter_mut() {
        for w in row.iter_mut() {
            *w = false;
        }
    }
    assert!(m.is_traversable(&Wall::HorizontalWall(HorizontalWall { coord: (1, 2) })));
    assert!(!m.is_traversable(&Wall::HorizontalWall(HorizontalWall { coord: (2, 0) })));
    assert!(!m.is_traversable(&Wall::HorizontalWall(HorizontalWall { coord: (0, 3) })));
    assert!(!m.is_traversable(&Wall::VerticalWall(VerticalWall { coord: (2, 0) })));
}

#[test]
fn vertical_wall_bounds_follow_the_width() {
    // In a maze 2 wide and 3 high the bottom wall of cell (1, 0) is (2, 0); its row 2 is not
    // below the width 2, so it counts as not traversable even when it is open.
    let mut m = closed_maze(2, 3, (0, 0));
    open(&mut m, 1, 0, Direction::South);
    assert!(!m.vertical_walls[0][2]);
    assert!(!m.is_traversable(&Wall::VerticalWall(VerticalWall { coord: (2, 0) })));
    let cell = m.get_maze_cell(1, 0).unwrap();
    assert!(m.get_cell_by_direction(&cell, &Direction::South).is_none());
    open(&mut m, 0, 0, Direction::South);
    let top = m.get_maze_cell(0, 0).unwrap();
    assert_eq!(m.get_cell_by_direction(&top, &Direction::South).map(|c| c.coord), Some((1, 0)));
}

#[test]
fn set_wall_by_cell_each_side() {
    let mut m = closed_maze(3, 3, (0, 0));
    open(&mut m, 1, 1, Direction::North);
    assert!(!m.vertical_walls[1][1]);
    open(&mut m, 1, 1, Direction::South);
    assert!(!m.vertical_walls[1][2]);
    open(&mut m, 1, 1, Direction::West);
    assert!(!m.horizontal_walls[1][1]);
    open(&mut m, 1, 1, Direction::East);
    assert!(!m.horizontal_walls[1][2]);
    let count_open = |m: &Maze| {
        m.horizontal_walls.iter().flatten().filter(|w| !**w).count()
            + m.vertical_walls.iter().flatten().filter(|w| !**w).count()
    };
    assert_eq!(count_open(&m), 4);
    // Outside the maze, or without a direction, nothing changes.
    m.set_wall_by_cell(5, 0, Some(Direction::North), false);
    m.set_wall_by_cell(0, 0, None, false);
    assert_eq!(count_open(&m), 4);
    m.set_wall_by_cell(1, 1, Some(Direction::East), true);
    assert!(m.horizontal_walls[1][2]);
    assert_eq!(count_open(&m), 3);
}

#[test]
fn get_cell_by_direction_is_symmetric() {
    let mut m = closed_maze(3, 3, (0, 0));
    open(&mut m, 1, 1, Direction::East);
    open(&mut m, 1, 1, Direction::North);
    let center = m.get_maze_cell(1, 1).unwrap();
    let east = m.get_cell_by_direction(&center, &Direction::East).unwrap();
    assert_eq!(east.coord, (1, 2));
    let back = m.get_cell_by_direction(&east, &Direction::West).unwrap();
    assert_eq!(back.coord, (1, 1));
    let north = m.get_cell_by_direction(&center, &Direction::North).unwrap();
    assert_eq!(north.coord, (0, 1));
    assert_eq!(m.get_cell_by_direction(&north, &Direction::South).unwrap().coord, (1, 1));
    assert!(m.get_cell_by_direction(&center, &Direction::South).is_none());
    assert!(m.get_cell_by_direction(&center, &Direction::West).is_none());
}

#[test]
fn edge_walls_lead_nowhere() {
    let mut m = closed_maze(2, 2, (0, 0));
    open(&mut m, 0, 0, Direction::North);
    open(&mut m, 0, 0, Direction::West);
    let corner = m.get_maze_cell(0, 0).unwrap();
    assert!(m.get_cell_by_direction(&corner, &Direction::North).is_none());
    assert!(m.get_cell_by_direction(&corner, &Direction::West).is_none());
}

#[test]
fn adjacent_cells_in_order_without_costs() {
    let mut m = closed_maze(3, 3, (0, 0));
    for d in [Direction::North, Direction::South, Direction::East, Direction::West] {
        open(&mut m, 1, 1, d);
    }
    let cells: Vec<(usize, usize)> = m.get_valid_adjascent_cells(1, 1).iter().map(|c| c.coord).collect();
    assert_eq!(cells, vec![(2, 1), (1, 0), (0, 1), (1, 2)]);
    m.cost[1][0] = Some(3);
    let cells: Vec<(usize, usize)> = m.get_valid_adjascent_cells(1, 1).iter().map(|c| c.coord).collect();
    assert_eq!(cells, vec![(2, 1), (0, 1), (1, 2)]);
    assert!(m.get_valid_adjascent_cells(7, 7).is_empty());
}

#[test]
fn fill_cost_gives_distances() {
    // A corridor (0,0) - (0,1) - (0,2) - (1,2) - (1,1) - (1,0); (2, *) is closed off.
    let mut m = closed_maze(3, 3, (0, 0));
    open(&mut m, 0, 0, Direction::East);
    open(&mut m, 0, 1, Direction::East);
    open(&mut m, 0, 2, Direction::South);
    open(&mut m, 1, 2, Direction::West);
    open(&mut m, 1, 1, Direction::West);
    m.fill_cost();
    assert_eq!(m.cost[0][1], Some(1));
    assert_eq!(m.cost[0][2], Some(2));
    assert_eq!(m.cost[1][2], Some(3));
    assert_eq!(m.cost[1][1], Some(4));
    assert_eq!(m.cost[1][0], Some(5));
    // The start is found again from its neighbour.
    assert_eq!(m.cost[0][0], Some(2));
    assert_eq!(m.cost[2][0], None);
    assert_eq!(m.cost[2][2], None);
    assert_eq!(m.max_cost(), 5);
}

#[test]
fn fill_cost_takes_shortest_walks() {
    // A 2 by 2 ring: (1,1) is two steps away either way.
    let mut m = closed_maze(2, 2, (0, 0));
    open(&mut m, 0, 0, Direction::East);
    open(&mut m, 0, 0, Direction::South);
    open(&mut m, 1, 1, Direction::North);
    open(&mut m, 1, 1, Direction::West);
    m.fill_cost();
    assert_eq!(m.cost, vec![vec![Some(2), Some(1)], vec![Some(1), Some(2)]]);
}

#[test]
fn fill_cost_keeps_known_costs_and_does_not_cross_them() {
    let mut m = closed_maze(3, 1, (0, 0));
    open(&mut m, 0, 0, Direction::East);
    open(&mut m, 0, 1, Direction::East);
    m.cost[0][1] = Some(9);
    m.fill_cost();
    assert_eq!(m.cost, vec![vec![None, Some(9), None]]);
}

#[test]
fn fill_cost_isolated_start() {
    let mut m = closed_maze(2, 2, (1, 1));
    m.fill_cost();
    assert_eq!(m.cost, vec![vec![None, None], vec![None, None]]);
    assert_eq!(m.max_cost(), 0);
}

#[test]
fn find_farthest_point_on_a_corridor() {
    let mut m = closed_maze(3, 3, (0, 0));
    open(&mut m, 0, 0, Direction::East);
    open(&mut m, 0, 1, Direction::East);
    open(&mut m, 0, 2, Direction::South);
    open(&mut m, 1, 2, Direction::South);
    open(&mut m, 2, 2, Direction::West);
    assert_eq!(m.find_farthest_point(&(0, 0), 3, 3), (2, 1));
    assert_eq!(m.find_farthest_point(&(2, 2), 3, 3), (0, 0));
    // A cell with no open wall is farthest from itself.
    assert_eq!(m.find_farthest_point(&(1, 0), 3, 3), (1, 0));
}

#[test]
fn find_farthest_point_keeps_the_first_found() {
    // From the middle of a straight corridor both ends are two steps away; the search queues
    // east before west, so it takes the east end first and keeps it.
    let mut m = closed_maze(5, 1, (0, 2));
    for c in 0..4 {
        open(&mut m, 0, c, Direction::East);
    }
    assert_eq!(m.find_farthest_point(&(0, 2), 5, 1), (0, 4));
}

#[test]
fn new_maze_reaches_every_cell() {
    for n in 1..8usize {
        let m = Maze::new(n, n, (0, 0));
        assert_eq!(m.horizontal_walls.len(), n);
        assert_eq!(m.vertical_walls.len(), n);
        assert!(m.horizontal_walls.iter().all(|row| row.len() == n + 1));
        assert!(m.vertical_walls.iter().all(|col| col.len() == n + 1));
        assert_eq!(m.start, (0, 0));
        for r in 0..n {
            for c in 0..n {
                if (r, c) != (0, 0) {
                    assert!(m.cost[r][c].is_some(), "cell {:?} of a {} maze has no cost", (r, c), n);
                }
            }
        }
        // The outer walls stand.
        for r in 0..n {
            assert!(m.horizontal_walls[r][0] && m.horizontal_walls[r][n]);
        }
        for c in 0..n {
            assert!(m.vertical_walls[c][0] && m.vertical_walls[c][n]);
        }
        // A perfect maze: one wall fewer inside than there are cells.
        let open_walls = m.horizontal_walls.iter().flatten().filter(|w| !**w).count()
            + m.vertical_walls.iter().flatten().filter(|w| !**w).count();
        assert_eq!(open_walls, n * n - 1);
        let end_cost = m.cost[m.end.0][m.end.1].unwrap_or(0);
        if n > 1 {
            assert_eq!(m.max_cost(), end_cost.max(2));
            assert_ne!(m.end, m.start);
        } else {
            assert_eq!(m.end, m.start);
        }
    }
}

#[test]
fn new_maze_start_gets_two() {
    let m = Maze::new(4, 4, (1, 2));
    assert_eq!(m.cost[1][2], Some(2));
}

#[test]
fn generators_only_take_walls_down() {
    let mut m = closed_maze(5, 5, (0, 0));
    m.generate_binary_maze();
    for r in 0..5 {
        assert!(m.horizontal_walls[r][0] && m.horizontal_walls[r][5]);
    }
    for c in 0..5 {
        assert!(m.vertical_walls[c][0] && m.vertical_walls[c][5]);
    }
    let before = (m.horizontal_walls.clone(), m.vertical_walls.clone());
    m.generate_random_walk_maze();
    for r in 0..5 {
        for c in 0..6 {
            assert!(before.0[r][c] || !m.horizontal_walls[r][c]);
        }
    }
    for c in 0..5 {
        for r in 0..6 {
            assert!(before.1[c][r] || !m.vertical_walls[c][r]);
        }
    }
    assert!(m.cost.iter().flatten().all(|c| c.is_none()));
}

#[test]
fn recursive_dfs_visits_every_cell() {
    let mut m = closed_maze(4, 4, (0, 0));
    let acc = m.generate_maze_via_dfs((0, 0), CoordSet::new(4, 4), 4, 4);
    assert_eq!(acc.len(), 16);
    let open_walls = m.horizontal_walls.iter().flatten().filter(|w| !**w).count()
        + m.vertical_walls.iter().flatten().filter(|w| !**w).count();
    assert_eq!(open_walls, 15);
    m.fill_cost();
    for r in 0..4 {
        for c in 0..4 {
            assert!(m.cost[r][c].is_some());
        }
    }
}

#[test]
fn dfs_heap_opens_one_wall_per_new_cell() {
    let mut m = closed_maze(6, 6, (0, 0));
    m.generate_maze_via_dfs_heap((3, 3), 6, 6);
    let open_walls = m.horizontal_walls.iter().flatten().filter(|w| !**w).count()
        + m.vertical_walls.iter().flatten().filter(|w| !**w).count();
    assert_eq!(open_walls, 35);
}

#[test]
fn coord_set_holds_coordinates_inside_and_outside_its_grid() {
    let mut s = CoordSet::new(2, 3);
    assert_eq!(s.len(), 0);
    s.insert((1, 2));
    s.insert((1, 2));
    s.insert((5, 0));
    s.insert((5, 0));
    assert_eq!(s.len(), 2);
    assert!(s.contains(&(1, 2)));
    assert!(!s.contains(&(0, 2)));
    assert!(s.contains(&(5, 0)));
    assert!(!s.contains(&(0, 5)));
}

/// Whether every wall on the outer edge of `m` stands.
fn outer_walls_stand(m: &Maze) -> bool {
    let height = m.horizontal_walls.len();
    let width = m.vertical_walls.len();
    (0..height).all(|r| m.horizontal_walls[r][0] && m.horizontal_walls[r][width])
        && (0..width).all(|c| m.vertical_walls[c][0] && m.vertical_walls[c][height])
}

#[test]
fn generators_keep_the_outer_walls() {
    for _ in 0..20 {
        let mut m = closed_maze(5, 5, (0, 0));
        m.generate_maze_via_dfs_heap((2, 1), 5, 5);
        assert!(outer_walls_stand(&m));
        let mut m = closed_maze(5, 5, (0, 0));
        m.generate_maze_via_dfs((4, 4), CoordSet::new(5, 5), 5, 5);
        assert!(outer_walls_stand(&m));
        let mut m = closed_maze(5, 5, (0, 0));
        m.generate_random_walk_maze();
        assert!(outer_walls_stand(&m));
        let mut m = closed_maze(4, 7, (0, 0));
        m.generate_binary_maze();
        assert!(outer_walls_stand(&m));
        let m = Maze::new(6, 6, (5, 0));
        assert!(outer_walls_stand(&m));
    }
}

#[test]
fn shuffle_moves_elements() {
    let v: Vec<usize> = (0..50).collect();
    let w = Maze::shuffle(v.clone());
    assert_ne!(w, v);
}

#[test]
fn binary_maze_opens_both_north_and_east() {
    let mut m = closed_maze(10, 10, (0, 0));
    m.generate_binary_maze();
    let north = (1..10).any(|r| (0..10).any(|c| !m.vertical_walls[c][r]));
    let east = (0..10).any(|r| (1..10).any(|c| !m.horizontal_walls[r][c]));
    assert!(north && east);
}

/// Number of walls of cell `(r, c)` that are down.
fn walls_down(m: &Maze, r: usize, c: usize) -> usize {
    [
        m.horizontal_walls[r][c],
        m.horizontal_walls[r][c + 1],
        m.vertical_walls[c][r],
        m.vertical_walls[c][r + 1],
    ]
    .iter()
    .filter(|w| !**w)
    .count()
}

#[test]
fn binary_maze_opens_north_or_east_inside() {
    for _ in 0..20 {
        let mut m = closed_maze(6, 6, (0, 0));
        m.generate_binary_maze();
        for r in 1..6 {
            for c in 0..5 {
                assert!(!m.vertical_walls[c][r] || !m.horizontal_walls[r][c + 1]);
            }
        }
    }
}

#[test]
fn random_walk_carves_corridors() {
    for _ in 0..20 {
        let mut m = closed_maze(6, 6, (0, 0));
        m.generate_random_walk_maze();
        for r in 0..6 {
            for c in 0..6 {
                assert!(walls_down(&m, r, c) <= 2);
                if r + 1 < 6 {
                    assert!(walls_down(&m, r, c) > 0 || walls_down(&m, r + 1, c) > 0);
                }
                if c + 1 < 6 {
                    assert!(walls_down(&m, r, c) > 0 || walls_down(&m, r, c + 1) > 0);
                }
            }
        }
    }
}

/// Number of wall entries that differ between the two mazes.
fn changed_walls(a: &Maze, b: &Maze) -> usize {
    let h = a.horizontal_walls.iter().flatten().zip(b.horizontal_walls.iter().flatten()).filter(|(x, y)| x != y).count();
    let v = a.vertical_walls.iter().flatten().zip(b.vertical_walls.iter().flatten()).filter(|(x, y)| x != y).count();
    h + v
}

fn copy_maze(m: &Maze) -> Maze {
    Maze {
        horizontal_walls: m.horizontal_walls.clone(),
        vertical_walls: m.vertical_walls.clone(),
        start: m.start,
        end: m.end,
        cost: m.cost.clone(),
    }
}

#[test]
fn recursive_dfs_keeps_a_start_outside_the_area() {
    let mut m = closed_maze(3, 3, (0, 0));
    let acc = m.generate_maze_via_dfs((3, 0), CoordSet::new(3, 3), 3, 3);
    assert!(acc.contains(&(3, 0)));
    assert!(acc.contains(&(2, 0)));
    assert_eq!(acc.len(), 10);
}

#[test]
fn random_walk_on_two_by_two_opens_three_inner_walls() {
    for _ in 0..20 {
        let mut m = closed_maze(2, 2, (0, 0));
        m.generate_random_walk_maze();
        assert!(outer_walls_stand(&m));
        let inner = [m.horizontal_walls[0][1], m.horizontal_walls[1][1], m.vertical_walls[0][1], m.vertical_walls[1][1]];
        assert_eq!(inner.iter().filter(|w| !**w).count(), 3);
        assert_eq!(m.start, (0, 0));
        assert!(m.cost.iter().flatten().all(|c| c.is_none()));
    }
}

#[test]
fn generators_leave_an_open_border_open() {
    for _ in 0..10 {
        let mut base = closed_maze(4, 4, (0, 0));
        base.horizontal_walls[1][0] = false;
        base.vertical_walls[2][4] = false;
        let mut a = copy_maze(&base);
        a.generate_random_walk_maze();
        let mut b = copy_maze(&base);
        b.generate_binary_maze();
        let mut c = copy_maze(&base);
        c.generate_maze_via_dfs_heap((1, 1), 4, 4);
        let mut d = copy_maze(&base);
        d.generate_maze_via_dfs((1, 1), CoordSet::new(4, 4), 4, 4);
        for m in [&a, &b, &c, &d] {
            assert!(!m.horizontal_walls[1][0] && !m.vertical_walls[2][4]);
            assert!(m.horizontal_walls[0][0] && m.horizontal_walls[3][4]);
        }
    }
}

#[test]
fn binary_maze_opens_at_most_one_wall_per_cell() {
    for _ in 0..20 {
        let mut m = closed_maze(5, 3, (0, 0));
        let before = copy_maze(&m);
        m.generate_binary_maze();
        assert!(changed_walls(&before, &m) <= 15);
        for r in 0..3 {
            for c in 0..5 {
                assert!(m.vertical_walls[c][r] || m.horizontal_walls[r][c + 1]);
            }
        }
        assert!(outer_walls_stand(&m));
    }
}

#[test]
fn dfs_heap_changes_at_most_one_wall_per_cell() {
    for _ in 0..20 {
        let mut m = closed_maze(3, 5, (0, 0));
        let before = copy_maze(&m);
        m.generate_maze_via_dfs_heap((0, 0), 3, 5);
        assert!(changed_walls(&before, &m) <= 15);
    }
}

#[test]
fn fill_cost_twice_changes_nothing() {
    let mut m = Maze::new(5, 5, (2, 2));
    let first = m.cost.clone();
    m.fill_cost();
    assert_eq!(m.cost, first);
}

#[test]
fn max_cost_is_the_greatest_known_cost() {
    let mut m = closed_maze(3, 2, (0, 0));
    assert_eq!(m.max_cost(), 0);
    m.cost[0][1] = Some(4);
    m.cost[1][2] = Some(9);
    m.cost[1][0] = Some(2);
    assert_eq!(m.max_cost(), 9);
}

#[test]
fn find_farthest_point_does_not_depend_on_buffer_sizes() {
    let m = Maze::new(6, 6, (0, 0));
    let a = m.find_farthest_point(&(0, 0), 6, 6);
    let b = m.find_farthest_point(&(0, 0), 1, 1);
    let c = m.find_farthest_point(&(0, 0), 40, 3);
    assert_eq!(a, b);
    assert_eq!(a, c);
    assert_eq!(a, m.end);
}

#[test]
fn shuffle_with_applies_the_draws_in_order() {
    let v: Vec<usize> = vec![0, 1, 2, 3];
    assert_eq!(Maze::shuffle_with(v.clone(), &vec![2, 3, 2, 3]), vec![2, 3, 0, 1]);
    assert_eq!(Maze::shuffle_with(v.clone(), &vec![0, 1, 2, 3]), v);
    assert_eq!(Maze::shuffle_with(v.clone(), &vec![3, 3, 3, 3]), vec![3, 0, 1, 2]);
    let empty: Vec<usize> = Vec::new();
    assert!(Maze::shuffle_with(empty, &Vec::new()).is_empty());
}
