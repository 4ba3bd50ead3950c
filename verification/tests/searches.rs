use gridpath::grid::{dist, get_neighbors, grid_eq, Elem, Grid, Pos};
use gridpath::parse::parse_grid;
use gridpath::search::{astar, breath, heuristic};

fn load(desc: &str) -> Grid {
    parse_grid(&desc.as_bytes().to_vec()).expect("the description should load")
}

fn cell_dist(g: &Grid, x: usize, y: usize) -> u32 {
    match g.cell_at(x, y).expect("in bounds") {
        Elem::Uncheck(n) => n,
        Elem::Check(n) => n,
        other => panic!("cell without a distance: {:?}", other),
    }
}

const OPEN_3X3_CORNER_TO_CORNER: &str = "3 3\n0 0 2 2\n0 0 0\n0 0 0\n0 0 0\n";
const OPEN_3X3_SAME_CELL: &str = "3 3\n1 1 1 1\n0 0 0\n0 0 0\n0 0 0\n";
const WALL_ROW_3X3: &str = "3 3\n0 0 2 2\n0 0 0\n1 1 1\n0 0 0\n";
const ENCLOSED_GOAL_5X5: &str = "5 5\n0 0 4 4\n0 0 0 0 0\n0 0 0 0 0\n0 0 0 0 0\n0 0 0 1 1\n0 0 0 1 0\n";
const DETOUR_5X5: &str = "5 5\n0 2 4 2\n0 0 0 0 0\n0 0 1 0 0\n0 0 1 0 0\n0 0 1 0 0\n0 0 0 0 0\n";
const SNAKE_5X5: &str = "5 5\n0 0 4 4\n0 0 0 0 0\n1 1 1 1 0\n0 0 0 0 0\n0 1 1 1 1\n0 0 0 0 0\n";

#[test]
fn same_cell_reports_zero_length_in_all_three() {
    let g = load(OPEN_3X3_SAME_CELL);
    let b = breath(&mut g.duplicate());
    let h = heuristic(&mut g.duplicate());
    let a = astar(&mut g.duplicate());
    assert_eq!(b.1, 0);
    assert_eq!(h.1, 0);
    assert_eq!(a.1, 0);
    assert_eq!(b.0, 1);
    assert_eq!(h.0, 1);
    assert_eq!(a.0, 1);
}

#[test]
fn open_grid_corner_to_corner_length_is_four() {
    let g = load(OPEN_3X3_CORNER_TO_CORNER);
    let mut gb = g.duplicate();
    let b = breath(&mut gb);
    assert_eq!(b.1, 4);
    // The start, its two neighbors, and at least two more cells are
    // expanded before the goal is dequeued.
    assert!(b.0 >= 5);
    let h = heuristic(&mut g.duplicate());
    let a = astar(&mut g.duplicate());
    assert_eq!(h.1, 4);
    assert_eq!(a.1, 4);
    // The goal cell is re-marked End once found.
    assert_eq!(gb.cell_at(2, 2), Some(Elem::End));
}

#[test]
fn bfs_is_never_longer_and_astar_matches_bfs() {
    for desc in [
        OPEN_3X3_CORNER_TO_CORNER,
        DETOUR_5X5,
        SNAKE_5X5,
    ] {
        let g = load(desc);
        let b = breath(&mut g.duplicate());
        let h = heuristic(&mut g.duplicate());
        let a = astar(&mut g.duplicate());
        assert!(b.1 >= 1, "a path exists in these grids");
        assert!(b.1 <= h.1, "BFS is optimal: {} <= {}", b.1, h.1);
        assert!(b.1 <= a.1);
        assert_eq!(a.1, b.1, "A* is optimal under the Manhattan heuristic");
    }
}

#[test]
fn detour_grid_shortest_length_is_eight() {
    let g = load(DETOUR_5X5);
    let b = breath(&mut g.duplicate());
    assert_eq!(b.1, 8);
    let a = astar(&mut g.duplicate());
    assert_eq!(a.1, 8);
}

#[test]
fn wall_row_blocks_all_three_and_steps_count_the_reachable_side() {
    let g = load(WALL_ROW_3X3);
    let b = breath(&mut g.duplicate());
    let h = heuristic(&mut g.duplicate());
    let a = astar(&mut g.duplicate());
    // Three open cells on the start's side of the wall, each expanded once.
    assert_eq!(b, (3, 0));
    assert_eq!(h, (3, 0));
    assert_eq!(a, (3, 0));
}

#[test]
fn enclosed_goal_expands_every_reachable_cell_once() {
    let g = load(ENCLOSED_GOAL_5X5);
    let b = breath(&mut g.duplicate());
    let h = heuristic(&mut g.duplicate());
    let a = astar(&mut g.duplicate());
    // 25 cells, 3 walls, and the enclosed goal leave 21 reachable cells.
    assert_eq!(b, (21, 0));
    assert_eq!(h, (21, 0));
    assert_eq!(a, (21, 0));
}

#[test]
fn astar_requeues_discoveries_and_keeps_shortest_distances() {
    let g = load(SNAKE_5X5);
    let mut ga = g.duplicate();
    let mut gb = g.duplicate();
    let a = astar(&mut ga);
    let b = breath(&mut gb);
    assert_eq!(a.1, 16);
    assert_eq!(b.1, 16);
    // Interior corridor cells keep the distance of the shortest path to
    // them, the same value breadth-first search settles on.
    assert_eq!(cell_dist(&ga, 0, 2), 10);
    assert_eq!(cell_dist(&gb, 0, 2), 10);
    assert_eq!(cell_dist(&ga, 2, 2), 8);
}

#[test]
fn searching_leaves_the_original_grid_alone() {
    let g = load(OPEN_3X3_CORNER_TO_CORNER);
    let copy = g.duplicate();
    assert!(grid_eq(&g, &copy));
    let _ = breath(&mut g.duplicate());
    assert!(grid_eq(&g, &copy));
}

#[test]
fn manhattan_distance_values() {
    assert_eq!(dist(Pos { x: 0, y: 0 }, Pos { x: 2, y: 2 }), 4);
    assert_eq!(dist(Pos { x: 5, y: 1 }, Pos { x: 1, y: 3 }), 6);
    assert_eq!(dist(Pos { x: 7, y: 7 }, Pos { x: 7, y: 7 }), 0);
    assert_eq!(dist(Pos { x: 3, y: 0 }, Pos { x: 0, y: 0 }), 3);
}

#[test]
fn neighbors_are_in_bounds_open_and_in_fixed_order() {
    let g = load(WALL_ROW_3X3);
    // Center of the top row: right, left are open; below is a wall.
    let n = get_neighbors(&Pos { x: 1, y: 0 }, &g);
    for p in n.iter() {
        assert!(p.x < 3 && p.y < 3);
        assert!(!matches!(g.cell_at(p.x, p.y), Some(Elem::Wall)));
    }
    assert_eq!(n, vec![Pos { x: 2, y: 0 }]);
    // The start cell itself is never returned as a neighbor.
    let n2 = get_neighbors(&Pos { x: 1, y: 2 }, &g);
    assert_eq!(n2, vec![Pos { x: 2, y: 2 }, Pos { x: 0, y: 2 }]);
}

#[test]
fn neighbors_in_open_grid_follow_direction_order() {
    let g = load(OPEN_3X3_CORNER_TO_CORNER);
    let n = get_neighbors(&Pos { x: 1, y: 1 }, &g);
    // The fixed direction order: +x, -x, +y, -y.
    assert_eq!(
        n,
        vec![
            Pos { x: 2, y: 1 },
            Pos { x: 0, y: 1 },
            Pos { x: 1, y: 2 },
            Pos { x: 1, y: 0 },
        ]
    );
}
