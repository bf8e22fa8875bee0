use hillpath::Coordinate;
use hillpath::HeightMap;

fn grid_from_rows(rows: &[&str], start: (usize, usize), goal: (usize, usize)) -> HeightMap {
    let width = rows[0].len();
    let height = rows.len();
    let mut cells: Vec<u8> = Vec::new();
    for row in rows {
        assert_eq!(row.len(), width);
        cells.extend_from_slice(row.as_bytes());
    }
    HeightMap::new(
        cells,
        width,
        height,
        Coordinate { row: start.0, col: start.1 },
        Coordinate { row: goal.0, col: goal.1 },
    )
    .expect("rows must form a rectangular grid")
}

const ROWS: [&str; 5] = ["aabqponm", "abcryxxl", "accszzxk", "acctuvwj", "abdefghi"];

#[test]
fn scenario_single_source() {
    let map = grid_from_rows(&ROWS, (0, 0), (2, 5));
    assert_eq!(map.navigate(), Some(31));
}

#[test]
fn scenario_multi_source() {
    let map = grid_from_rows(&ROWS, (0, 0), (2, 5));
    let lowest = map.lowest_elevation();
    assert_eq!(lowest, hillpath::LOWEST_ELEVATION);
    let best = map.best_from_any(lowest);
    assert_eq!(best, Some(29));
    // Multi-source never does worse than the designated start.
    assert!(best.unwrap() <= map.navigate().unwrap());
}

#[test]
fn scenario_trivial_grid() {
    let map = grid_from_rows(&["a"], (0, 0), (0, 0));
    assert_eq!(map.navigate(), Some(0));
}

#[test]
fn scenario_walled_goal() {
    // The goal is ringed by cells more than one unit above anything the
    // search can reach, so it is unreachable.
    let map = grid_from_rows(&["aaa", "aza", "aaa"], (0, 0), (1, 1));
    assert_eq!(map.navigate(), None);
}

#[test]
fn start_equals_goal_elsewhere() {
    let map = grid_from_rows(&ROWS, (3, 4), (3, 4));
    assert_eq!(map.navigate(), Some(0));
}

#[test]
fn navigate_is_repeatable() {
    let map = grid_from_rows(&ROWS, (0, 0), (2, 5));
    assert_eq!(map.navigate(), map.navigate());
}

#[test]
fn elevation_lookup() {
    let map = grid_from_rows(&ROWS, (0, 0), (2, 5));
    assert_eq!(map.elevation(&Coordinate { row: 2, col: 5 }), Ok(b'z'));
    assert_eq!(map.elevation(&Coordinate { row: 0, col: 2 }), Ok(b'b'));
    assert!(map.elevation(&Coordinate { row: 5, col: 0 }).is_err());
    assert!(map.elevation(&Coordinate { row: 0, col: 8 }).is_err());
}

#[test]
fn malformed_grid_is_refused() {
    let r = HeightMap::new(
        vec![b'a'; 7],
        4,
        2,
        Coordinate { row: 0, col: 0 },
        Coordinate { row: 1, col: 3 },
    );
    assert!(r.is_err());
    let r = HeightMap::new(
        vec![b'a'; 8],
        4,
        2,
        Coordinate { row: 0, col: 0 },
        Coordinate { row: 2, col: 0 },
    );
    assert!(r.is_err());
}

#[test]
fn neighbours_respect_elevation_rule() {
    // From the 'b' at (0, 2): left 'a' is a descent, down 'c' ascends by
    // one, but the 'q' to the right is far too high; up is out of bounds.
    let map = grid_from_rows(&ROWS, (0, 0), (2, 5));
    let n = map.neighbours(&Coordinate { row: 0, col: 2 });
    assert!(n.contains(&Coordinate { row: 0, col: 1 }));
    assert!(n.contains(&Coordinate { row: 1, col: 2 }));
    assert!(!n.contains(&Coordinate { row: 0, col: 3 }));
    let raw = map.neighbours_raw(&Coordinate { row: 0, col: 2 });
    assert_eq!(raw.len(), 3);
}

#[test]
fn neighbour_sequence_is_exhaustible() {
    let map = grid_from_rows(&ROWS, (0, 0), (2, 5));
    let mut seq = hillpath::grid::Neighbours::to(&map, &Coordinate { row: 2, col: 2 });
    let mut count = 0;
    while let Some(c) = seq.next() {
        assert!(c.row < map.height() && c.col < map.width());
        count += 1;
    }
    assert_eq!(count, 4);
}

#[test]
fn manhattan_distance() {
    let a = Coordinate { row: 1, col: 3 };
    let b = Coordinate { row: 4, col: 1 };
    assert_eq!(a.distance_to(&b), 5);
    assert_eq!(b.distance_to(&a), 5);
    assert_eq!(a.distance_to(&a), 0);
}

#[test]
fn heuristic_is_admissible_here() {
    // The Manhattan estimate from the start never exceeds the true
    // shortest route length.
    let map = grid_from_rows(&ROWS, (0, 0), (2, 5));
    let start = map.start();
    let goal = map.goal();
    let estimate = start.distance_to(&goal);
    let true_length = map.navigate().unwrap();
    assert!(estimate <= true_length);
    assert_eq!(estimate, 7);
    assert_eq!(true_length, 31);
}

#[test]
fn loosening_the_constraint_never_hurts() {
    // Lowering the blocking cell from 'c' to 'b' only adds admissible
    // steps, and the shortest route can only improve.
    let walled = grid_from_rows(&["ac", "aa"], (0, 0), (0, 1));
    let eased = grid_from_rows(&["ab", "aa"], (0, 0), (0, 1));
    assert_eq!(walled.navigate(), None);
    assert_eq!(eased.navigate(), Some(1));
}

#[test]
fn corridor_grid() {
    // A single row must be walked end to end.
    let map = grid_from_rows(&["abcdeff"], (0, 0), (0, 6));
    assert_eq!(map.navigate(), Some(6));
}
