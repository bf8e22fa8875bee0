use hillpath::forest::at_edge;
use hillpath::forest::recursive_visibility;
use hillpath::forest::Node;
use hillpath::rope::Direction;
use hillpath::rope::Movement;
use hillpath::rope::Rope;
use hillpath::rope::TwoKnotRope;

#[test]
fn rope_straight_line() {
    let mut rope = TwoKnotRope::new();
    rope.move_head(Movement::new(Direction::Right, 4));
    // The tail trails one behind, visiting the origin and three more cells.
    assert_eq!(rope.count_tail_visited(), 4);
}

#[test]
fn rope_example_path() {
    let moves = [
        (Direction::Right, 4),
        (Direction::Up, 4),
        (Direction::Left, 3),
        (Direction::Down, 1),
        (Direction::Right, 4),
        (Direction::Down, 1),
        (Direction::Left, 5),
        (Direction::Right, 2),
    ];
    let mut rope = TwoKnotRope::new();
    for (direction, count) in moves {
        rope.move_head(Movement::new(direction, count));
    }
    assert_eq!(rope.count_tail_visited(), 13);
}

#[test]
fn rope_short_move_keeps_tail() {
    let mut rope = TwoKnotRope::new();
    rope.move_head(Movement::new(Direction::Up, 1));
    // Head and tail still touch, so only the origin was visited.
    assert_eq!(rope.count_tail_visited(), 1);
}

#[test]
fn ten_knot_rope_example() {
    let moves = [
        (Direction::Right, 5),
        (Direction::Up, 8),
        (Direction::Left, 8),
        (Direction::Down, 3),
        (Direction::Right, 17),
        (Direction::Down, 10),
        (Direction::Left, 25),
        (Direction::Up, 20),
    ];
    let mut rope = Rope::<10>::new();
    for (direction, count) in moves {
        rope.move_head(Movement::new(direction, count));
    }
    assert_eq!(rope.count_tail_visited(), 36);
}

#[test]
fn two_knot_ropes_agree() {
    // A rope of two knots retraces the dedicated two-knot simulation.
    let moves = [
        (Direction::Right, 4),
        (Direction::Up, 4),
        (Direction::Left, 3),
        (Direction::Down, 1),
        (Direction::Right, 4),
        (Direction::Down, 1),
        (Direction::Left, 5),
        (Direction::Right, 2),
    ];
    let mut pair = TwoKnotRope::new();
    let mut rope = Rope::<2>::new();
    for (direction, count) in moves {
        pair.move_head(Movement::new(direction, count));
        rope.move_head(Movement::new(direction, count));
    }
    assert_eq!(rope.count_tail_visited(), pair.count_tail_visited());
    assert_eq!(rope.count_tail_visited(), 13);
}

fn example_forest() -> Vec<Vec<u8>> {
    vec![
        vec![3, 0, 3, 7, 3],
        vec![2, 5, 5, 1, 2],
        vec![6, 5, 3, 3, 2],
        vec![3, 3, 5, 4, 9],
        vec![3, 5, 3, 9, 0],
    ]
}

fn scenic_score(map: &Vec<Vec<u8>>, row: usize, col: usize) -> u32 {
    let height = map[row][col];
    let node = Node(row, col);
    recursive_visibility(&node.offset(&Direction2::Down, 1), &Direction2::Down, height, 5, 5, map)
        * recursive_visibility(
            &node.offset(&Direction2::Left, 1),
            &Direction2::Left,
            height,
            5,
            5,
            map,
        )
        * recursive_visibility(
            &node.offset(&Direction2::Right, 1),
            &Direction2::Right,
            height,
            5,
            5,
            map,
        )
        * recursive_visibility(&node.offset(&Direction2::Up, 1), &Direction2::Up, height, 5, 5, map)
}

use hillpath::forest::Direction as Direction2;

#[test]
fn forest_scenic_scores() {
    let map = example_forest();
    assert_eq!(scenic_score(&map, 1, 2), 4);
    assert_eq!(scenic_score(&map, 3, 2), 8);
}

#[test]
fn forest_edges() {
    assert!(at_edge(&Node(0, 3), &Direction2::Up, 5, 5));
    assert!(at_edge(&Node(4, 3), &Direction2::Down, 5, 5));
    assert!(at_edge(&Node(2, 0), &Direction2::Left, 5, 5));
    assert!(at_edge(&Node(2, 4), &Direction2::Right, 5, 5));
    assert!(!at_edge(&Node(2, 2), &Direction2::Up, 5, 5));
}

#[test]
fn node_offsets() {
    let n = Node(3, 4);
    assert_eq!(n.offset(&Direction2::Up, 2), Node(1, 4));
    assert_eq!(n.offset(&Direction2::Down, 1), Node(4, 4));
    assert_eq!(n.offset(&Direction2::Left, 4), Node(3, 0));
    assert_eq!(n.offset(&Direction2::Right, 3), Node(3, 7));
}
