//! Tree visibility scans over a rectangular height map: walking outwards
//! from a tree in one direction, counting trees until one at least as tall
//! blocks the view.

use vstd::prelude::*;

verus! {

/// A tree height.
pub type Height = u8;

/// A scan direction.
#[derive(Debug, Clone, Copy, PartialEq, Eq, Structural)]
pub enum Direction {
    Up,
    Down,
    Left,
    Right,
}

/// A position in the map: row, then column.
#[derive(Debug, Clone, Copy, PartialEq, Eq, Structural)]
pub struct Node(pub usize, pub usize);

impl Node {
    /// The node `count` places away in the given direction.
    pub fn offset(self, direction: &Direction, count: usize) -> (r: Node)
        requires
            match direction {
                Direction::Up => count <= self.0,
                Direction::Down => self.0 + count <= usize::MAX,
                Direction::Left => count <= self.1,
                Direction::Right => self.1 + count <= usize::MAX,
            },
        ensures
            r == match direction {
                Direction::Up => Node((self.0 - count) as usize, self.1),
                Direction::Down => Node((self.0 + count) as usize, self.1),
                Direction::Left => Node(self.0, (self.1 - count) as usize),
                Direction::Right => Node(self.0, (self.1 + count) as usize),
            },
    {
        match direction {
            Direction::Up => Node(self.0 - count, self.1),
            Direction::Down => Node(self.0 + count, self.1),
            Direction::Left => Node(self.0, self.1 - count),
            Direction::Right => Node(self.0, self.1 + count),
        }
    }
}

/// A rectangular map: every row is `width` wide.
pub open spec fn map_wf(map: Seq<Vec<Height>>, width: int, height: int) -> bool {
    &&& map.len() == height
    &&& 0 < width
    &&& 0 < height
    &&& forall|r: int| 0 <= r < height ==> (#[trigger] map[r])@.len() == width
}

/// The position lies on the edge the scan direction walks towards.
pub open spec fn spec_at_edge(r: int, c: int, direction: Direction, width: int, height: int) -> bool {
    match direction {
        Direction::Up => r == 0,
        Direction::Down => r == height - 1,
        Direction::Left => c == 0,
        Direction::Right => c == width - 1,
    }
}

/// How many more steps the scan can take before leaving the map.
pub open spec fn steps_left(r: int, c: int, direction: Direction, width: int, height: int) -> int {
    match direction {
        Direction::Up => r,
        Direction::Down => height - 1 - r,
        Direction::Left => c,
        Direction::Right => width - 1 - c,
    }
}

/// The visibility from a reference height, scanning from `(r, c)` outwards:
/// trees are counted until one at least as tall as the reference blocks the
/// view or the edge is reached.
pub open spec fn spec_visibility(
    r: int,
    c: int,
    direction: Direction,
    ref_height: Height,
    width: int,
    height: int,
    map: Seq<Vec<Height>>,
) -> int
    decreases steps_left(r, c, direction, width, height),
{
    if spec_at_edge(r, c, direction, width, height) || !(0 <= r < height && 0 <= c < width) {
        1
    } else if map[r]@[c] >= ref_height {
        1
    } else {
        let (r2, c2) = match direction {
            Direction::Up => (r - 1, c),
            Direction::Down => (r + 1, c),
            Direction::Left => (r, c - 1),
            Direction::Right => (r, c + 1),
        };
        1 + spec_visibility(r2, c2, direction, ref_height, width, height, map)
    }
}

/// The node lies on the edge the scan direction walks towards.
pub fn at_edge(node: &Node, direction: &Direction, map_width: usize, map_height: usize) -> (r:
    bool)
    requires
        map_width > 0,
        map_height > 0,
    ensures
        r == spec_at_edge(
            node.0 as int,
            node.1 as int,
            *direction,
            map_width as int,
            map_height as int,
        ),
{
    match direction {
        Direction::Up => node.0 == 0,
        Direction::Down => node.0 == map_height - 1,
        Direction::Left => node.1 == 0,
        Direction::Right => node.1 == map_width - 1,
    }
}

/// Walks outwards from `from`, counting trees until one at least as tall as
/// the reference height blocks the view or the edge of the map is reached.
pub fn recursive_visibility(
    from: &Node,
    direction: &Direction,
    ref_height: Height,
    map_width: usize,
    map_height: usize,
    map: &Vec<Vec<Height>>,
) -> (r: u32)
    requires
        map_wf(map@, map_width as int, map_height as int),
        from.0 < map_height,
        from.1 < map_width,
        map_width < u32::MAX,
        map_height < u32::MAX,
    ensures
        r == spec_visibility(
            from.0 as int,
            from.1 as int,
            *direction,
            ref_height,
            map_width as int,
            map_height as int,
            map@,
        ),
        r as int <= 1 + steps_left(
            from.0 as int,
            from.1 as int,
            *direction,
            map_width as int,
            map_height as int,
        ),
    decreases steps_left(
        from.0 as int,
        from.1 as int,
        *direction,
        map_width as int,
        map_height as int,
    ),
{
    if at_edge(from, direction, map_width, map_height) {
        return 1;
    }
    let row = &map[from.0];
    let height_here = row[from.1];
    if height_here >= ref_height {
        1
    } else {
        let next = from.offset(direction, 1);
        1 + recursive_visibility(&next, direction, ref_height, map_width, map_height, map)
    }
}

} // verus!
