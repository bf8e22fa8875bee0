//! The grid model: an immutable dense elevation buffer with bounds-checked
//! lookups, plus generation of the orthogonal neighbours of a cell.

use vstd::prelude::*;

verus! {

/// A grid cell, identified by its row and column.
#[derive(Debug, Clone, Copy, PartialEq, Eq, Structural)]
pub struct Coordinate {
    pub row: usize,
    pub col: usize,
}

impl Coordinate {
    /// The Manhattan (L1) distance between two cells.
    pub open spec fn manhattan(self, other: Coordinate) -> nat {
        (if self.row >= other.row {
            self.row - other.row
        } else {
            other.row - self.row
        } + if self.col >= other.col {
            self.col - other.col
        } else {
            other.col - self.col
        }) as nat
    }

    /// Manhattan distance; the search heuristic.
    pub fn distance_to(&self, other: &Coordinate) -> (d: usize)
        requires
            self.manhattan(*other) <= usize::MAX,
        ensures
            d == self.manhattan(*other),
    {
        let rows = if self.row >= other.row {
            self.row - other.row
        } else {
            other.row - self.row
        };
        let cols = if self.col >= other.col {
            self.col - other.col
        } else {
            other.col - self.col
        };
        rows + cols
    }
}

/// A rectangular elevation map with a designated start and goal cell.
pub struct HeightMap {
    inner: Vec<u8>,
    width: usize,
    height: usize,
    start: Coordinate,
    goal: Coordinate,
}

/// Errors raised while building or querying a grid.
#[derive(Debug, Clone, Copy, PartialEq, Eq, Structural)]
pub enum GridError {
    /// A coordinate outside the grid dimensions was queried.
    OutOfBounds,
    /// The rows handed to the constructor do not all have the same width.
    MalformedGrid,
}

impl HeightMap {
    /// The elevation buffer, row-major.
    pub closed spec fn cells(self) -> Seq<u8> {
        self.inner@
    }

    /// Number of columns.
    pub closed spec fn spec_width(self) -> nat {
        self.width as nat
    }

    /// Number of rows.
    pub closed spec fn spec_height(self) -> nat {
        self.height as nat
    }

    pub closed spec fn spec_start(self) -> Coordinate {
        self.start
    }

    pub closed spec fn spec_goal(self) -> Coordinate {
        self.goal
    }

    /// A coordinate lies within the grid.
    pub open spec fn contains(self, c: Coordinate) -> bool {
        c.row < self.spec_height() && c.col < self.spec_width()
    }

    /// Well-formedness: the buffer is exactly `width` by `height`, both
    /// dimensions are positive, the start and goal lie within bounds, and the
    /// cell count leaves headroom for priority arithmetic.
    pub open spec fn wf(self) -> bool {
        &&& self.cells().len() == self.spec_width() * self.spec_height()
        &&& 0 < self.spec_width()
        &&& 0 < self.spec_height()
        &&& self.contains(self.spec_start())
        &&& self.contains(self.spec_goal())
        &&& self.spec_width() * self.spec_height() < usize::MAX / 2
    }

    /// The elevation at an in-bounds coordinate.
    pub open spec fn at(self, c: Coordinate) -> u8 {
        self.cells()[c.row * self.spec_width() + c.col]
    }

    /// The linear index of a coordinate in the row-major buffer.
    pub open spec fn index_of(self, c: Coordinate) -> int {
        c.row * self.spec_width() + c.col
    }

    pub proof fn lemma_index_in_range(self, c: Coordinate)
        requires
            self.wf(),
            self.contains(c),
        ensures
            0 <= self.index_of(c) < self.cells().len(),
    {
        let w = self.spec_width() as int;
        let h = self.spec_height() as int;
        let r = c.row as int;
        assert(r * w + c.col < w * h) by (nonlinear_arith)
            requires
                0 <= r,
                r < h,
                c.col < w,
                0 < w,
        ;
    }

    /// Builds a grid from row-major cells. Fails with `MalformedGrid` when the
    /// buffer does not match the given rectangular dimensions.
    pub fn new(
        cells: Vec<u8>,
        width: usize,
        height: usize,
        start: Coordinate,
        goal: Coordinate,
    ) -> (r: Result<HeightMap, GridError>)
        ensures
            match r {
                Ok(g) => {
                    &&& g.wf()
                    &&& g.cells() == cells@
                    &&& g.spec_width() == width
                    &&& g.spec_height() == height
                    &&& g.spec_start() == start
                    &&& g.spec_goal() == goal
                },
                Err(GridError::MalformedGrid) => {
                    ||| cells@.len() != width * height
                    ||| width == 0
                    ||| height == 0
                    ||| width * height >= usize::MAX / 2
                },
                Err(GridError::OutOfBounds) => {
                    &&& !(start.row < height && start.col < width
                        && goal.row < height && goal.col < width)
                },
            },
    {
        if width == 0 || height == 0 {
            return Err(GridError::MalformedGrid);
        }
        if usize::MAX / height <= width {
            proof {
                let w = width as int;
                let h = height as int;
                assert(w * h >= usize::MAX / 2) by (nonlinear_arith)
                    requires
                        0 < w,
                        0 < h,
                        usize::MAX as int / h <= w,
                ;
            }
            return Err(GridError::MalformedGrid);
        }
        proof {
            let w = width as int;
            let h = height as int;
            assert(w * h <= (usize::MAX as int / h) * h <= usize::MAX) by (nonlinear_arith)
                requires
                    0 < h,
                    w < usize::MAX as int / h,
            ;
        }
        let area = width * height;
        if area >= usize::MAX / 2 {
            return Err(GridError::MalformedGrid);
        }
        if cells.len() != area {
            return Err(GridError::MalformedGrid);
        }
        if !(start.row < height && start.col < width && goal.row < height && goal.col < width) {
            return Err(GridError::OutOfBounds);
        }
        Ok(HeightMap { inner: cells, width, height, start, goal })
    }

    pub fn width(&self) -> (w: usize)
        ensures
            w == self.spec_width(),
    {
        self.width
    }

    pub fn height(&self) -> (h: usize)
        ensures
            h == self.spec_height(),
    {
        self.height
    }

    pub fn start(&self) -> (c: Coordinate)
        ensures
            c == self.spec_start(),
    {
        self.start
    }

    pub fn goal(&self) -> (c: Coordinate)
        ensures
            c == self.spec_goal(),
    {
        self.goal
    }

    /// The row-major position of an in-bounds cell in the buffer.
    pub fn cell_index(&self, coord: &Coordinate) -> (i: usize)
        requires
            self.wf(),
            self.contains(*coord),
        ensures
            i == self.index_of(*coord),
            i < self.cells().len(),
    {
        proof {
            self.lemma_index_in_range(*coord);
        }
        coord.row * self.width + coord.col
    }

    /// The elevation of an in-bounds cell.
    pub fn get_coordinate(&self, coord: &Coordinate) -> (e: u8)
        requires
            self.wf(),
            self.contains(*coord),
        ensures
            e == self.at(*coord),
    {
        proof {
            self.lemma_index_in_range(*coord);
        }
        self.inner[coord.row * self.width + coord.col]
    }

    /// Two cells are orthogonally adjacent.
    pub open spec fn adjacent(a: Coordinate, b: Coordinate) -> bool {
        ||| a.row == b.row && (a.col + 1 == b.col || b.col + 1 == a.col)
        ||| a.col == b.col && (a.row + 1 == b.row || b.row + 1 == a.row)
    }

    /// The step-admissibility rule: a move from `a` to an orthogonally
    /// adjacent in-bounds cell `b` is allowed when the destination ascends by
    /// at most one unit; any descent is allowed.
    pub open spec fn step_ok(self, a: Coordinate, b: Coordinate) -> bool {
        &&& self.contains(a)
        &&& self.contains(b)
        &&& Self::adjacent(a, b)
        &&& self.at(b) <= self.at(a) + 1
    }

    /// The exact sequence of in-bounds orthogonal neighbours of a cell,
    /// probed in the fixed order up, right, down, left.
    pub open spec fn raw_neighbour_seq(self, c: Coordinate) -> Seq<Coordinate> {
        (if c.row > 0 {
            seq![Coordinate { row: (c.row - 1) as usize, col: c.col }]
        } else {
            Seq::empty()
        }) + (if c.col + 1 < self.spec_width() {
            seq![Coordinate { row: c.row, col: (c.col + 1) as usize }]
        } else {
            Seq::empty()
        }) + (if c.row + 1 < self.spec_height() {
            seq![Coordinate { row: (c.row + 1) as usize, col: c.col }]
        } else {
            Seq::empty()
        }) + (if c.col > 0 {
            seq![Coordinate { row: c.row, col: (c.col - 1) as usize }]
        } else {
            Seq::empty()
        })
    }

    /// The subsequence of `s` admitting a step from `c`, in order.
    pub open spec fn filter_admissible(self, c: Coordinate, s: Seq<Coordinate>) -> Seq<
        Coordinate,
    >
        decreases s.len(),
    {
        if s.len() == 0 {
            Seq::empty()
        } else {
            (if self.step_ok(c, s[0]) {
                seq![s[0]]
            } else {
                Seq::empty()
            }) + self.filter_admissible(c, s.skip(1))
        }
    }

    /// The filtered subsequence is no longer than the probed one.
    proof fn lemma_filter_admissible_len(self, c: Coordinate, s: Seq<Coordinate>)
        ensures
            self.filter_admissible(c, s).len() <= s.len(),
        decreases s.len(),
    {
        if s.len() > 0 {
            self.lemma_filter_admissible_len(c, s.skip(1));
        }
    }

    /// The orthogonal in-bounds neighbours of a cell, without elevation
    /// filtering: exactly `raw_neighbour_seq`, so each neighbour appears
    /// once, at most four in all, in the fixed probing order.
    pub fn neighbours_raw(&self, coord: &Coordinate) -> (r: Vec<Coordinate>)
        requires
            self.wf(),
            self.contains(*coord),
        ensures
            r@ == self.raw_neighbour_seq(*coord),
            r@.no_duplicates(),
            r@.len() <= 4,
            forall|i: int|
                0 <= i < r@.len() ==> self.contains(#[trigger] r@[i]) && Self::adjacent(
                    *coord,
                    r@[i],
                ),
            forall|d: Coordinate|
                self.contains(d) && Self::adjacent(*coord, d) ==> r@.contains(d),
    {
        let mut r: Vec<Coordinate> = Vec::new();
        if coord.row > 0 {
            r.push(Coordinate { row: coord.row - 1, col: coord.col });
        }
        if coord.col < self.width - 1 {
            r.push(Coordinate { row: coord.row, col: coord.col + 1 });
        }
        if coord.row < self.height - 1 {
            r.push(Coordinate { row: coord.row + 1, col: coord.col });
        }
        if coord.col > 0 {
            r.push(Coordinate { row: coord.row, col: coord.col - 1 });
        }
        proof {
            assert(r@ =~= self.raw_neighbour_seq(*coord));
            assert(r@.no_duplicates());
            assert forall|d: Coordinate|
                self.contains(d) && Self::adjacent(*coord, d) implies r@.contains(d) by {
                let n_up: int = if coord.row > 0 { 1 } else { 0 };
                let n_right: int = if coord.col + 1 < self.spec_width() { 1 } else { 0 };
                let n_down: int = if coord.row + 1 < self.spec_height() { 1 } else { 0 };
                if d.col == coord.col && d.row + 1 == coord.row {
                    assert(r@[0] == d);
                } else if d.row == coord.row && d.col == coord.col + 1 {
                    assert(r@[n_up] == d);
                } else if d.col == coord.col && d.row == coord.row + 1 {
                    assert(r@[n_up + n_right] == d);
                } else {
                    assert(d.row == coord.row && d.col + 1 == coord.col);
                    assert(r@[n_up + n_right + n_down] == d);
                }
            }
        }
        r
    }

    /// The neighbours reachable from `coord` in one admissible step: exactly
    /// those in-bounds orthogonal neighbours whose elevation exceeds the
    /// centre's by at most one, each once, in the fixed probing order — a
    /// pure function of the grid and the centre.
    pub fn neighbours(&self, coord: &Coordinate) -> (r: Vec<Coordinate>)
        requires
            self.wf(),
            self.contains(*coord),
        ensures
            r@ == self.filter_admissible(*coord, self.raw_neighbour_seq(*coord)),
            r@.no_duplicates(),
            r@.len() <= 4,
            forall|i: int| 0 <= i < r@.len() ==> self.step_ok(*coord, #[trigger] r@[i]),
            forall|d: Coordinate| self.step_ok(*coord, d) ==> r@.contains(d),
    {
        let raw = self.neighbours_raw(coord);
        let center_height = self.get_coordinate(coord);
        let mut r: Vec<Coordinate> = Vec::new();
        let mut i: usize = 0;
        proof {
            assert(raw@.skip(0) =~= raw@);
            assert(self.filter_admissible(*coord, raw@) =~= Seq::<Coordinate>::empty()
                + self.filter_admissible(*coord, raw@));
        }
        while i < raw.len()
            invariant
                self.wf(),
                self.contains(*coord),
                center_height == self.at(*coord),
                i <= raw.len(),
                raw@ == self.raw_neighbour_seq(*coord),
                raw@.no_duplicates(),
                raw@.len() <= 4,
                forall|j: int|
                    0 <= j < raw@.len() ==> self.contains(#[trigger] raw@[j]) && Self::adjacent(
                        *coord,
                        raw@[j],
                    ),
                self.filter_admissible(*coord, raw@) == r@ + self.filter_admissible(
                    *coord,
                    raw@.skip(i as int),
                ),
                r@.no_duplicates(),
                forall|k: int|
                    0 <= k < r@.len() ==> exists|j: int| 0 <= j < i && raw@[j] == #[trigger] r@[k],
                forall|j: int| 0 <= j < r@.len() ==> self.step_ok(*coord, #[trigger] r@[j]),
                forall|j: int|
                    0 <= j < i && self.step_ok(*coord, #[trigger] raw@[j]) ==> r@.contains(
                        raw@[j],
                    ),
            decreases raw.len() - i,
        {
            let candidate = raw[i];
            let other_height = self.get_coordinate(&candidate);
            proof {
                // One unfolding of the filter at position `i`.
                assert(raw@.skip(i as int)[0] == raw@[i as int]);
                assert(raw@.skip(i as int).skip(1) =~= raw@.skip(i + 1));
            }
            if other_height < center_height || other_height - center_height <= 1 {
                let ghost r_before = r@;
                r.push(candidate);
                proof {
                    assert(r@[r@.len() - 1] == candidate);
                    assert(self.step_ok(*coord, candidate));
                    assert(self.filter_admissible(*coord, raw@.skip(i as int)) == seq![
                        candidate,
                    ] + self.filter_admissible(*coord, raw@.skip(i + 1)));
                    assert(self.filter_admissible(*coord, raw@) =~= r@
                        + self.filter_admissible(*coord, raw@.skip(i + 1)));
                    // The new element was not collected before: its source
                    // position in the probed sequence is fresh.
                    assert forall|k: int|
                        0 <= k < r_before.len() implies r_before[k] != candidate by {
                        let j = choose|j: int| 0 <= j < i && raw@[j] == r_before[k];
                        if r_before[k] == candidate {
                            assert(raw@[j] == raw@[i as int]);
                        }
                    }
                    assert(r@.no_duplicates());
                    assert forall|k: int|
                        0 <= k < r@.len() implies exists|j: int|
                        0 <= j < i + 1 && raw@[j] == #[trigger] r@[k] by {
                        if k < r_before.len() {
                            assert(r@[k] == r_before[k]);
                        } else {
                            assert(raw@[i as int] == r@[k]);
                        }
                    }
                    assert forall|j: int|
                        0 <= j < i && self.step_ok(*coord, #[trigger] raw@[j]) implies r@.contains(
                        raw@[j],
                    ) by {
                        let k = choose|k: int|
                            0 <= k < r_before.len() && r_before[k] == raw@[j];
                        assert(r@[k] == raw@[j]);
                    }
                }
            } else {
                proof {
                    assert(!self.step_ok(*coord, candidate));
                    assert(self.filter_admissible(*coord, raw@.skip(i as int)) == Seq::<
                        Coordinate,
                    >::empty() + self.filter_admissible(*coord, raw@.skip(i + 1)));
                    assert(self.filter_admissible(*coord, raw@) =~= r@
                        + self.filter_admissible(*coord, raw@.skip(i + 1)));
                }
            }
            i += 1;
        }
        proof {
            assert(raw@.skip(raw@.len() as int) =~= Seq::<Coordinate>::empty());
            assert(r@ =~= self.filter_admissible(*coord, raw@));
            self.lemma_filter_admissible_len(*coord, raw@);
            assert forall|d: Coordinate| self.step_ok(*coord, d) implies r@.contains(d) by {
                assert(raw@.contains(d));
                let j = choose|j: int| 0 <= j < raw@.len() && raw@[j] == d;
                assert(self.step_ok(*coord, raw@[j]));
            }
        }
        r
    }

    /// Bounds-checked elevation lookup, per the grid model contract.
    pub fn elevation(&self, coord: &Coordinate) -> (r: Result<u8, GridError>)
        requires
            self.wf(),
        ensures
            match r {
                Ok(e) => self.contains(*coord) && e == self.at(*coord),
                Err(e) => e == GridError::OutOfBounds && !self.contains(*coord),
            },
    {
        if coord.row < self.height && coord.col < self.width {
            Ok(self.get_coordinate(coord))
        } else {
            Err(GridError::OutOfBounds)
        }
    }
}

/// A compass direction, cycling Up, Right, Down, Left.
#[derive(Debug, Clone, Copy, PartialEq, Eq, Structural)]
pub enum Direction {
    Up,
    Down,
    Left,
    Right,
}

impl Direction {
    /// The next direction in clockwise order.
    pub fn next(self) -> (d: Direction)
        ensures
            d == match self {
                Direction::Up => Direction::Right,
                Direction::Right => Direction::Down,
                Direction::Down => Direction::Left,
                Direction::Left => Direction::Up,
            },
    {
        match self {
            Direction::Up => Direction::Right,
            Direction::Right => Direction::Down,
            Direction::Down => Direction::Left,
            Direction::Left => Direction::Up,
        }
    }

    /// The first direction tried when enumerating neighbours.
    pub fn first() -> (d: Direction)
        ensures
            d == Direction::Up,
    {
        Direction::Up
    }

    /// The last direction tried when enumerating neighbours.
    pub fn last() -> (d: Direction)
        ensures
            d == Direction::Left,
    {
        Direction::Left
    }
}

/// A finite, restartable sequence of the in-bounds orthogonal neighbours of a
/// cell, yielded one at a time.
pub struct Neighbours {
    items: Vec<Coordinate>,
    position: usize,
}

impl Neighbours {
    /// The neighbours not yet yielded.
    pub closed spec fn remaining(self) -> Seq<Coordinate> {
        self.items@.skip(self.position as int)
    }

    pub closed spec fn wf(self) -> bool {
        self.position <= self.items@.len()
    }

    /// Captures the in-bounds orthogonal neighbours of `center`, without
    /// elevation filtering: exactly the probed sequence (up, right, down,
    /// left, each existing neighbour once), which `next` then yields in
    /// order.
    pub fn to(map: &HeightMap, center: &Coordinate) -> (n: Neighbours)
        requires
            map.wf(),
            map.contains(*center),
        ensures
            n.wf(),
            n.remaining() == map.raw_neighbour_seq(*center),
            n.remaining().no_duplicates(),
            n.remaining().len() <= 4,
            forall|i: int|
                0 <= i < n.remaining().len() ==> map.contains(#[trigger] n.remaining()[i])
                    && HeightMap::adjacent(*center, n.remaining()[i]),
            forall|d: Coordinate|
                map.contains(d) && HeightMap::adjacent(*center, d) ==> n.remaining().contains(d),
    {
        let items = map.neighbours_raw(center);
        let n = Neighbours { items, position: 0 };
        proof {
            assert(n.remaining() =~= n.items@);
        }
        n
    }

    /// Yields the next neighbour, if any are left.
    pub fn next(&mut self) -> (r: Option<Coordinate>)
        requires
            old(self).wf(),
        ensures
            final(self).wf(),
            match r {
                Some(c) => old(self).remaining().len() > 0 && c == old(self).remaining()[0]
                    && final(self).remaining() == old(self).remaining().skip(1),
                None => old(self).remaining().len() == 0 && final(self).remaining()
                    == old(self).remaining(),
            },
    {
        if self.position < self.items.len() {
            let c = self.items[self.position];
            self.position += 1;
            proof {
                assert(final(self).remaining() =~= old(self).remaining().skip(1));
            }
            Some(c)
        } else {
            None
        }
    }
}

} // verus!
