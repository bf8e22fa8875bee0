//! A two-knot rope simulation: the head moves in unit steps, the tail
//! follows whenever it is no longer touching the head, and the distinct
//! positions the tail visits are counted.

use vstd::prelude::*;

verus! {

broadcast use vstd::seq_lib::seq_to_set_is_finite;

/// A direction of head movement.
#[derive(Debug, Clone, Copy, PartialEq, Eq, Structural)]
pub enum Direction {
    Up,
    Down,
    Left,
    Right,
}

/// A head movement: a direction and a repeat count.
#[derive(Debug, Clone, Copy, PartialEq, Eq, Structural)]
pub struct Movement {
    pub direction: Direction,
    pub count: u16,
}

impl Movement {
    pub fn new(direction: Direction, count: u16) -> (m: Movement)
        ensures
            m.direction == direction,
            m.count == count,
    {
        Movement { direction, count }
    }
}

/// A grid position.
#[derive(Debug, Clone, Copy, PartialEq, Eq, Structural)]
pub struct Point {
    pub x: isize,
    pub y: isize,
}

impl Point {
    /// The origin.
    pub fn zero() -> (p: Point)
        ensures
            p == (Point { x: 0, y: 0 }),
    {
        Point { x: 0, y: 0 }
    }
}

/// The position one unit from `p` in direction `d`, as unbounded integers.
pub open spec fn spec_advance(p: Point, d: Direction) -> (int, int) {
    match d {
        Direction::Up => (p.x as int, p.y + 1),
        Direction::Down => (p.x as int, p.y - 1),
        Direction::Left => (p.x - 1, p.y as int),
        Direction::Right => (p.x + 1, p.y as int),
    }
}

/// Two positions touch when they are equal or adjacent, diagonals included.
pub open spec fn spec_touching(a: (int, int), b: (int, int)) -> bool {
    &&& -1 <= a.0 - b.0 <= 1
    &&& -1 <= a.1 - b.1 <= 1
}

/// The difference between two positions.
pub struct Delta {
    inner: Point,
}

impl Delta {
    pub closed spec fn spec_x(self) -> int {
        self.inner.x as int
    }

    pub closed spec fn spec_y(self) -> int {
        self.inner.y as int
    }

    /// The difference `a - b`.
    pub fn between(a: &Point, b: &Point) -> (d: Delta)
        requires
            isize::MIN <= a.x - b.x <= isize::MAX,
            isize::MIN <= a.y - b.y <= isize::MAX,
        ensures
            d.spec_x() == a.x - b.x,
            d.spec_y() == a.y - b.y,
    {
        Delta { inner: Point { x: a.x - b.x, y: a.y - b.y } }
    }

    /// The two endpoints of the difference touch: the delta is at most one
    /// in each axis.
    pub fn touching(&self) -> (r: bool)
        ensures
            r == (-1 <= self.spec_x() <= 1 && -1 <= self.spec_y() <= 1),
    {
        (self.inner.x == 0 && (self.inner.y == 1 || self.inner.y == -1)) || ((self.inner.x == 1
            || self.inner.x == -1) && self.inner.y == 0) || (self.inner.x == 0 && self.inner.y
            == 0) || ((self.inner.x == 1 || self.inner.x == -1) && (self.inner.y == 1
            || self.inner.y == -1))
    }

    /// The delta with each component reduced to its sign.
    pub fn normalized(self) -> (d: Delta)
        ensures
            d.spec_x() == (if self.spec_x() > 0 {
                1int
            } else if self.spec_x() < 0 {
                -1int
            } else {
                0int
            }),
            d.spec_y() == (if self.spec_y() > 0 {
                1int
            } else if self.spec_y() < 0 {
                -1int
            } else {
                0int
            }),
    {
        let x: isize = if self.inner.x > 0 {
            1
        } else if self.inner.x < 0 {
            -1
        } else {
            0
        };
        let y: isize = if self.inner.y > 0 {
            1
        } else if self.inner.y < 0 {
            -1
        } else {
            0
        };
        Delta { inner: Point { x, y } }
    }

    /// The axis direction of a non-zero, non-diagonal delta.
    pub fn as_direction(self) -> (d: Direction)
        requires
            !(self.spec_x() != 0 && self.spec_y() != 0),
            !(self.spec_x() == 0 && self.spec_y() == 0),
        ensures
            d == if self.spec_y() == 0 {
                if self.spec_x() > 0 {
                    Direction::Right
                } else {
                    Direction::Left
                }
            } else {
                if self.spec_y() > 0 {
                    Direction::Up
                } else {
                    Direction::Down
                }
            },
    {
        if self.inner.y == 0 {
            if self.inner.x > 0 {
                Direction::Right
            } else {
                Direction::Left
            }
        } else {
            if self.inner.y > 0 {
                Direction::Up
            } else {
                Direction::Down
            }
        }
    }
}

/// One step of the simulation: the head advances one unit and the tail
/// snaps to the head's previous position when it is no longer touching.
pub open spec fn spec_rope_step(h: (int, int), t: (int, int), d: Direction) -> (
    (int, int),
    (int, int),
) {
    let h2 = match d {
        Direction::Up => (h.0, h.1 + 1),
        Direction::Down => (h.0, h.1 - 1),
        Direction::Left => (h.0 - 1, h.1),
        Direction::Right => (h.0 + 1, h.1),
    };
    let t2 = if spec_touching(h2, t) {
        t
    } else {
        h
    };
    (h2, t2)
}

/// Running `n` steps in direction `d`, collecting the positions the tail
/// moves onto.
pub open spec fn spec_rope_run(
    h: (int, int),
    t: (int, int),
    vis: Set<(int, int)>,
    d: Direction,
    n: nat,
) -> ((int, int), (int, int), Set<(int, int)>)
    decreases n,
{
    if n == 0 {
        (h, t, vis)
    } else {
        let (h2, t2) = spec_rope_step(h, t, d);
        let vis2 = if t2 == t {
            vis
        } else {
            vis.insert(t2)
        };
        spec_rope_run(h2, t2, vis2, d, (n - 1) as nat)
    }
}

/// A rope of two knots and the set of positions its tail has visited.
pub struct TwoKnotRope {
    head_position: Point,
    tail_position: Point,
    visited: Vec<Point>,
}

impl TwoKnotRope {
    pub closed spec fn spec_head(self) -> (int, int) {
        (self.head_position.x as int, self.head_position.y as int)
    }

    pub closed spec fn spec_tail(self) -> (int, int) {
        (self.tail_position.x as int, self.tail_position.y as int)
    }

    /// The distinct positions the tail has occupied.
    pub closed spec fn spec_visited(self) -> Set<(int, int)> {
        self.visited@.map_values(|p: Point| (p.x as int, p.y as int)).to_set()
    }

    pub closed spec fn wf(self) -> bool {
        &&& self.visited@.map_values(|p: Point| (p.x as int, p.y as int)).no_duplicates()
        &&& self.spec_visited().finite()
    }

    /// A well-formed rope's visited set is finite, so counting it is
    /// meaningful and can only grow as moves are applied.
    pub proof fn lemma_visited_finite(self)
        requires
            self.wf(),
        ensures
            self.spec_visited().finite(),
    {
    }

    /// Both knots within comfortable coordinate bounds.
    pub open spec fn within(self, bound: int) -> bool {
        &&& -bound <= self.spec_head().0 <= bound
        &&& -bound <= self.spec_head().1 <= bound
        &&& -bound <= self.spec_tail().0 <= bound
        &&& -bound <= self.spec_tail().1 <= bound
    }

    /// A rope with both knots at the origin, which the tail has visited.
    pub fn new() -> (rope: TwoKnotRope)
        ensures
            rope.wf(),
            rope.spec_head() == (0int, 0int),
            rope.spec_tail() == (0int, 0int),
            rope.spec_visited() =~= Set::<(int, int)>::empty().insert((0int, 0int)),
    {
        let mut visited: Vec<Point> = Vec::new();
        visited.push(Point::zero());
        let rope = TwoKnotRope {
            head_position: Point::zero(),
            tail_position: Point::zero(),
            visited,
        };
        proof {
            let m = rope.visited@.map_values(|p: Point| (p.x as int, p.y as int));
            assert(m =~= seq![(0int, 0int)]);
            assert forall|q: (int, int)| #[trigger]
                rope.spec_visited().contains(q) implies q == (0int, 0int) by {}
            assert(rope.spec_visited().contains((0int, 0int))) by {
                assert(m[0] == (0int, 0int));
            }
        }
        rope
    }

    /// Applies a movement: the head advances one unit at a time, the tail
    /// follows, and each position the tail moves onto is recorded.
    pub fn move_head(&mut self, movement: Movement)
        requires
            old(self).wf(),
            old(self).within(isize::MAX / 4),
        ensures
            final(self).wf(),
            (
                final(self).spec_head(),
                final(self).spec_tail(),
                final(self).spec_visited(),
            ) == spec_rope_run(
                old(self).spec_head(),
                old(self).spec_tail(),
                old(self).spec_visited(),
                movement.direction,
                movement.count as nat,
            ),
    {
        let ghost h0 = old(self).spec_head();
        let ghost t0 = old(self).spec_tail();
        let ghost v0 = old(self).spec_visited();
        let d = movement.direction;
        let mut i: u16 = 0;
        while i < movement.count
            invariant
                i <= movement.count,
                self.wf(),
                // Each step moves each knot at most one unit.
                -(isize::MAX / 4) - (i as int) <= self.spec_head().0,
                self.spec_head().0 <= isize::MAX / 4 + i as int,
                -(isize::MAX / 4) - (i as int) <= self.spec_head().1,
                self.spec_head().1 <= isize::MAX / 4 + i as int,
                -(isize::MAX / 4) - (i as int) <= self.spec_tail().0,
                self.spec_tail().0 <= isize::MAX / 4 + i as int,
                -(isize::MAX / 4) - (i as int) <= self.spec_tail().1,
                self.spec_tail().1 <= isize::MAX / 4 + i as int,
                spec_rope_run(h0, t0, v0, d, movement.count as nat) == spec_rope_run(
                    self.spec_head(),
                    self.spec_tail(),
                    self.spec_visited(),
                    d,
                    (movement.count - i) as nat,
                ),
            decreases movement.count - i,
        {
            let ghost hi = self.spec_head();
            let ghost ti = self.spec_tail();
            let ghost vi = self.spec_visited();
            let old_head_position = self.head_position;
            match d {
                Direction::Up => {
                    self.head_position.y = self.head_position.y + 1;
                },
                Direction::Down => {
                    self.head_position.y = self.head_position.y - 1;
                },
                Direction::Left => {
                    self.head_position.x = self.head_position.x - 1;
                },
                Direction::Right => {
                    self.head_position.x = self.head_position.x + 1;
                },
            }
            let delta = Delta::between(&self.head_position, &self.tail_position);
            if !delta.touching() {
                self.tail_position = old_head_position;
                let moved_to = self.tail_position;
                let ghost vlist = self.visited@;
                let ghost m_before = vlist.map_values(|p: Point| (p.x as int, p.y as int));
                let ghost q = (moved_to.x as int, moved_to.y as int);
                let mut seen = false;
                let mut j: usize = 0;
                while j < self.visited.len()
                    invariant
                        j <= self.visited@.len(),
                        self.visited@ == vlist,
                        seen == exists|k: int|
                            0 <= k < j && #[trigger] self.visited@[k] == moved_to,
                    decreases self.visited@.len() - j,
                {
                    if self.visited[j] == moved_to {
                        seen = true;
                    }
                    j += 1;
                }
                proof {
                    // A point occurs in the list exactly when its integer
                    // pair occurs in the mapped view.
                    assert forall|k: int| 0 <= k < m_before.len() implies (#[trigger] m_before[
                        k
                    ] == q) == (vlist[k] == moved_to) by {
                        let p = vlist[k];
                        if m_before[k] == q && p != moved_to {
                            assert(p.x as int == moved_to.x as int);
                            assert(p.y as int == moved_to.y as int);
                            assert(p.x == moved_to.x && p.y == moved_to.y);
                        }
                    }
                }
                if !seen {
                    self.visited.push(moved_to);
                    proof {
                        let m_after = self.visited@.map_values(
                            |p: Point| (p.x as int, p.y as int),
                        );
                        assert(m_after =~= m_before.push(q));
                        assert(self.wf());
                        assert(self.spec_visited() =~= vi.insert(q)) by {
                            assert forall|z: (int, int)|
                                #[trigger] m_after.to_set().contains(z) implies vi.insert(
                                q,
                            ).contains(z) by {
                                let k = choose|k: int|
                                    0 <= k < m_after.len() && m_after[k] == z;
                                if k < m_before.len() {
                                    assert(m_before[k] == z);
                                }
                            }
                            assert forall|z: (int, int)|
                                vi.insert(q).contains(z) implies #[trigger] m_after
                                .to_set().contains(z) by {
                                if z == q {
                                    assert(m_after[m_after.len() - 1] == q);
                                } else {
                                    let k = choose|k: int|
                                        0 <= k < m_before.len() && m_before[k] == z;
                                    assert(m_after[k] == z);
                                }
                            }
                        }
                    }
                } else {
                    proof {
                        let k = choose|k: int|
                            0 <= k < vlist.len() && #[trigger] vlist[k] == moved_to;
                        assert(m_before[k] == q);
                        assert(vi.contains(q));
                        assert(self.spec_visited() =~= vi.insert(q));
                    }
                }
            }
            proof {
                assert((self.spec_head(), self.spec_tail()) == spec_rope_step(hi, ti, d));
                assert(spec_rope_run(hi, ti, vi, d, (movement.count - i) as nat)
                    == spec_rope_run(
                    self.spec_head(),
                    self.spec_tail(),
                    self.spec_visited(),
                    d,
                    (movement.count - i - 1) as nat,
                ));
            }
            i += 1;
        }
    }

    /// The number of distinct positions the tail has visited.
    pub fn count_tail_visited(&self) -> (n: usize)
        requires
            self.wf(),
        ensures
            n == self.spec_visited().len(),
    {
        proof {
            let m = self.visited@.map_values(|p: Point| (p.x as int, p.y as int));
            m.unique_seq_to_set();
        }
        self.visited.len()
    }
}

/// One unit step of a coordinate toward a target: its sign distance.
pub open spec fn sign_of(v: int) -> int {
    if v > 0 {
        1
    } else if v < 0 {
        -1
    } else {
        0
    }
}

/// A knot follows the knot ahead: it stays while touching, and otherwise
/// steps one unit toward it on each axis where they differ.
pub open spec fn spec_follow(parent: (int, int), knot: (int, int)) -> (int, int) {
    if spec_touching(parent, knot) {
        knot
    } else {
        (knot.0 + sign_of(parent.0 - knot.0), knot.1 + sign_of(parent.1 - knot.1))
    }
}

/// Knots from position `i` on follow one after the other; as soon as one
/// knot stays put, the rest stay put too.
pub open spec fn spec_cascade(knots: Seq<(int, int)>, i: int) -> Seq<(int, int)>
    decreases knots.len() - i,
{
    if !(1 <= i < knots.len()) {
        knots
    } else {
        let k2 = spec_follow(knots[i - 1], knots[i]);
        if k2 == knots[i] {
            knots
        } else {
            spec_cascade(knots.update(i, k2), i + 1)
        }
    }
}

/// One step of the whole rope: the head advances one unit and the cascade
/// runs down the knots.
pub open spec fn spec_rope_n_step(knots: Seq<(int, int)>, d: Direction) -> Seq<(int, int)> {
    let h2 = match d {
        Direction::Up => (knots[0].0, knots[0].1 + 1),
        Direction::Down => (knots[0].0, knots[0].1 - 1),
        Direction::Left => (knots[0].0 - 1, knots[0].1),
        Direction::Right => (knots[0].0 + 1, knots[0].1),
    };
    spec_cascade(knots.update(0, h2), 1)
}

/// Running `n` steps of the whole rope, collecting the positions the last
/// knot moves onto (a lone head records nothing).
pub open spec fn spec_rope_n_run(
    knots: Seq<(int, int)>,
    vis: Set<(int, int)>,
    d: Direction,
    n: nat,
) -> (Seq<(int, int)>, Set<(int, int)>)
    decreases n,
{
    if n == 0 {
        (knots, vis)
    } else {
        let k2 = spec_rope_n_step(knots, d);
        let vis2 = if knots.len() > 1 && k2[knots.len() - 1] != knots[knots.len() - 1] {
            vis.insert(k2[knots.len() - 1])
        } else {
            vis
        };
        spec_rope_n_run(k2, vis2, d, (n - 1) as nat)
    }
}

/// A rope of `N` knots and the set of positions its last knot has visited.
pub struct Rope<const N: usize> {
    knots: [Point; N],
    visited: Vec<Point>,
}

impl<const N: usize> Rope<N> {
    /// The knot positions, head first.
    pub closed spec fn spec_knots(self) -> Seq<(int, int)> {
        Seq::new(N as nat, |i: int| (self.knots@[i].x as int, self.knots@[i].y as int))
    }

    /// The distinct positions the last knot has occupied.
    pub closed spec fn spec_visited(self) -> Set<(int, int)> {
        self.visited@.map_values(|p: Point| (p.x as int, p.y as int)).to_set()
    }

    pub closed spec fn wf(self) -> bool {
        &&& self.visited@.map_values(|p: Point| (p.x as int, p.y as int)).no_duplicates()
        &&& self.spec_visited().finite()
    }

    /// Every knot lies within the given coordinate bound.
    pub open spec fn within(self, bound: int) -> bool {
        forall|i: int|
            0 <= i < N ==> -bound <= (#[trigger] self.spec_knots()[i]).0 <= bound && -bound
                <= self.spec_knots()[i].1 <= bound
    }

    /// A rope with every knot at the origin, which the last knot has
    /// visited.
    pub fn new() -> (rope: Rope<N>)
        requires
            N >= 1,
        ensures
            rope.wf(),
            rope.spec_knots() =~= Seq::new(N as nat, |i: int| (0int, 0int)),
            rope.spec_visited() =~= Set::<(int, int)>::empty().insert((0int, 0int)),
    {
        let mut visited: Vec<Point> = Vec::new();
        visited.push(Point::zero());
        let rope = Rope { knots: [Point { x: 0, y: 0 }; N], visited };
        proof {
            let m = rope.visited@.map_values(|p: Point| (p.x as int, p.y as int));
            assert(m =~= seq![(0int, 0int)]);
            assert forall|q: (int, int)| #[trigger]
                rope.spec_visited().contains(q) implies q == (0int, 0int) by {}
            assert(rope.spec_visited().contains((0int, 0int))) by {
                assert(m[0] == (0int, 0int));
            }
        }
        rope
    }

    /// Applies a movement: the head advances one unit at a time and the
    /// knots cascade after it, each position the last knot moves onto being
    /// recorded.
    pub fn move_head(&mut self, movement: Movement)
        requires
            N >= 1,
            old(self).wf(),
            old(self).within(isize::MAX / 4),
        ensures
            final(self).wf(),
            (final(self).spec_knots(), final(self).spec_visited()) == spec_rope_n_run(
                old(self).spec_knots(),
                old(self).spec_visited(),
                movement.direction,
                movement.count as nat,
            ),
    {
        let d = movement.direction;
        let ghost k0 = old(self).spec_knots();
        let ghost v0 = old(self).spec_visited();
        let mut s: u16 = 0;
        while s < movement.count
            invariant
                N >= 1,
                s <= movement.count,
                self.wf(),
                forall|i: int|
                    0 <= i < N ==> -(isize::MAX / 4) - (s as int) <= (
                    #[trigger] self.spec_knots()[i]).0 <= isize::MAX / 4 + s as int && -(
                    isize::MAX / 4) - (s as int) <= self.spec_knots()[i].1 <= isize::MAX / 4
                        + s as int,
                spec_rope_n_run(k0, v0, d, movement.count as nat) == spec_rope_n_run(
                    self.spec_knots(),
                    self.spec_visited(),
                    d,
                    (movement.count - s) as nat,
                ),
            decreases movement.count - s,
        {
            let ghost ks = self.spec_knots();
            let ghost vs = self.spec_visited();
            let ghost tail_before = ks[N - 1];
            let old_tail = self.knots[N - 1];
            // Move the head.
            let head = self.knots[0];
            let new_head = match d {
                Direction::Up => Point { x: head.x, y: head.y + 1 },
                Direction::Down => Point { x: head.x, y: head.y - 1 },
                Direction::Left => Point { x: head.x - 1, y: head.y },
                Direction::Right => Point { x: head.x + 1, y: head.y },
            };
            self.knots[0] = new_head;
            let ghost start = ks.update(0, spec_rope_n_step_head(ks, d));
            proof {
                assert(self.spec_knots() =~= start);
            }
            let mut knot_index: usize = 1;
            let mut halted = false;
            while knot_index < N && !halted
                invariant
                    N >= 1,
                    1 <= knot_index <= N,
                    self.wf(),
                    self.spec_visited() == vs,
                    self.spec_knots().len() == N,
                    forall|i: int|
                        0 <= i < N ==> -(isize::MAX / 4) - (s as int) - 1 <= (
                        #[trigger] self.spec_knots()[i]).0 <= isize::MAX / 4 + s as int + 1
                            && -(isize::MAX / 4) - (s as int) - 1 <= self.spec_knots()[i].1
                            <= isize::MAX / 4 + s as int + 1,
                    spec_cascade(start, 1) == if halted {
                        self.spec_knots()
                    } else {
                        spec_cascade(self.spec_knots(), knot_index as int)
                    },
                decreases N - knot_index, (if halted {
                    0int
                } else {
                    1int
                }),
            {
                let parent = self.knots[knot_index - 1];
                let knot = self.knots[knot_index];
                let dx = parent.x - knot.x;
                let dy = parent.y - knot.y;
                if -1 <= dx && dx <= 1 && -1 <= dy && dy <= 1 {
                    proof {
                        let kk = self.spec_knots();
                        assert(spec_touching(kk[knot_index - 1], kk[knot_index as int]));
                        assert(spec_cascade(kk, knot_index as int) == kk);
                    }
                    halted = true;
                } else {
                    let sx: isize = if dx > 0 {
                        1
                    } else if dx < 0 {
                        -1
                    } else {
                        0
                    };
                    let sy: isize = if dy > 0 {
                        1
                    } else if dy < 0 {
                        -1
                    } else {
                        0
                    };
                    let moved = Point { x: knot.x + sx, y: knot.y + sy };
                    let ghost kk = self.spec_knots();
                    self.knots[knot_index] = moved;
                    proof {
                        let follow = spec_follow(kk[knot_index - 1], kk[knot_index as int]);
                        assert(follow != kk[knot_index as int]);
                        assert(self.spec_knots() =~= kk.update(knot_index as int, follow));
                        assert(spec_cascade(kk, knot_index as int) == spec_cascade(
                            self.spec_knots(),
                            knot_index + 1,
                        ));
                    }
                    knot_index += 1;
                }
            }
            proof {
                if !halted {
                    assert(spec_cascade(self.spec_knots(), knot_index as int)
                        == self.spec_knots());
                }
                assert(self.spec_knots() == spec_cascade(start, 1));
                assert(self.spec_knots() == spec_rope_n_step(ks, d));
            }
            // Record the last knot's position when it moved.
            let tail = self.knots[N - 1];
            if N > 1 && !(tail.x == old_tail.x && tail.y == old_tail.y) {
                self.record_tail(tail);
                proof {
                    assert(self.spec_visited() =~= vs.insert(
                        (tail.x as int, tail.y as int),
                    ));
                }
            } else {
                proof {
                    if N > 1 {
                        assert(self.spec_knots()[N - 1] == tail_before);
                    }
                }
            }
            proof {
                assert(spec_rope_n_run(ks, vs, d, (movement.count - s) as nat)
                    == spec_rope_n_run(
                    self.spec_knots(),
                    self.spec_visited(),
                    d,
                    (movement.count - s - 1) as nat,
                ));
            }
            s += 1;
        }
    }

    /// Appends the position to the visited list unless it is already there.
    fn record_tail(&mut self, moved_to: Point)
        requires
            old(self).wf(),
        ensures
            final(self).wf(),
            final(self).spec_knots() == old(self).spec_knots(),
            final(self).spec_visited() =~= old(self).spec_visited().insert(
                (moved_to.x as int, moved_to.y as int),
            ),
    {
        let ghost vlist = self.visited@;
        let ghost m_before = vlist.map_values(|p: Point| (p.x as int, p.y as int));
        let ghost q = (moved_to.x as int, moved_to.y as int);
        let mut seen = false;
        let mut j: usize = 0;
        while j < self.visited.len()
            invariant
                j <= self.visited@.len(),
                self.visited@ == vlist,
                self.knots@ == old(self).knots@,
                seen == exists|k: int| 0 <= k < j && #[trigger] self.visited@[k] == moved_to,
            decreases self.visited@.len() - j,
        {
            if self.visited[j] == moved_to {
                seen = true;
            }
            j += 1;
        }
        proof {
            assert forall|k: int| 0 <= k < m_before.len() implies (#[trigger] m_before[k]
                == q) == (vlist[k] == moved_to) by {
                let p = vlist[k];
                if m_before[k] == q && p != moved_to {
                    assert(p.x as int == moved_to.x as int);
                    assert(p.y as int == moved_to.y as int);
                    assert(p.x == moved_to.x && p.y == moved_to.y);
                }
            }
        }
        if !seen {
            self.visited.push(moved_to);
            proof {
                let m_after = self.visited@.map_values(|p: Point| (p.x as int, p.y as int));
                assert(m_after =~= m_before.push(q));
                assert(self.wf());
                assert forall|z: (int, int)| #[trigger]
                    m_after.to_set().contains(z) implies m_before.to_set().insert(q).contains(
                    z,
                ) by {
                    let k = choose|k: int| 0 <= k < m_after.len() && m_after[k] == z;
                    if k < m_before.len() {
                        assert(m_before[k] == z);
                    }
                }
                assert forall|z: (int, int)|
                    m_before.to_set().insert(q).contains(z) implies #[trigger] m_after
                    .to_set().contains(z) by {
                    if z == q {
                        assert(m_after[m_after.len() - 1] == q);
                    } else {
                        let k = choose|k: int| 0 <= k < m_before.len() && m_before[k] == z;
                        assert(m_after[k] == z);
                    }
                }
            }
        } else {
            proof {
                let k = choose|k: int|
                    0 <= k < vlist.len() && #[trigger] vlist[k] == moved_to;
                assert(m_before[k] == q);
                assert(m_before.to_set().contains(q));
                assert(self.spec_visited() =~= m_before.to_set().insert(q));
            }
        }
    }

    /// The number of distinct positions the last knot has visited.
    pub fn count_tail_visited(&self) -> (n: usize)
        requires
            self.wf(),
        ensures
            n == self.spec_visited().len(),
    {
        proof {
            let m = self.visited@.map_values(|p: Point| (p.x as int, p.y as int));
            m.unique_seq_to_set();
        }
        self.visited.len()
    }
}

/// The head's position after one unit step.
pub open spec fn spec_rope_n_step_head(knots: Seq<(int, int)>, d: Direction) -> (int, int) {
    match d {
        Direction::Up => (knots[0].0, knots[0].1 + 1),
        Direction::Down => (knots[0].0, knots[0].1 - 1),
        Direction::Left => (knots[0].0 - 1, knots[0].1),
        Direction::Right => (knots[0].0 + 1, knots[0].1),
    }
}

} // verus!
