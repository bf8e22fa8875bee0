//! The mathematical model of admissible routes through a grid: paths, route
//! existence, shortest-route characterisation, and the general laws the
//! search engine is proved against (heuristic admissibility, determinism,
//! monotonicity, and a bound on shortest-route lengths).

use vstd::prelude::*;
use vstd::set_lib::lemma_len_subset;
use vstd::set_lib::lemma_int_range;
use vstd::set_lib::set_int_range;

use crate::grid::Coordinate;
use crate::grid::HeightMap;

verus! {

/// A nonempty sequence of in-bounds cells in which each consecutive pair is
/// an admissible step.
pub open spec fn is_path(g: HeightMap, p: Seq<Coordinate>) -> bool {
    &&& p.len() >= 1
    &&& g.contains(p[0])
    &&& forall|i: int| 0 <= i < p.len() - 1 ==> g.step_ok(#[trigger] p[i], p[i + 1])
}

/// A path from `s` to `t`.
pub open spec fn connects(g: HeightMap, p: Seq<Coordinate>, s: Coordinate, t: Coordinate) -> bool {
    &&& is_path(g, p)
    &&& p[0] == s
    &&& p[p.len() - 1] == t
}

/// Some admissible route of exactly `n` steps leads from `s` to `t`.
pub open spec fn has_route(g: HeightMap, s: Coordinate, t: Coordinate, n: nat) -> bool {
    exists|p: Seq<Coordinate>| connects(g, p, s, t) && p.len() == n + 1
}

/// `n` is the length of a shortest admissible route from `s` to `t`.
pub open spec fn is_shortest(g: HeightMap, s: Coordinate, t: Coordinate, n: nat) -> bool {
    &&& has_route(g, s, t, n)
    &&& forall|m: nat| m < n ==> !has_route(g, s, t, m)
}

/// Every cell of a path lies within the grid.
pub proof fn lemma_path_in_bounds(g: HeightMap, p: Seq<Coordinate>, i: int)
    requires
        is_path(g, p),
        0 <= i < p.len(),
    ensures
        g.contains(p[i]),
{
    if i > 0 {
        assert(g.step_ok(p[i - 1], p[i]));
    }
}

/// A cell reaches itself by the empty route.
pub proof fn lemma_route_refl(g: HeightMap, s: Coordinate)
    requires
        g.contains(s),
    ensures
        has_route(g, s, s, 0),
{
    let p = seq![s];
    assert(connects(g, p, s, s));
}

/// A route extends by one admissible step.
pub proof fn lemma_route_step(g: HeightMap, s: Coordinate, t: Coordinate, u: Coordinate, n: nat)
    requires
        has_route(g, s, t, n),
        g.step_ok(t, u),
    ensures
        has_route(g, s, u, n + 1),
{
    let p = choose|p: Seq<Coordinate>| connects(g, p, s, t) && p.len() == n + 1;
    let q = p.push(u);
    assert forall|i: int| 0 <= i < q.len() - 1 implies g.step_ok(#[trigger] q[i], q[i + 1]) by {
        if i < p.len() - 1 {
            assert(g.step_ok(p[i], p[i + 1]));
        } else {
            assert(q[i] == t && q[i + 1] == u);
        }
    }
    assert(connects(g, q, s, u));
}

/// A prefix of a path is a route to the cell where it stops.
pub proof fn lemma_route_prefix(g: HeightMap, p: Seq<Coordinate>, i: int)
    requires
        is_path(g, p),
        0 <= i < p.len(),
    ensures
        has_route(g, p[0], p[i], i as nat),
{
    let q = p.take(i + 1);
    assert forall|j: int| 0 <= j < q.len() - 1 implies g.step_ok(#[trigger] q[j], q[j + 1]) by {
        assert(g.step_ok(p[j], p[j + 1]));
    }
    assert(connects(g, q, p[0], p[i]));
}

/// A suffix of a path is a route from where it starts.
pub proof fn lemma_route_suffix(g: HeightMap, p: Seq<Coordinate>, i: int)
    requires
        is_path(g, p),
        0 <= i < p.len(),
    ensures
        has_route(g, p[i], p[p.len() - 1], (p.len() - 1 - i) as nat),
{
    let q = p.skip(i);
    assert forall|j: int| 0 <= j < q.len() - 1 implies g.step_ok(#[trigger] q[j], q[j + 1]) by {
        assert(g.step_ok(p[j + i], p[j + i + 1]));
    }
    if i > 0 {
        assert(g.step_ok(p[i - 1], p[i]));
    }
    assert(connects(g, q, p[i], p[p.len() - 1]));
}

/// The Manhattan distance obeys the triangle inequality.
pub proof fn lemma_manhattan_triangle(a: Coordinate, b: Coordinate, c: Coordinate)
    ensures
        a.manhattan(c) <= a.manhattan(b) + b.manhattan(c),
{
}

/// One admissible step changes the Manhattan distance to any fixed cell by at
/// most one.
pub proof fn lemma_manhattan_adjacent(a: Coordinate, b: Coordinate)
    requires
        HeightMap::adjacent(a, b),
    ensures
        a.manhattan(b) == 1,
{
}

/// A path is at least as long as the Manhattan distance between its ends.
pub proof fn lemma_path_manhattan(g: HeightMap, p: Seq<Coordinate>)
    requires
        is_path(g, p),
    ensures
        p[0].manhattan(p[p.len() - 1]) <= p.len() - 1,
    decreases p.len(),
{
    if p.len() > 1 {
        let q = p.skip(1);
        assert(g.step_ok(p[0], p[1]));
        assert(is_path(g, q)) by {
            assert forall|i: int| 0 <= i < q.len() - 1 implies g.step_ok(
                #[trigger] q[i],
                q[i + 1],
            ) by {
                assert(g.step_ok(p[i + 1], p[i + 2]));
            }
        }
        lemma_path_manhattan(g, q);
        lemma_manhattan_adjacent(p[0], p[1]);
        lemma_manhattan_triangle(p[0], p[1], p[p.len() - 1]);
        assert(q[q.len() - 1] == p[p.len() - 1]);
    }
}

/// Admissibility of the heuristic: a cell's Manhattan distance to the goal
/// never exceeds the length of any admissible route to it, and in particular
/// never exceeds the true shortest route length.
pub proof fn lemma_heuristic_admissible(g: HeightMap, c: Coordinate, goal: Coordinate, n: nat)
    requires
        has_route(g, c, goal, n),
    ensures
        c.manhattan(goal) <= n,
{
    let p = choose|p: Seq<Coordinate>| connects(g, p, c, goal) && p.len() == n + 1;
    lemma_path_manhattan(g, p);
}

/// Among the routes between two reachable cells there is a shortest one.
pub proof fn lemma_least_route(g: HeightMap, s: Coordinate, t: Coordinate, k: nat)
    requires
        has_route(g, s, t, k),
    ensures
        exists|n: nat| n <= k && #[trigger] is_shortest(g, s, t, n),
    decreases k,
{
    if exists|m: nat| m < k && has_route(g, s, t, m) {
        let m = choose|m: nat| m < k && has_route(g, s, t, m);
        lemma_least_route(g, s, t, m);
        let n = choose|n: nat| n <= m && #[trigger] is_shortest(g, s, t, n);
        assert(n <= k && is_shortest(g, s, t, n));
    } else {
        assert(is_shortest(g, s, t, k));
    }
}

/// Two shortest-route lengths between the same cells agree: the search
/// outcome is a function of the grid and the endpoints alone.
pub proof fn lemma_shortest_unique(
    g: HeightMap,
    s: Coordinate,
    t: Coordinate,
    n1: nat,
    n2: nat,
)
    requires
        is_shortest(g, s, t, n1),
        is_shortest(g, s, t, n2),
    ensures
        n1 == n2,
{
    if n1 < n2 {
        assert(!has_route(g, s, t, n1));
    }
    if n2 < n1 {
        assert(!has_route(g, s, t, n2));
    }
}

/// A cell trivially reaches itself by the shortest route of length zero.
pub proof fn lemma_shortest_refl(g: HeightMap, s: Coordinate)
    requires
        g.contains(s),
    ensures
        is_shortest(g, s, s, 0),
{
    lemma_route_refl(g, s);
}

/// Paths transfer to a grid that admits at least the same steps.
pub proof fn lemma_route_transfer(
    g1: HeightMap,
    g2: HeightMap,
    s: Coordinate,
    t: Coordinate,
    n: nat,
)
    requires
        g1.spec_width() == g2.spec_width(),
        g1.spec_height() == g2.spec_height(),
        forall|a: Coordinate, b: Coordinate| #[trigger] g1.step_ok(a, b) ==> g2.step_ok(a, b),
        has_route(g1, s, t, n),
    ensures
        has_route(g2, s, t, n),
{
    let p = choose|p: Seq<Coordinate>| connects(g1, p, s, t) && p.len() == n + 1;
    assert forall|i: int| 0 <= i < p.len() - 1 implies g2.step_ok(#[trigger] p[i], p[i + 1]) by {
        assert(g1.step_ok(p[i], p[i + 1]));
    }
    assert(connects(g2, p, s, t));
}

/// Monotonicity: widening the set of admissible steps (for example by
/// loosening the elevation constraint) never increases the shortest route
/// length.
pub proof fn lemma_shortest_monotone(
    g1: HeightMap,
    g2: HeightMap,
    s: Coordinate,
    t: Coordinate,
    n1: nat,
    n2: nat,
)
    requires
        g1.spec_width() == g2.spec_width(),
        g1.spec_height() == g2.spec_height(),
        forall|a: Coordinate, b: Coordinate| #[trigger] g1.step_ok(a, b) ==> g2.step_ok(a, b),
        is_shortest(g1, s, t, n1),
        is_shortest(g2, s, t, n2),
    ensures
        n2 <= n1,
{
    lemma_route_transfer(g1, g2, s, t, n1);
    if n1 < n2 {
        assert(!has_route(g2, s, t, n1));
    }
}

/// A goal ringed by cells it towers over is unreachable: when every
/// in-bounds neighbour of the goal sits at least two units below it, no
/// admissible step can enter the goal, so no route from any other cell
/// reaches it. (From the goal itself the empty route still exists.)
pub proof fn lemma_walled_goal(g: HeightMap, start: Coordinate, goal: Coordinate)
    requires
        g.contains(goal),
        start != goal,
        forall|n: Coordinate|
            g.contains(n) && #[trigger] HeightMap::adjacent(goal, n) ==> g.at(goal) >= g.at(n)
                + 2,
    ensures
        forall|k: nat| !has_route(g, start, goal, k),
{
    assert forall|k: nat| !has_route(g, start, goal, k) by {
        if has_route(g, start, goal, k) {
            let p = choose|p: Seq<Coordinate>| connects(g, p, start, goal) && p.len() == k + 1;
            assert(p.len() >= 2);
            let prev = p[p.len() - 2];
            assert(g.step_ok(prev, goal));
            assert(HeightMap::adjacent(goal, prev));
            assert(g.at(goal) >= g.at(prev) + 2);
            assert(false);
        }
    }
}

/// Distinct in-bounds cells have distinct row-major indices.
pub proof fn lemma_grid_index_injective(g: HeightMap, a: Coordinate, b: Coordinate)
    requires
        g.wf(),
        g.contains(a),
        g.contains(b),
        a != b,
    ensures
        g.index_of(a) != g.index_of(b),
{
    let w = g.spec_width() as int;
    if a.row != b.row {
        let (lo, hi) = if a.row < b.row {
            (a, b)
        } else {
            (b, a)
        };
        assert((lo.row + 1) * w <= hi.row * w) by (nonlinear_arith)
            requires
                lo.row + 1 <= hi.row,
                0 < w,
        ;
        assert(lo.row * w + w == (lo.row + 1) * w) by (nonlinear_arith);
        assert(lo.row * w + lo.col < hi.row * w + hi.col);
    }
}

/// The row-major index of an in-bounds cell lies within the buffer.
proof fn lemma_index_range(g: HeightMap, a: Coordinate)
    requires
        g.wf(),
        g.contains(a),
    ensures
        0 <= g.index_of(a) < g.spec_width() * g.spec_height(),
{
    let w = g.spec_width() as int;
    let h = g.spec_height() as int;
    assert(a.row * w + a.col < h * w) by (nonlinear_arith)
        requires
            0 <= (a.row as int) && (a.row as int) < h,
            0 <= (a.col as int) && (a.col as int) < w,
            0 < w,
    ;
    assert(h * w == w * h) by (nonlinear_arith);
}

/// A route longer than the cell count revisits a cell and can be cut shorter.
proof fn lemma_route_shorten(g: HeightMap, s: Coordinate, t: Coordinate, n: nat)
    requires
        g.wf(),
        has_route(g, s, t, n),
        n + 1 > g.spec_width() * g.spec_height(),
    ensures
        exists|m: nat| m < n && #[trigger] has_route(g, s, t, m),
{
    let p = choose|p: Seq<Coordinate>| connects(g, p, s, t) && p.len() == n + 1;
    let area = g.spec_width() * g.spec_height();
    // The path visits more cells than exist, so two positions coincide.
    assert(!p.no_duplicates()) by {
        if p.no_duplicates() {
            let q = p.map_values(|c: Coordinate| g.index_of(c));
            assert(q.no_duplicates()) by {
                assert forall|i: int, j: int|
                    0 <= i < q.len() && 0 <= j < q.len() && i != j implies q[i] != q[j] by {
                    lemma_path_in_bounds(g, p, i);
                    lemma_path_in_bounds(g, p, j);
                    lemma_grid_index_injective(g, p[i], p[j]);
                }
            }
            q.unique_seq_to_set();
            assert(q.to_set().subset_of(set_int_range(0, area as int))) by {
                assert forall|x: int| q.to_set().contains(x) implies set_int_range(
                    0,
                    area as int,
                ).contains(x) by {
                    let i = choose|i: int| 0 <= i < q.len() && q[i] == x;
                    lemma_path_in_bounds(g, p, i);
                    lemma_index_range(g, p[i]);
                }
            }
            lemma_int_range(0, area as int);
            lemma_len_subset(q.to_set(), set_int_range(0, area as int));
        }
    }
    let (i, j) = choose|i: int, j: int|
        0 <= i < j < p.len() && p[i] == p[j];
    let q = p.take(i + 1) + p.skip(j + 1);
    assert(q.len() == p.len() - (j - i));
    assert forall|k: int| 0 <= k < q.len() - 1 implies g.step_ok(#[trigger] q[k], q[k + 1]) by {
        if k < i {
            assert(q[k] == p[k] && q[k + 1] == p[k + 1]);
            assert(g.step_ok(p[k], p[k + 1]));
        } else if k == i {
            assert(q[k] == p[i]);
            assert(q[k + 1] == p[j + 1]);
            assert(g.step_ok(p[j], p[j + 1]));
        } else {
            assert(q[k] == p[k + (j - i)] && q[k + 1] == p[k + 1 + (j - i)]);
            assert(g.step_ok(p[k + (j - i)], p[k + (j - i) + 1]));
        }
    }
    assert(q[0] == p[0]);
    assert(q[q.len() - 1] == p[p.len() - 1]);
    assert(connects(g, q, s, t));
    let m = (q.len() - 1) as nat;
    assert(has_route(g, s, t, m));
}

/// A shortest route visits each cell at most once, so its length is less
/// than the number of cells in the grid.
pub proof fn lemma_shortest_bound(g: HeightMap, s: Coordinate, t: Coordinate, n: nat)
    requires
        g.wf(),
        is_shortest(g, s, t, n),
    ensures
        n < g.spec_width() * g.spec_height(),
{
    if n + 1 > g.spec_width() * g.spec_height() {
        lemma_route_shorten(g, s, t, n);
        let m = choose|m: nat| m < n && #[trigger] has_route(g, s, t, m);
        assert(!has_route(g, s, t, m));
    }
}

} // verus!
