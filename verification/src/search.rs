//! The search driver: best-first search (A*) over the grid with the
//! admissible Manhattan heuristic, the path reconstructor that walks
//! predecessor links, and the multi-source driver.

use vstd::prelude::*;
use vstd::relations::injective_on;
use vstd::set_lib::lemma_int_range;
use vstd::set_lib::lemma_len_subset;
use vstd::set_lib::lemma_map_size;
use vstd::set_lib::set_int_range;

use crate::frontier::entry_le;
use crate::frontier::Frontier;
use crate::frontier::FrontierEntry;
use crate::grid::Coordinate;
use crate::grid::HeightMap;
use crate::route::has_route;
use crate::route::is_shortest;
use crate::route::lemma_heuristic_admissible;
use crate::route::lemma_least_route;
use crate::route::lemma_manhattan_triangle;
use crate::route::lemma_path_in_bounds;
use crate::route::lemma_route_prefix;
use crate::route::lemma_route_refl;
use crate::route::lemma_route_step;
use crate::route::lemma_route_suffix;
use crate::route::lemma_shortest_bound;
use crate::route::connects;
use crate::route::is_path;

verus! {

/// The value held by a best-known-cost entry; the entry must be present.
spec fn val_of(o: Option<usize>) -> nat {
    match o {
        Some(v) => v as nat,
        None => 0,
    }
}

/// The best known cost recorded for a cell, if any.
spec fn cost_at(g: HeightMap, cost: Seq<Option<usize>>, c: Coordinate) -> Option<
    usize,
> {
    cost[g.index_of(c)]
}

/// The recorded predecessor of a cell, if any.
spec fn parent_at(
    g: HeightMap,
    parent: Seq<Option<Coordinate>>,
    c: Coordinate,
) -> Option<Coordinate> {
    parent[g.index_of(c)]
}

/// Every recorded cost is achieved by some admissible route from the start.
spec fn inv_sound(g: HeightMap, start: Coordinate, cost: Seq<Option<usize>>) -> bool {
    forall|c: Coordinate|
        g.contains(c) && (#[trigger] cost_at(g, cost, c)) is Some ==> has_route(
            g,
            start,
            c,
            val_of(cost_at(g, cost, c)),
        )
}

/// Every recorded cost is at most the cell count.
spec fn inv_bounded(g: HeightMap, cost: Seq<Option<usize>>) -> bool {
    forall|c: Coordinate|
        g.contains(c) && (#[trigger] cost_at(g, cost, c)) is Some ==> val_of(cost_at(g, cost, c))
            <= g.spec_width() * g.spec_height()
}

/// The start cell is recorded at cost zero.
spec fn inv_start(g: HeightMap, start: Coordinate, cost: Seq<Option<usize>>) -> bool {
    &&& g.contains(start)
    &&& cost_at(g, cost, start) == Some(0usize)
}

/// A settled cell's recorded cost is exactly its shortest-route length.
spec fn inv_settled(
    g: HeightMap,
    start: Coordinate,
    settled: Set<Coordinate>,
    cost: Seq<Option<usize>>,
) -> bool {
    forall|c: Coordinate|
        #[trigger] settled.contains(c) ==> g.contains(c) && cost_at(g, cost, c) is Some
            && is_shortest(g, start, c, val_of(cost_at(g, cost, c)))
}

/// Every admissible step out of a settled cell has been relaxed.
spec fn inv_relaxed(
    g: HeightMap,
    settled: Set<Coordinate>,
    cost: Seq<Option<usize>>,
) -> bool {
    forall|c: Coordinate, d: Coordinate|
        #[trigger] settled.contains(c) && #[trigger] g.step_ok(c, d) ==> cost_at(g, cost, d)
            is Some && val_of(cost_at(g, cost, d)) <= val_of(cost_at(g, cost, c)) + 1
}

/// Every frontier entry belongs to a discovered, unsettled cell and carries
/// its current estimate (cost so far plus heuristic); no cell is queued
/// twice.
spec fn inv_frontier(
    g: HeightMap,
    goal: Coordinate,
    settled: Set<Coordinate>,
    cost: Seq<Option<usize>>,
    fr: Seq<FrontierEntry>,
) -> bool {
    &&& forall|k: int|
        0 <= k < fr.len() ==> {
            let c = (#[trigger] fr[k]).cell;
            &&& g.contains(c)
            &&& !settled.contains(c)
            &&& cost_at(g, cost, c) is Some
            &&& fr[k].priority == val_of(cost_at(g, cost, c)) + c.manhattan(goal)
        }
    &&& forall|k1: int, k2: int|
        0 <= k1 < k2 < fr.len() ==> (#[trigger] fr[k1]).cell != (#[trigger] fr[k2]).cell
}

/// Every discovered, unsettled cell is queued in the frontier.
spec fn inv_frontier_complete(
    g: HeightMap,
    settled: Set<Coordinate>,
    cost: Seq<Option<usize>>,
    fr: Seq<FrontierEntry>,
) -> bool {
    forall|c: Coordinate|
        g.contains(c) && (#[trigger] cost_at(g, cost, c)) is Some && !settled.contains(c)
            ==> exists|k: int| 0 <= k < fr.len() && (#[trigger] fr[k]).cell == c
}

/// Predecessor links are consistent with the cost map: a recorded
/// predecessor is a settled cell one admissible step and one cost unit
/// back, and only the start is discovered without a predecessor.
spec fn inv_parent(
    g: HeightMap,
    start: Coordinate,
    settled: Set<Coordinate>,
    cost: Seq<Option<usize>>,
    parent: Seq<Option<Coordinate>>,
) -> bool {
    forall|d: Coordinate|
        g.contains(d) ==> match #[trigger] parent_at(g, parent, d) {
            Some(c) => {
                &&& g.contains(c)
                &&& settled.contains(c)
                &&& g.step_ok(c, d)
                &&& cost_at(g, cost, c) is Some
                &&& cost_at(g, cost, d) is Some
                &&& val_of(cost_at(g, cost, d)) == val_of(cost_at(g, cost, c)) + 1
            },
            None => cost_at(g, cost, d) is Some ==> d == start,
        }
}

/// On any path from the start to an unsettled cell there is an unsettled
/// cell already discovered at a cost no greater than its position on the
/// path.
proof fn lemma_frontier_covers(
    g: HeightMap,
    start: Coordinate,
    settled: Set<Coordinate>,
    cost: Seq<Option<usize>>,
    p: Seq<Coordinate>,
)
    requires
        is_path(g, p),
        p[0] == start,
        !settled.contains(p[p.len() - 1]),
        inv_start(g, start, cost),
        inv_sound(g, start, cost),
        inv_settled(g, start, settled, cost),
        inv_relaxed(g, settled, cost),
    ensures
        exists|i: int|
            0 <= i < p.len() && !settled.contains(#[trigger] p[i]) && cost_at(g, cost, p[i])
                is Some && val_of(cost_at(g, cost, p[i])) <= i,
    decreases p.len(),
{
    let last = p.len() - 1;
    if p.len() == 1 {
        assert(p[0] == start);
        assert(!settled.contains(p[0]) && cost_at(g, cost, p[0]) is Some && val_of(
            cost_at(g, cost, p[0]),
        ) <= 0);
    } else {
        let t = p[last];
        let t_prev = p[last - 1];
        assert(g.step_ok(t_prev, t));
        if settled.contains(t_prev) {
            // The predecessor is settled, so the final cell is already
            // relaxed to within one step of an exact cost.
            lemma_route_prefix(g, p, last - 1);
            assert(has_route(g, start, t_prev, (last - 1) as nat));
            assert(val_of(cost_at(g, cost, t_prev)) <= last - 1) by {
                if val_of(cost_at(g, cost, t_prev)) > last - 1 {
                    assert(!has_route(g, start, t_prev, (last - 1) as nat));
                }
            }
            assert(!settled.contains(p[last]) && cost_at(g, cost, p[last]) is Some && val_of(
                cost_at(g, cost, p[last]),
            ) <= last);
        } else {
            let q = p.take(last);
            assert(is_path(g, q)) by {
                assert forall|i: int| 0 <= i < q.len() - 1 implies g.step_ok(
                    #[trigger] q[i],
                    q[i + 1],
                ) by {
                    assert(g.step_ok(p[i], p[i + 1]));
                }
            }
            assert(q[q.len() - 1] == t_prev);
            lemma_frontier_covers(g, start, settled, cost, q);
            let i = choose|i: int|
                0 <= i < q.len() && !settled.contains(#[trigger] q[i]) && cost_at(g, cost, q[i])
                    is Some && val_of(cost_at(g, cost, q[i])) <= i;
            assert(p[i] == q[i]);
            assert(!settled.contains(p[i]) && cost_at(g, cost, p[i]) is Some && val_of(
                cost_at(g, cost, p[i]),
            ) <= i);
        }
    }
}

/// The cell at the head of the frontier is popped with its exact
/// shortest-route cost: the heart of best-first search with an admissible,
/// consistent heuristic.
proof fn lemma_pop_exact(
    g: HeightMap,
    start: Coordinate,
    goal: Coordinate,
    settled: Set<Coordinate>,
    cost: Seq<Option<usize>>,
    fr: Seq<FrontierEntry>,
)
    requires
        fr.len() > 0,
        inv_start(g, start, cost),
        inv_sound(g, start, cost),
        inv_settled(g, start, settled, cost),
        inv_relaxed(g, settled, cost),
        inv_frontier(g, goal, settled, cost, fr),
        inv_frontier_complete(g, settled, cost, fr),
        forall|k: int| 0 <= k < fr.len() ==> entry_le(fr[0], #[trigger] fr[k]),
    ensures
        is_shortest(g, start, fr[0].cell, val_of(cost_at(g, cost, fr[0].cell))),
{
    let c = fr[0].cell;
    let v = val_of(cost_at(g, cost, c));
    assert(has_route(g, start, c, v));
    lemma_least_route(g, start, c, v);
    let n = choose|n: nat| n <= v && #[trigger] is_shortest(g, start, c, n);
    let p = choose|p: Seq<Coordinate>| connects(g, p, start, c) && p.len() == n + 1;
    lemma_frontier_covers(g, start, settled, cost, p);
    let i = choose|i: int|
        0 <= i < p.len() && !settled.contains(#[trigger] p[i]) && cost_at(g, cost, p[i]) is Some
            && val_of(cost_at(g, cost, p[i])) <= i;
    let u = p[i];
    let k = choose|k: int| 0 <= k < fr.len() && (#[trigger] fr[k]).cell == u;
    assert(fr[k].priority == val_of(cost_at(g, cost, u)) + u.manhattan(goal));
    assert(fr[0].priority <= fr[k].priority);
    // The heuristic is consistent: the suffix of the shortest path bounds
    // how far `u`'s estimate can sit below `c`'s.
    lemma_route_suffix(g, p, i);
    assert(has_route(g, u, c, (p.len() - 1 - i) as nat));
    lemma_heuristic_admissible(g, u, c, (p.len() - 1 - i) as nat);
    lemma_manhattan_triangle(u, c, goal);
    assert(fr[0].priority == v + c.manhattan(goal));
    assert(val_of(cost_at(g, cost, u)) + u.manhattan(goal) <= i + (n - i) + c.manhattan(goal));
    assert(v <= n);
    assert(v == n);
}

/// When the frontier empties with the goal unsettled, no admissible route
/// reaches the goal at all.
proof fn lemma_exhausted(
    g: HeightMap,
    start: Coordinate,
    goal: Coordinate,
    settled: Set<Coordinate>,
    cost: Seq<Option<usize>>,
    fr: Seq<FrontierEntry>,
)
    requires
        fr.len() == 0,
        !settled.contains(goal),
        inv_start(g, start, cost),
        inv_sound(g, start, cost),
        inv_settled(g, start, settled, cost),
        inv_relaxed(g, settled, cost),
        inv_frontier_complete(g, settled, cost, fr),
    ensures
        forall|n: nat| !has_route(g, start, goal, n),
{
    assert forall|n: nat| !has_route(g, start, goal, n) by {
        if has_route(g, start, goal, n) {
            let p = choose|p: Seq<Coordinate>| connects(g, p, start, goal) && p.len() == n + 1;
            lemma_frontier_covers(g, start, settled, cost, p);
            let i = choose|i: int|
                0 <= i < p.len() && !settled.contains(#[trigger] p[i]) && cost_at(g, cost, p[i])
                    is Some && val_of(cost_at(g, cost, p[i])) <= i;
            lemma_path_in_bounds(g, p, i);
            assert(false);
        }
    }
}

/// A set of in-bounds cells has no more elements than the grid has cells.
proof fn lemma_settled_bound(g: HeightMap, s: Set<Coordinate>)
    requires
        g.wf(),
        s.finite(),
        forall|c: Coordinate| #[trigger] s.contains(c) ==> g.contains(c),
    ensures
        s.len() <= g.spec_width() * g.spec_height(),
{
    let area = (g.spec_width() * g.spec_height()) as int;
    let f = |c: Coordinate| g.index_of(c);
    assert(injective_on(f, s)) by {
        assert forall|c1: Coordinate, c2: Coordinate|
            s.contains(c1) && s.contains(c2) && #[trigger] f(c1) == #[trigger] f(c2) implies c1
            == c2 by {
            if c1 != c2 {
                crate::route::lemma_grid_index_injective(g, c1, c2);
            }
        }
    }
    let y = s.map(f);
    lemma_map_size(s, y, f);
    assert(y.subset_of(set_int_range(0, area))) by {
        assert forall|x: int| y.contains(x) implies set_int_range(0, area).contains(x) by {
            let c = choose|c: Coordinate| s.contains(c) && f(c) == x;
            g.lemma_index_in_range(c);
        }
    }
    lemma_int_range(0, area);
    lemma_len_subset(y, set_int_range(0, area));
}

/// Walks recorded predecessor links from the goal back to the start,
/// counting hops; the count equals the goal's recorded cost.
fn backtrack(
    g: &HeightMap,
    parent: &Vec<Option<Coordinate>>,
    Ghost(cost): Ghost<Seq<Option<usize>>>,
    Ghost(settled): Ghost<Set<Coordinate>>,
    start: Coordinate,
    goal: Coordinate,
) -> (steps: usize)
    requires
        g.wf(),
        g.contains(start),
        g.contains(goal),
        parent@.len() == g.cells().len(),
        inv_start(*g, start, cost),
        inv_parent(*g, start, settled, cost, parent@),
        cost_at(*g, cost, goal) is Some,
    ensures
        steps == val_of(cost_at(*g, cost, goal)),
{
    let mut backtrack = goal;
    let mut count: usize = 0;
    let mut reached_start = false;
    while !reached_start
        invariant
            g.wf(),
            g.contains(start),
            g.contains(goal),
            g.contains(backtrack),
            parent@.len() == g.cells().len(),
            inv_start(*g, start, cost),
            inv_parent(*g, start, settled, cost, parent@),
            cost_at(*g, cost, goal) is Some,
            cost_at(*g, cost, backtrack) is Some,
            count + val_of(cost_at(*g, cost, backtrack)) == val_of(cost_at(*g, cost, goal)),
            reached_start ==> backtrack == start && count == val_of(cost_at(*g, cost, goal)),
        decreases (if reached_start {
            0int
        } else {
            1int
        }), val_of(cost_at(*g, cost, backtrack)),
    {
        let idx = g.cell_index(&backtrack);
        match parent[idx] {
            Some(p) => {
                proof {
                    assert(parent_at(*g, parent@, backtrack) == Some(p));
                    assert(val_of(cost_at(*g, cost, backtrack)) == val_of(cost_at(*g, cost, p))
                        + 1);
                }
                count += 1;
                backtrack = p;
            },
            None => {
                proof {
                    assert(parent_at(*g, parent@, backtrack) is None);
                    assert(backtrack == start);
                    assert(val_of(cost_at(*g, cost, start)) == 0);
                }
                reached_start = true;
            },
        }
    }
    count
}

/// Re-establishes every search invariant after one relaxation has updated
/// the neighbour's predecessor, cost, and frontier entry.
#[verifier::rlimit(100)]
proof fn lemma_relax_restore(
    g: HeightMap,
    start: Coordinate,
    goal: Coordinate,
    settled: Set<Coordinate>,
    current: Coordinate,
    current_score: usize,
    neighbour: Coordinate,
    tentative_cost: usize,
    estimate: usize,
    cost_pre: Seq<Option<usize>>,
    cost_post: Seq<Option<usize>>,
    parent_pre: Seq<Option<Coordinate>>,
    parent_post: Seq<Option<Coordinate>>,
    fr_mid: Seq<FrontierEntry>,
    fr_post: Seq<FrontierEntry>,
    k2: int,
)
    requires
        g.wf(),
        g.contains(start),
        g.step_ok(current, neighbour),
        settled.contains(current),
        !settled.contains(neighbour),
        is_shortest(g, start, current, current_score as nat),
        cost_at(g, cost_pre, current) == Some(current_score),
        current_score < g.spec_width() * g.spec_height(),
        tentative_cost == current_score + 1,
        estimate == tentative_cost + neighbour.manhattan(goal),
        has_route(g, start, neighbour, tentative_cost as nat),
        cost_at(g, cost_pre, neighbour) is Some ==> tentative_cost < val_of(
            cost_at(g, cost_pre, neighbour),
        ),
        forall|x: Coordinate|
            g.contains(x) && x != neighbour ==> #[trigger] cost_at(g, cost_post, x) == cost_at(
                g,
                cost_pre,
                x,
            ) && parent_at(g, parent_post, x) == parent_at(g, parent_pre, x),
        cost_at(g, cost_post, neighbour) == Some(tentative_cost),
        parent_at(g, parent_post, neighbour) == Some(current),
        inv_start(g, start, cost_pre),
        inv_sound(g, start, cost_pre),
        inv_bounded(g, cost_pre),
        inv_settled(g, start, settled, cost_pre),
        inv_parent(g, start, settled, cost_pre, parent_pre),
        forall|k: int| 0 <= k < fr_mid.len() ==> (#[trigger] fr_mid[k]).cell != neighbour,
        inv_frontier(g, goal, settled, cost_pre, fr_mid),
        forall|c: Coordinate|
            g.contains(c) && (#[trigger] cost_at(g, cost_pre, c)) is Some && !settled.contains(
                c,
            ) && c != neighbour ==> exists|k: int| 0 <= k < fr_mid.len() && (#[trigger] fr_mid[
                k
            ]).cell == c,
        0 <= k2 <= fr_mid.len(),
        fr_post == fr_mid.insert(k2, FrontierEntry { priority: estimate, cell: neighbour }),
    ensures
        inv_start(g, start, cost_post),
        inv_sound(g, start, cost_post),
        inv_bounded(g, cost_post),
        inv_settled(g, start, settled, cost_post),
        inv_frontier(g, goal, settled, cost_post, fr_post),
        inv_frontier_complete(g, settled, cost_post, fr_post),
        inv_parent(g, start, settled, cost_post, parent_post),
        forall|x: Coordinate|
            g.contains(x) && (#[trigger] cost_at(g, cost_pre, x)) is Some ==> cost_at(
                g,
                cost_post,
                x,
            ) is Some && val_of(cost_at(g, cost_post, x)) <= val_of(cost_at(g, cost_pre, x)),
        forall|x: Coordinate| #[trigger]
            settled.contains(x) ==> cost_at(g, cost_post, x) == cost_at(g, cost_pre, x),
{
    assert(neighbour != start) by {
        if neighbour == start {
            assert(cost_at(g, cost_pre, neighbour) == Some(0usize));
        }
    }
    assert(neighbour != current);
            // Frontier entries: the new one is exact, the others carry over.
            assert forall|k: int|
                0 <= k < fr_post.len() implies {
                let c = (#[trigger] fr_post[k]).cell;
                &&& g.contains(c)
                &&& !settled.contains(c)
                &&& cost_at(g, cost_post, c) is Some
                &&& fr_post[k].priority == val_of(cost_at(g, cost_post, c))
                    + c.manhattan(goal)
            } by {
                if k < k2 {
                    assert(fr_post[k] == fr_mid[k]);
                    assert(fr_mid[k].cell != neighbour);
                } else if k > k2 {
                    assert(fr_post[k] == fr_mid[k - 1]);
                    assert(fr_mid[k - 1].cell != neighbour);
                } else {
                    assert(fr_post[k2].cell == neighbour);
                }
            }
            assert forall|ka: int, kb: int|
                0 <= ka < kb < fr_post.len() implies (#[trigger] fr_post[
                ka
            ]).cell != (#[trigger] fr_post[kb]).cell by {
                if ka == k2 {
                    assert(fr_post[kb] == fr_mid[kb - 1]);
                    assert(fr_mid[kb - 1].cell != neighbour);
                } else if kb == k2 {
                    assert(fr_post[ka] == fr_mid[ka]);
                    assert(fr_mid[ka].cell != neighbour);
                } else {
                    let ma = if ka < k2 {
                        ka
                    } else {
                        ka - 1
                    };
                    let mb = if kb < k2 {
                        kb
                    } else {
                        kb - 1
                    };
                    assert(fr_post[ka] == fr_mid[ma]);
                    assert(fr_post[kb] == fr_mid[mb]);
                }
            }
            // Completeness: every discovered unsettled cell is still queued.
            assert forall|c: Coordinate|
                g.contains(c) && (#[trigger] cost_at(g, cost_post, c)) is Some
                    && !settled.contains(c) implies exists|k: int|
                0 <= k < fr_post.len() && (#[trigger] fr_post[k]).cell
                    == c by {
                if c == neighbour {
                    assert(fr_post[k2].cell == neighbour);
                } else {
                    assert(cost_at(g, cost_pre, c) is Some);
                    let k1 = choose|k1: int| 0 <= k1 < fr_mid.len() && fr_mid[k1].cell == c;
                    if k1 < k2 {
                        assert(fr_post[k1] == fr_mid[k1]);
                    } else {
                        assert(fr_post[k1 + 1] == fr_mid[k1]);
                    }
                }
            }
            // Soundness and boundedness survive: the only change records an
            // achieved route through the expanded cell.
            assert forall|c: Coordinate|
                g.contains(c) && (#[trigger] cost_at(g, cost_post, c)) is Some implies has_route(
                g,
                start,
                c,
                val_of(cost_at(g, cost_post, c)),
            ) && val_of(cost_at(g, cost_post, c)) <= g.spec_width() * g.spec_height() by {
                if c != neighbour {
                    assert(cost_at(g, cost_post, c) == cost_at(g, cost_pre, c));
                }
            }
            assert forall|c: Coordinate| #[trigger]
                settled.contains(c) implies g.contains(c) && cost_at(g, cost_post, c) is Some
                && is_shortest(g, start, c, val_of(cost_at(g, cost_post, c))) by {
                assert(c != neighbour);
            }
            assert forall|d: Coordinate|
                g.contains(d) implies match #[trigger] parent_at(g, parent_post, d) {
                Some(c) => {
                    &&& g.contains(c)
                    &&& settled.contains(c)
                    &&& g.step_ok(c, d)
                    &&& cost_at(g, cost_post, c) is Some
                    &&& cost_at(g, cost_post, d) is Some
                    &&& val_of(cost_at(g, cost_post, d)) == val_of(cost_at(g, cost_post, c)) + 1
                },
                None => cost_at(g, cost_post, d) is Some ==> d == start,
            } by {
                if d == neighbour {
                    assert(parent_at(g, parent_post, d) == Some(current));
                    assert(cost_at(g, cost_post, current) == Some(current_score));
                } else {
                    match parent_at(g, parent_pre, d) {
                        Some(c) => {
                            assert(settled.contains(c));
                            assert(c != neighbour);
                        },
                        None => {},
                    }
                }
            }
}

/// One relaxation of an admissible neighbour of the cell being expanded:
/// when the route through the expanded cell improves on the neighbour's
/// recorded cost, the stale frontier entry is removed, the predecessor and
/// cost are updated, and a fresh entry is queued.
#[verifier::rlimit(100)]
fn relax_step(
    g: &HeightMap,
    frontier: &mut Frontier,
    cost: &mut Vec<Option<usize>>,
    parent: &mut Vec<Option<Coordinate>>,
    Ghost(settled): Ghost<Set<Coordinate>>,
    start: Coordinate,
    goal: Coordinate,
    current: Coordinate,
    current_score: usize,
    neighbour: Coordinate,
)
    requires
        g.wf(),
        g.contains(start),
        g.contains(goal),
        g.contains(current),
        g.step_ok(current, neighbour),
        old(cost)@.len() == g.spec_width() * g.spec_height(),
        old(parent)@.len() == g.spec_width() * g.spec_height(),
        old(frontier).wf(),
        settled.contains(current),
        is_shortest(*g, start, current, current_score as nat),
        cost_at(*g, old(cost)@, current) == Some(current_score),
        current_score < g.spec_width() * g.spec_height(),
        inv_start(*g, start, old(cost)@),
        inv_sound(*g, start, old(cost)@),
        inv_bounded(*g, old(cost)@),
        inv_settled(*g, start, settled, old(cost)@),
        inv_frontier(*g, goal, settled, old(cost)@, old(frontier).entries()),
        inv_frontier_complete(*g, settled, old(cost)@, old(frontier).entries()),
        inv_parent(*g, start, settled, old(cost)@, old(parent)@),
    ensures
        final(cost)@.len() == old(cost)@.len(),
        final(parent)@.len() == old(parent)@.len(),
        final(frontier).wf(),
        inv_start(*g, start, final(cost)@),
        inv_sound(*g, start, final(cost)@),
        inv_bounded(*g, final(cost)@),
        inv_settled(*g, start, settled, final(cost)@),
        inv_frontier(*g, goal, settled, final(cost)@, final(frontier).entries()),
        inv_frontier_complete(*g, settled, final(cost)@, final(frontier).entries()),
        inv_parent(*g, start, settled, final(cost)@, final(parent)@),
        // Costs only ever improve, and settled cells keep their exact cost.
        forall|x: Coordinate|
            g.contains(x) && (#[trigger] cost_at(*g, old(cost)@, x)) is Some ==> cost_at(
                *g,
                final(cost)@,
                x,
            ) is Some && val_of(cost_at(*g, final(cost)@, x)) <= val_of(
                cost_at(*g, old(cost)@, x),
            ),
        forall|x: Coordinate| #[trigger]
            settled.contains(x) ==> cost_at(*g, final(cost)@, x) == cost_at(*g, old(cost)@, x),
        // The neighbour ends up relaxed.
        cost_at(*g, final(cost)@, neighbour) is Some,
        val_of(cost_at(*g, final(cost)@, neighbour)) <= current_score + 1,
{
    let w = g.width();
    let h = g.height();
    proof {
        assert(w * h - w - h + 1 >= 0) by (nonlinear_arith)
            requires
                1 <= w,
                1 <= h,
        ;
    }
    let area = w * h;
    let nidx = g.cell_index(&neighbour);
    proof {
        assert(neighbour.manhattan(goal) <= (h - 1) + (w - 1));
        assert(neighbour.manhattan(goal) + 1 <= area);
    }
    let man_n = neighbour.distance_to(&goal);
    let tentative_cost = current_score + 1;
    let neighbour_cost = match cost[nidx] {
        Some(v) => v,
        None => usize::MAX,
    };
    if tentative_cost < neighbour_cost {
        proof {
            lemma_route_step(*g, start, current, neighbour, current_score as nat);
            // A settled cell already holds its exact cost, which this
            // improvement would beat: so the neighbour is unsettled.
            if settled.contains(neighbour) {
                assert(!has_route(*g, start, neighbour, (current_score + 1) as nat));
            }
            assert(!settled.contains(neighbour));
            assert(neighbour != current);
        }
        let had = cost[nidx].is_some();
        let old_estimate = neighbour_cost.saturating_add(man_n);
        let ghost fr_pre = frontier.entries();
        let removed = frontier.remove(old_estimate, neighbour);
        proof {
            let e = FrontierEntry { priority: old_estimate, cell: neighbour };
            if had {
                assert(cost_at(*g, cost@, neighbour) is Some);
                assert(neighbour_cost == val_of(cost_at(*g, cost@, neighbour)));
                assert(neighbour_cost <= g.spec_width() * g.spec_height());
                assert(old_estimate == neighbour_cost + man_n);
                let k0 = choose|k0: int| 0 <= k0 < fr_pre.len() && fr_pre[k0].cell == neighbour;
                assert(fr_pre[k0] == e);
                assert(fr_pre.contains(e));
                assert(removed is Some);
            } else {
                if removed is Some {
                    let k0 = removed.unwrap() as int;
                    assert(fr_pre[k0].cell == neighbour);
                    assert(cost_at(*g, cost@, neighbour) is Some);
                    assert(false);
                }
            }
            // After the removal no entry for the neighbour remains.
            assert forall|k: int|
                0 <= k < frontier.entries().len() implies (#[trigger] frontier.entries()[
                k
            ]).cell != neighbour by {
                if removed is Some {
                    let k0 = removed.unwrap() as int;
                    if k < k0 {
                        assert(frontier.entries()[k] == fr_pre[k]);
                    } else {
                        assert(frontier.entries()[k] == fr_pre[k + 1]);
                    }
                    assert(fr_pre[k0].cell == neighbour);
                } else {
                    assert(frontier.entries()[k] == fr_pre[k]);
                    assert(cost_at(*g, cost@, fr_pre[k].cell) is Some);
                }
            }
            // Entries for other cells survive the removal.
            assert forall|c: Coordinate|
                g.contains(c) && (#[trigger] cost_at(*g, cost@, c)) is Some
                    && !settled.contains(c) && c != neighbour implies exists|k: int|
                0 <= k < frontier.entries().len() && (#[trigger] frontier.entries()[k]).cell
                    == c by {
                let k1 = choose|k1: int| 0 <= k1 < fr_pre.len() && fr_pre[k1].cell == c;
                if removed is Some {
                    let k0 = removed.unwrap() as int;
                    assert(fr_pre[k0].cell == neighbour);
                    if k1 < k0 {
                        assert(frontier.entries()[k1] == fr_pre[k1]);
                    } else {
                        assert(k1 > k0);
                        assert(frontier.entries()[k1 - 1] == fr_pre[k1]);
                    }
                } else {
                    assert(frontier.entries()[k1] == fr_pre[k1]);
                }
            }
        }
        let ghost cost_pre = cost@;
        let ghost parent_pre = parent@;
        parent[nidx] = Some(current);
        cost[nidx] = Some(tentative_cost);
        let estimate = tentative_cost + man_n;
        let ghost fr_mid = frontier.entries();
        frontier.insert(estimate, neighbour);
        proof {
            assert forall|x: Coordinate|
                g.contains(x) && x != neighbour implies cost_at(*g, cost@, x) == cost_at(
                *g,
                cost_pre,
                x,
            ) && parent_at(*g, parent@, x) == parent_at(*g, parent_pre, x) by {
                g.lemma_index_in_range(x);
                crate::route::lemma_grid_index_injective(*g, x, neighbour);
            }
            assert(cost_at(*g, cost@, neighbour) == Some(tentative_cost));
            assert(parent_at(*g, parent@, neighbour) == Some(current));
            let k2 = choose|k2: int|
                0 <= k2 <= fr_mid.len() && frontier.entries() == fr_mid.insert(
                    k2,
                    FrontierEntry { priority: estimate, cell: neighbour },
                );
            lemma_relax_restore(
                *g,
                start,
                goal,
                settled,
                current,
                current_score,
                neighbour,
                tentative_cost,
                estimate,
                cost_pre,
                cost@,
                parent_pre,
                parent@,
                fr_mid,
                frontier.entries(),
                k2,
            );
        }
    }
}

impl HeightMap {
    /// Best-first search from `start` to the grid's goal. Returns the exact
    /// shortest admissible route length, or `None` exactly when no
    /// admissible route reaches the goal.
    #[verifier::rlimit(100)]
    pub fn navigate_from(&self, start: Coordinate) -> (r: Option<usize>)
        requires
            self.wf(),
            self.contains(start),
        ensures
            match r {
                Some(n) => is_shortest(*self, start, self.spec_goal(), n as nat),
                None => forall|n: nat| !has_route(*self, start, self.spec_goal(), n),
            },
            start == self.spec_goal() ==> r == Some(0usize),
    {
        let goal = self.goal();
        let w = self.width();
        let h = self.height();
        proof {
            // Headroom for the priority arithmetic: the Manhattan distance
            // between any two cells is below the cell count.
            assert(w * h - w - h + 1 >= 0) by (nonlinear_arith)
                requires
                    1 <= w,
                    1 <= h,
            ;
        }
        let area = w * h;

        let mut cost: Vec<Option<usize>> = Vec::new();
        let mut parent: Vec<Option<Coordinate>> = Vec::new();
        let mut i: usize = 0;
        while i < area
            invariant
                i <= area,
                cost@.len() == i,
                parent@.len() == i,
                forall|j: int| 0 <= j < i ==> (#[trigger] cost@[j]) is None,
                forall|j: int| 0 <= j < i ==> (#[trigger] parent@[j]) is None,
            decreases area - i,
        {
            cost.push(None);
            parent.push(None);
            i += 1;
        }

        let mut frontier = Frontier::new();
        let ghost mut settled: Set<Coordinate> = Set::empty();

        let sidx = self.cell_index(&start);
        cost[sidx] = Some(0);
        proof {
            lemma_route_refl(*self, start);
            assert(start.manhattan(goal) <= (h - 1) + (w - 1));
        }
        let start_estimate = start.distance_to(&goal);
        frontier.insert(start_estimate, start);
        proof {
            let fr = frontier.entries();
            assert(fr.len() == 1 && fr[0] == (FrontierEntry {
                priority: start_estimate,
                cell: start,
            })) by {
                let k = choose|k: int|
                    0 <= k <= 0 && fr == Seq::<FrontierEntry>::empty().insert(
                        k,
                        FrontierEntry { priority: start_estimate, cell: start },
                    );
                assert(fr =~= Seq::<FrontierEntry>::empty().insert(
                    0,
                    FrontierEntry { priority: start_estimate, cell: start },
                ));
            }
            assert(cost_at(*self, cost@, start) == Some(0usize));
            assert forall|c: Coordinate|
                self.contains(c) && (#[trigger] cost_at(*self, cost@, c)) is Some implies c
                == start by {
                self.lemma_index_in_range(c);
                if c != start {
                    crate::route::lemma_grid_index_injective(*self, c, start);
                }
            }
            assert forall|c: Coordinate|
                self.contains(c) implies (#[trigger] parent_at(*self, parent@, c)) is None by {
                self.lemma_index_in_range(c);
            }
        }

        let mut outcome: Option<Option<usize>> = None;
        while outcome.is_none()
            invariant
                self.wf(),
                self.contains(start),
                goal == self.spec_goal(),
                w == self.spec_width(),
                h == self.spec_height(),
                area == w * h,
                w + h <= area + 1,
                cost@.len() == area,
                parent@.len() == area,
                frontier.wf(),
                settled.finite(),
                settled.len() <= area,
                forall|c: Coordinate| #[trigger] settled.contains(c) ==> self.contains(c),
                outcome is None ==> {
                    &&& inv_start(*self, start, cost@)
                    &&& inv_sound(*self, start, cost@)
                    &&& inv_bounded(*self, cost@)
                    &&& inv_settled(*self, start, settled, cost@)
                    &&& inv_relaxed(*self, settled, cost@)
                    &&& inv_frontier(*self, goal, settled, cost@, frontier.entries())
                    &&& inv_frontier_complete(*self, settled, cost@, frontier.entries())
                    &&& inv_parent(*self, start, settled, cost@, parent@)
                    &&& !settled.contains(goal)
                },
                match outcome {
                    None => true,
                    Some(rr) => match rr {
                        Some(n) => is_shortest(*self, start, goal, n as nat),
                        None => forall|n: nat| !has_route(*self, start, goal, n),
                    },
                },
            decreases (if outcome is None {
                1int
            } else {
                0int
            }), area - settled.len(),
        {
            if frontier.is_empty() {
                proof {
                    lemma_exhausted(*self, start, goal, settled, cost@, frontier.entries());
                }
                outcome = Some(None);
            } else {
                let ghost fr0 = frontier.entries();
                let popped = frontier.pop_min();
                let current = popped.cell;
                let cidx = self.cell_index(&current);
                let current_score = cost[cidx].unwrap();
                proof {
                    assert(popped == fr0[0]);
                    lemma_pop_exact(*self, start, goal, settled, cost@, fr0);
                    assert(is_shortest(*self, start, current, current_score as nat));
                    lemma_shortest_bound(*self, start, current, current_score as nat);
                }
                if current == goal {
                    let steps = backtrack(
                        self,
                        &parent,
                        Ghost(cost@),
                        Ghost(settled),
                        start,
                        goal,
                    );
                    outcome = Some(Some(steps));
                } else {
                    let ghost prev_settled = settled;
                    proof {
                        settled = settled.insert(current);
                        assert(!prev_settled.contains(current));
                        assert(settled.len() == prev_settled.len() + 1);
                        lemma_settled_bound(*self, settled);
                        // The remaining frontier stays well-formed for the
                        // grown settled set: the popped cell had the only
                        // entry for itself.
                        assert forall|k: int|
                            0 <= k < frontier.entries().len() implies {
                            let c = (#[trigger] frontier.entries()[k]).cell;
                            &&& self.contains(c)
                            &&& !settled.contains(c)
                            &&& cost_at(*self, cost@, c) is Some
                            &&& frontier.entries()[k].priority == val_of(
                                cost_at(*self, cost@, c),
                            ) + c.manhattan(goal)
                        } by {
                            assert(frontier.entries()[k] == fr0[k + 1]);
                            assert(fr0[k + 1].cell != fr0[0].cell);
                        }
                        assert forall|c: Coordinate|
                            self.contains(c) && (#[trigger] cost_at(*self, cost@, c)) is Some
                                && !settled.contains(c) implies exists|k: int|
                            0 <= k < frontier.entries().len() && (#[trigger] frontier.entries()[
                                k
                            ]).cell == c by {
                            let k0 = choose|k0: int| 0 <= k0 < fr0.len() && fr0[k0].cell == c;
                            assert(c != current);
                            assert(k0 != 0);
                            assert(frontier.entries()[k0 - 1] == fr0[k0]);
                        }
                    }
                    let neighbours = self.neighbours(&current);
                    let mut i: usize = 0;
                    while i < neighbours.len()
                        invariant
                            self.wf(),
                            self.contains(start),
                            self.contains(current),
                            self.contains(goal),
                            goal == self.spec_goal(),
                            w == self.spec_width(),
                            h == self.spec_height(),
                            area == w * h,
                            w + h <= area + 1,
                            cost@.len() == area,
                            parent@.len() == area,
                            frontier.wf(),
                            i <= neighbours@.len(),
                            current != goal,
                            settled == prev_settled.insert(current),
                            settled.contains(current),
                            settled.finite(),
                            settled.len() <= area,
                            forall|c: Coordinate| #[trigger]
                                settled.contains(c) ==> self.contains(c),
                            !settled.contains(goal),
                            is_shortest(*self, start, current, current_score as nat),
                            cost_at(*self, cost@, current) == Some(current_score),
                            current_score < area,
                            forall|j: int|
                                0 <= j < neighbours@.len() ==> self.step_ok(
                                    current,
                                    #[trigger] neighbours@[j],
                                ),
                            forall|d: Coordinate|
                                self.step_ok(current, d) ==> neighbours@.contains(d),
                            inv_start(*self, start, cost@),
                            inv_sound(*self, start, cost@),
                            inv_bounded(*self, cost@),
                            inv_settled(*self, start, settled, cost@),
                            inv_relaxed(*self, prev_settled, cost@),
                            forall|j: int|
                                0 <= j < i ==> cost_at(*self, cost@, #[trigger] neighbours@[j])
                                    is Some && val_of(cost_at(*self, cost@, neighbours@[j]))
                                    <= current_score + 1,
                            inv_frontier(*self, goal, settled, cost@, frontier.entries()),
                            inv_frontier_complete(*self, settled, cost@, frontier.entries()),
                            inv_parent(*self, start, settled, cost@, parent@),
                        decreases neighbours@.len() - i,
                    {
                        let neighbour = neighbours[i];
                        let ghost cost_before = cost@;
                        relax_step(
                            self,
                            &mut frontier,
                            &mut cost,
                            &mut parent,
                            Ghost(settled),
                            start,
                            goal,
                            current,
                            current_score,
                            neighbour,
                        );
                        proof {
                            assert forall|j: int|
                                0 <= j < i + 1 implies cost_at(
                                *self,
                                cost@,
                                #[trigger] neighbours@[j],
                            ) is Some && val_of(cost_at(*self, cost@, neighbours@[j]))
                                <= current_score + 1 by {
                                if j < i {
                                    assert(cost_at(*self, cost_before, neighbours@[j])
                                        is Some);
                                }
                            }
                            assert forall|c: Coordinate, d: Coordinate|
                                #[trigger] prev_settled.contains(c) && #[trigger] self.step_ok(
                                    c,
                                    d,
                                ) implies cost_at(*self, cost@, d) is Some && val_of(
                                cost_at(*self, cost@, d),
                            ) <= val_of(cost_at(*self, cost@, c)) + 1 by {
                                assert(settled.contains(c));
                                assert(cost_at(*self, cost@, c) == cost_at(
                                    *self,
                                    cost_before,
                                    c,
                                ));
                                assert(cost_at(*self, cost_before, d) is Some);
                            }
                        }
                        i += 1;
                    }
                    proof {
                        // All admissible steps out of the newly settled cell
                        // are now relaxed.
                        assert forall|c: Coordinate, d: Coordinate|
                            #[trigger] settled.contains(c) && #[trigger] self.step_ok(c, d)
                                implies cost_at(*self, cost@, d) is Some && val_of(
                            cost_at(*self, cost@, d),
                        ) <= val_of(cost_at(*self, cost@, c)) + 1 by {
                            if c == current {
                                assert(neighbours@.contains(d));
                                let j = choose|j: int|
                                    0 <= j < neighbours@.len() && neighbours@[j] == d;
                                assert(cost_at(*self, cost@, neighbours@[j]) is Some);
                            } else {
                                assert(prev_settled.contains(c));
                            }
                        }
                    }
                }
            }
        }
        let result = match outcome {
            Some(rr) => rr,
            None => None,
        };
        proof {
            if start == goal {
                crate::route::lemma_shortest_refl(*self, start);
                match result {
                    Some(n) => {
                        crate::route::lemma_shortest_unique(
                            *self,
                            start,
                            goal,
                            n as nat,
                            0,
                        );
                    },
                    None => {
                        assert(has_route(*self, start, goal, 0));
                    },
                }
            }
        }
        result
    }
}


impl HeightMap {
    /// Runs the search from the grid's designated start cell.
    pub fn navigate(&self) -> (r: Option<usize>)
        requires
            self.wf(),
        ensures
            match r {
                Some(n) => is_shortest(*self, self.spec_start(), self.spec_goal(), n as nat),
                None => forall|n: nat|
                    !has_route(*self, self.spec_start(), self.spec_goal(), n),
            },
            self.spec_start() == self.spec_goal() ==> r == Some(0usize),
    {
        let start = self.start();
        self.navigate_from(start)
    }

    /// The smallest elevation value present in the grid.
    pub fn lowest_elevation(&self) -> (e: u8)
        requires
            self.wf(),
        ensures
            exists|c: Coordinate| self.contains(c) && #[trigger] self.at(c) == e,
            forall|c: Coordinate| self.contains(c) ==> #[trigger] self.at(c) >= e,
    {
        let origin = Coordinate { row: 0, col: 0 };
        let mut e = self.get_coordinate(&origin);
        let mut row: usize = 0;
        while row < self.height()
            invariant
                self.wf(),
                row <= self.spec_height(),
                exists|c: Coordinate| self.contains(c) && #[trigger] self.at(c) == e,
                forall|c: Coordinate|
                    self.contains(c) && c.row < row ==> #[trigger] self.at(c) >= e,
            decreases self.spec_height() - row,
        {
            let mut col: usize = 0;
            while col < self.width()
                invariant
                    self.wf(),
                    row < self.spec_height(),
                    col <= self.spec_width(),
                    exists|c: Coordinate| self.contains(c) && #[trigger] self.at(c) == e,
                    forall|c: Coordinate|
                        self.contains(c) && c.row < row ==> #[trigger] self.at(c) >= e,
                    forall|c: Coordinate|
                        self.contains(c) && c.row == row && c.col < col ==> #[trigger] self.at(
                            c,
                        ) >= e,
                decreases self.spec_width() - col,
            {
                let c = Coordinate { row, col };
                let v = self.get_coordinate(&c);
                if v < e {
                    e = v;
                }
                col += 1;
            }
            row += 1;
        }
        e
    }

    /// All cells holding exactly the given elevation, in row-major order.
    pub fn cells_with_elevation(&self, e: u8) -> (r: Vec<Coordinate>)
        requires
            self.wf(),
        ensures
            forall|i: int|
                0 <= i < r@.len() ==> self.contains(#[trigger] r@[i]) && self.at(r@[i]) == e,
            forall|c: Coordinate|
                self.contains(c) && #[trigger] self.at(c) == e ==> r@.contains(c),
    {
        let mut r: Vec<Coordinate> = Vec::new();
        let mut row: usize = 0;
        while row < self.height()
            invariant
                self.wf(),
                row <= self.spec_height(),
                forall|i: int|
                    0 <= i < r@.len() ==> self.contains(#[trigger] r@[i]) && self.at(r@[i])
                        == e,
                forall|c: Coordinate|
                    self.contains(c) && c.row < row && #[trigger] self.at(c) == e
                        ==> r@.contains(c),
            decreases self.spec_height() - row,
        {
            let mut col: usize = 0;
            while col < self.width()
                invariant
                    self.wf(),
                    row < self.spec_height(),
                    col <= self.spec_width(),
                    forall|i: int|
                        0 <= i < r@.len() ==> self.contains(#[trigger] r@[i]) && self.at(r@[i])
                            == e,
                    forall|c: Coordinate|
                        self.contains(c) && c.row < row && #[trigger] self.at(c) == e
                            ==> r@.contains(c),
                    forall|c: Coordinate|
                        self.contains(c) && c.row == row && c.col < col && #[trigger] self.at(
                            c,
                        ) == e ==> r@.contains(c),
                decreases self.spec_width() - col,
            {
                let c = Coordinate { row, col };
                let ghost r_before = r@;
                let v = self.get_coordinate(&c);
                if v == e {
                    r.push(c);
                    proof {
                        assert(r@[r@.len() - 1] == c);
                    }
                }
                proof {
                    assert forall|x: Coordinate| r_before.contains(x) implies r@.contains(
                        x,
                    ) by {
                        let k = choose|k: int| 0 <= k < r_before.len() && r_before[k] == x;
                        assert(r@[k] == x);
                    }
                }
                col += 1;
            }
            row += 1;
        }
        r
    }

    /// The minimum search result over every cell whose elevation equals `e`,
    /// running one fresh single-source search per candidate; `None` exactly
    /// when no qualifying cell reaches the goal.
    pub fn best_from_any(&self, e: u8) -> (r: Option<usize>)
        requires
            self.wf(),
        ensures
            match r {
                Some(n) => (exists|c: Coordinate|
                    self.contains(c) && #[trigger] self.at(c) == e && is_shortest(
                        *self,
                        c,
                        self.spec_goal(),
                        n as nat,
                    )) && forall|c: Coordinate, m: nat|
                    self.contains(c) && self.at(c) == e && #[trigger] has_route(
                        *self,
                        c,
                        self.spec_goal(),
                        m,
                    ) ==> n <= m,
                None => forall|c: Coordinate, n: nat|
                    self.contains(c) && self.at(c) == e ==> !#[trigger] has_route(
                        *self,
                        c,
                        self.spec_goal(),
                        n,
                    ),
            },
    {
        let ghost goal = self.spec_goal();
        let starts = self.cells_with_elevation(e);
        let mut best: Option<usize> = None;
        let mut i: usize = 0;
        while i < starts.len()
            invariant
                self.wf(),
                goal == self.spec_goal(),
                i <= starts@.len(),
                forall|j: int|
                    0 <= j < starts@.len() ==> self.contains(#[trigger] starts@[j]) && self.at(
                        starts@[j],
                    ) == e,
                forall|c: Coordinate|
                    self.contains(c) && #[trigger] self.at(c) == e ==> starts@.contains(c),
                match best {
                    Some(n) => (exists|j: int|
                        0 <= j < i && is_shortest(*self, #[trigger] starts@[j], goal, n as nat))
                        && forall|j: int, m: nat|
                        0 <= j < i && #[trigger] has_route(*self, starts@[j], goal, m) ==> n
                            <= m,
                    None => forall|j: int, m: nat|
                        0 <= j < i ==> !#[trigger] has_route(*self, starts@[j], goal, m),
                },
            decreases starts@.len() - i,
        {
            let candidate = starts[i];
            let res = self.navigate_from(candidate);
            proof {
                if best is Some && res is Some && res.unwrap() < best.unwrap() {
                    assert(is_shortest(*self, candidate, goal, res.unwrap() as nat));
                }
            }
            best = match (best, res) {
                (Some(b), Some(n)) => if n < b {
                    Some(n)
                } else {
                    Some(b)
                },
                (None, Some(n)) => Some(n),
                (b, None) => b,
            };
            i += 1;
        }
        proof {
            match best {
                Some(n) => {
                    let j = choose|j: int|
                        0 <= j < starts@.len() && is_shortest(
                            *self,
                            #[trigger] starts@[j],
                            goal,
                            n as nat,
                        );
                    assert(self.contains(starts@[j]) && self.at(starts@[j]) == e);
                    assert forall|c: Coordinate, m: nat|
                        self.contains(c) && self.at(c) == e && #[trigger] has_route(
                            *self,
                            c,
                            goal,
                            m,
                        ) implies n <= m by {
                        assert(starts@.contains(c));
                        let jc = choose|jc: int|
                            0 <= jc < starts@.len() && starts@[jc] == c;
                        assert(has_route(*self, starts@[jc], goal, m));
                    }
                },
                None => {
                    assert forall|c: Coordinate, n: nat|
                        self.contains(c) && self.at(c) == e implies !#[trigger] has_route(
                        *self,
                        c,
                        goal,
                        n,
                    ) by {
                        if has_route(*self, c, goal, n) {
                            assert(starts@.contains(c));
                            let jc = choose|jc: int|
                                0 <= jc < starts@.len() && starts@[jc] == c;
                            assert(has_route(*self, starts@[jc], goal, n));
                        }
                    }
                },
            }
        }
        best
    }
}

/// Determinism: the reported search outcome is a function of the grid and
/// the start cell alone, so running the search twice from the same start on
/// the same grid yields the same numeric result.
pub proof fn lemma_navigate_deterministic(
    g: HeightMap,
    start: Coordinate,
    r1: Option<usize>,
    r2: Option<usize>,
)
    requires
        match r1 {
            Some(n) => is_shortest(g, start, g.spec_goal(), n as nat),
            None => forall|n: nat| !has_route(g, start, g.spec_goal(), n),
        },
        match r2 {
            Some(n) => is_shortest(g, start, g.spec_goal(), n as nat),
            None => forall|n: nat| !has_route(g, start, g.spec_goal(), n),
        },
    ensures
        r1 == r2,
{
    match (r1, r2) {
        (Some(n1), Some(n2)) => {
            crate::route::lemma_shortest_unique(
                g,
                start,
                g.spec_goal(),
                n1 as nat,
                n2 as nat,
            );
        },
        (Some(n1), None) => {
            assert(has_route(g, start, g.spec_goal(), n1 as nat));
        },
        (None, Some(n2)) => {
            assert(has_route(g, start, g.spec_goal(), n2 as nat));
        },
        (None, None) => {},
    }
}

} // verus!
