//! What Dijkstra's search keeps true while it runs, and why its answer is
//! the least cost of a walk.

use crate::frontier::State;
use crate::grid::Point;
use crate::walks::{
    answers, clamped, closed_under_edges, has_edge, is_distance, is_walk, lemma_reaches_step,
    lemma_stay, reaches, walk_cost, Adjacency, Edge,
};
use vstd::multiset::Multiset;
use vstd::prelude::*;

verus! {

/// The best cost known for `p`; where none is known yet, more than any
/// cost that can be known.
pub open spec fn best(dist: Map<Point, usize>, p: Point) -> int {
    if dist.contains_key(p) {
        dist[p] as int
    } else {
        usize::MAX + 1
    }
}

/// The state that the frontier holds for `p` while `p` waits at its best cost.
pub open spec fn waiting(dist: Map<Point, usize>, p: Point) -> State {
    State { cost: dist[p], node: p }
}

/// No state held by the frontier costs less than `m`.
pub open spec fn frontier_at_least(frontier: Multiset<State>, m: int) -> bool {
    forall|e: State| #[trigger] frontier.count(e) > 0 ==> m <= e.cost
}

/// The first `n` edges that leave `u` have been relaxed: the end of each is
/// known at a cost no more than the cost of `u` plus that of the edge,
/// told as `usize::MAX` where it is more.
pub open spec fn relaxed(g: Adjacency, dist: Map<Point, usize>, u: Point, n: int) -> bool {
    forall|i: int|
        0 <= i < n ==> best(dist, (#[trigger] g[u][i]).0) <= clamped(dist[u] + g[u][i].1)
}

/// The state of a search from `starts`, of which the first `seeded` have
/// been entered. `settled` are the nodes taken from the frontier at their
/// best cost; `done` are those of them whose edges have all been relaxed.
#[verifier::opaque]
pub open spec fn consistent(
    g: Adjacency,
    starts: Seq<Point>,
    seeded: int,
    dist: Map<Point, usize>,
    frontier: Multiset<State>,
    settled: Set<Point>,
    done: Set<Point>,
) -> bool {
    // every known cost is that of a walk
    &&& forall|v: Point| #[trigger] dist.contains_key(v) ==> reaches(g, starts, v, dist[v] as int)
    // known nodes are starts or nodes of the graph
    &&& forall|v: Point| #[trigger]
        dist.contains_key(v) ==> g.contains_key(v) || starts.contains(v)
    // the starts entered so far are known at cost zero
    &&& forall|i: int|
        0 <= i < seeded ==> dist.contains_key(#[trigger] starts[i]) && dist[starts[i]] == 0
    // a known node that is not settled waits in the frontier at its best cost
    &&& forall|v: Point| #[trigger]
        dist.contains_key(v) && !settled.contains(v) ==> frontier.count(waiting(dist, v)) > 0
    // the frontier holds known nodes, at no less than their best cost
    &&& forall|e: State| #[trigger]
        frontier.count(e) > 0 ==> dist.contains_key(e.node) && dist[e.node] <= e.cost
    // settled nodes are known, and cost no more than anything in the frontier
    &&& forall|u: Point| #[trigger] settled.contains(u) ==> dist.contains_key(u)
    &&& forall|u: Point, e: State|
        #![trigger settled.contains(u), frontier.count(e)]
        settled.contains(u) && frontier.count(e) > 0 ==> dist[u] <= e.cost
    // the edges of the nodes that are done have been relaxed
    &&& forall|u: Point| #[trigger]
        done.contains(u) && g.contains_key(u) ==> relaxed(g, dist, u, g[u].len() as int)
}

/// The state of a search while it relaxes the edges of `v`, which it took
/// from the frontier at cost `c`: the first `n` of them have been relaxed.
#[verifier::opaque]
pub open spec fn relaxing(
    g: Adjacency,
    starts: Seq<Point>,
    dist: Map<Point, usize>,
    frontier: Multiset<State>,
    settled: Set<Point>,
    done: Set<Point>,
    v: Point,
    c: usize,
    n: int,
    at_start: Multiset<State>,
) -> bool {
    &&& consistent(g, starts, starts.len() as int, dist, frontier, settled, done)
    &&& settled == done.insert(v)
    &&& dist.contains_key(v) && dist[v] == c
    &&& frontier_at_least(frontier, c as int)
    &&& forall|u: Point| #[trigger] settled.contains(u) ==> dist[u] <= c
    &&& g.contains_key(v) ==> 0 <= n <= g[v].len() && relaxed(g, dist, v, n)
    &&& done.contains(v) ==> frontier == at_start
}

/// Entering one more start keeps the state consistent.
pub proof fn lemma_seed(
    g: Adjacency,
    starts: Seq<Point>,
    seeded: int,
    dist: Map<Point, usize>,
    frontier: Multiset<State>,
)
    requires
        0 <= seeded < starts.len(),
        consistent(g, starts, seeded, dist, frontier, Set::empty(), Set::empty()),
    ensures
        consistent(
            g,
            starts,
            seeded + 1,
            dist.insert(starts[seeded], 0),
            frontier.insert(State { cost: 0, node: starts[seeded] }),
            Set::empty(),
            Set::empty(),
        ),
{
    reveal(consistent);
    reveal(relaxing);
    let s = starts[seeded];
    let dist2 = dist.insert(s, 0);
    let frontier2 = frontier.insert(State { cost: 0, node: s });
    lemma_stay(g, starts, s);
    assert forall|v: Point| #[trigger] dist2.contains_key(v) implies frontier2.count(
        waiting(dist2, v),
    ) > 0 by {
        if v != s {
            assert(frontier.count(waiting(dist, v)) > 0);
        }
    }
    assert forall|e: State| #[trigger] frontier2.count(e) > 0 implies dist2.contains_key(e.node)
        && dist2[e.node] <= e.cost by {
        if e != (State { cost: 0, node: s }) {
            assert(frontier.count(e) > 0);
        }
    }
    assert forall|i: int| 0 <= i < seeded + 1 implies dist2.contains_key(#[trigger] starts[i])
        && dist2[starts[i]] == 0 by {
        if i < seeded {
            assert(dist.contains_key(starts[i]));
        }
    }
}

/// Dropping a state that costs more than the best known for its node keeps
/// the state consistent.
pub proof fn lemma_discard(
    g: Adjacency,
    starts: Seq<Point>,
    dist: Map<Point, usize>,
    frontier: Multiset<State>,
    settled: Set<Point>,
    e: State,
)
    requires
        consistent(g, starts, starts.len() as int, dist, frontier, settled, settled),
        frontier.count(e) > 0,
        e.cost > best(dist, e.node),
    ensures
        consistent(g, starts, starts.len() as int, dist, frontier.remove(e), settled, settled),
{
    reveal(consistent);
    reveal(relaxing);
    let frontier2 = frontier.remove(e);
    assert forall|v: Point| #[trigger]
        dist.contains_key(v) && !settled.contains(v) implies frontier2.count(waiting(dist, v))
        > 0 by {
        assert(frontier.count(waiting(dist, v)) > 0);
        assert(waiting(dist, v) != e);
    }
    assert forall|x: State| #[trigger] frontier2.count(x) > 0 implies frontier.count(x) > 0 by {}
}

/// While the state is consistent and nothing in the frontier costs less
/// than `m`, every walk from a start that costs less than `m` ends in a
/// settled node, known at no more than the cost of the walk.
pub proof fn lemma_settled_below(
    g: Adjacency,
    starts: Seq<Point>,
    dist: Map<Point, usize>,
    frontier: Multiset<State>,
    settled: Set<Point>,
    m: int,
    s: Point,
    w: Seq<Edge>,
    v: Point,
)
    requires
        consistent(g, starts, starts.len() as int, dist, frontier, settled, settled),
        frontier_at_least(frontier, m),
        m <= usize::MAX + 1,
        starts.contains(s),
        is_walk(g, s, w, v),
        clamped(walk_cost(w) as int) < m,
    ensures
        settled.contains(v),
        dist.contains_key(v),
        dist[v] <= clamped(walk_cost(w) as int),
    decreases w.len(),
{
    reveal(consistent);
    reveal(relaxing);
    if w.len() == 0 {
        let i = choose|i: int| 0 <= i < starts.len() && starts[i] == s;
        assert(dist.contains_key(starts[i]));
        if !settled.contains(v) {
            assert(frontier.count(waiting(dist, v)) > 0);
        }
    } else {
        let e = w.last();
        let u = e.from;
        lemma_settled_below(g, starts, dist, frontier, settled, m, s, w.drop_last(), u);
        let i = choose|i: int| 0 <= i < g[u].len() && g[u][i] == (e.to, e.cost);
        assert(relaxed(g, dist, u, g[u].len() as int));
        assert(best(dist, g[u][i].0) <= clamped(dist[u] + g[u][i].1));
        assert(walk_cost(w) == walk_cost(w.drop_last()) + e.cost);
        assert(dist.contains_key(v));
        if !settled.contains(v) {
            assert(frontier.count(waiting(dist, v)) > 0);
        }
    }
}

/// When the goal leaves the frontier at its best cost, as a state of least
/// cost, that cost is the least cost of a walk to it.
pub proof fn lemma_found(
    g: Adjacency,
    starts: Seq<Point>,
    dist: Map<Point, usize>,
    frontier: Multiset<State>,
    settled: Set<Point>,
    e: State,
)
    requires
        consistent(g, starts, starts.len() as int, dist, frontier, settled, settled),
        frontier.count(e) > 0,
        frontier_at_least(frontier, e.cost as int),
        e.cost <= best(dist, e.node),
        !settled.contains(e.node),
    ensures
        is_distance(g, starts, e.node, e.cost as int),
{
    reveal(consistent);
    reveal(relaxing);
    assert(dist.contains_key(e.node) && dist[e.node] == e.cost);
    assert forall|c: int| #[trigger] reaches(g, starts, e.node, c) implies e.cost <= c by {
        if c < e.cost {
            let (s, w) = choose|s: Point, w: Seq<Edge>|
                starts.contains(s) && #[trigger] is_walk(g, s, w, e.node) && clamped(
                    walk_cost(w) as int,
                ) == c;
            lemma_settled_below(g, starts, dist, frontier, settled, e.cost as int, s, w, e.node);
        }
    }
}

/// When the frontier is empty and the goal was never settled, no walk
/// leads to it.
pub proof fn lemma_exhausted(
    g: Adjacency,
    starts: Seq<Point>,
    dist: Map<Point, usize>,
    frontier: Multiset<State>,
    settled: Set<Point>,
    goal: Point,
)
    requires
        consistent(g, starts, starts.len() as int, dist, frontier, settled, settled),
        frontier.len() == 0,
        !settled.contains(goal),
    ensures
        forall|c: int| !#[trigger] reaches(g, starts, goal, c),
{
    reveal(consistent);
    reveal(relaxing);
    assert forall|e: State| frontier.count(e) == 0 by {
        vstd::multiset::axiom_count_le_len(frontier, e);
    }
    assert forall|c: int| !#[trigger] reaches(g, starts, goal, c) by {
        if reaches(g, starts, goal, c) {
            let (s, w) = choose|s: Point, w: Seq<Edge>|
                starts.contains(s) && #[trigger] is_walk(g, s, w, goal) && clamped(
                    walk_cost(w) as int,
                ) == c;
            lemma_settled_below(g, starts, dist, frontier, settled, usize::MAX + 1, s, w, goal);
        }
    }
}

/// When the frontier is empty, the cost known for a node is the least cost
/// of a walk to it, and a node without one cannot be reached.
pub proof fn lemma_flooded(
    g: Adjacency,
    starts: Seq<Point>,
    dist: Map<Point, usize>,
    frontier: Multiset<State>,
    settled: Set<Point>,
    p: Point,
)
    requires
        consistent(g, starts, starts.len() as int, dist, frontier, settled, settled),
        frontier.len() == 0,
    ensures
        answers(
            g,
            starts,
            p,
            if dist.contains_key(p) {
                Some(dist[p])
            } else {
                None
            },
        ),
{
    reveal(consistent);
    reveal(relaxing);
    assert forall|e: State| frontier.count(e) == 0 by {
        vstd::multiset::axiom_count_le_len(frontier, e);
    }
    if dist.contains_key(p) {
        if !settled.contains(p) {
            assert(frontier.count(waiting(dist, p)) > 0);
        }
        assert forall|c: int| #[trigger] reaches(g, starts, p, c) implies dist[p] <= c by {
            if c < dist[p] {
                let (s, w) = choose|s: Point, w: Seq<Edge>|
                    starts.contains(s) && #[trigger] is_walk(g, s, w, p) && clamped(
                        walk_cost(w) as int,
                    ) == c;
                lemma_settled_below(g, starts, dist, frontier, settled, usize::MAX + 1, s, w, p);
            }
        }
    } else {
        assert forall|c: int| !#[trigger] reaches(g, starts, p, c) by {
            if reaches(g, starts, p, c) {
                let (s, w) = choose|s: Point, w: Seq<Edge>|
                    starts.contains(s) && #[trigger] is_walk(g, s, w, p) && clamped(
                        walk_cost(w) as int,
                    ) == c;
                lemma_settled_below(g, starts, dist, frontier, settled, usize::MAX + 1, s, w, p);
            }
        }
    }
}

/// Before anything is entered, nothing is known and nothing waits.
pub proof fn lemma_begin(g: Adjacency, starts: Seq<Point>)
    ensures
        consistent(g, starts, 0, Map::empty(), Multiset::empty(), Set::empty(), Set::empty()),
{
    reveal(consistent);
}

/// Taking a state of least cost from the frontier, at the best cost of its
/// node, settles that node; none of its edges is relaxed yet.
pub proof fn lemma_settle(
    g: Adjacency,
    starts: Seq<Point>,
    dist: Map<Point, usize>,
    frontier: Multiset<State>,
    settled: Set<Point>,
    e: State,
)
    requires
        consistent(g, starts, starts.len() as int, dist, frontier, settled, settled),
        frontier.count(e) > 0,
        frontier_at_least(frontier, e.cost as int),
        e.cost <= best(dist, e.node),
    ensures
        relaxing(
            g,
            starts,
            dist,
            frontier.remove(e),
            settled.insert(e.node),
            settled,
            e.node,
            e.cost,
            0,
            frontier.remove(e),
        ),
{
    reveal(consistent);
    reveal(relaxing);
    let frontier2 = frontier.remove(e);
    let settled2 = settled.insert(e.node);
    assert(dist.contains_key(e.node) && dist[e.node] == e.cost);
    assert forall|x: State| #[trigger] frontier2.count(x) > 0 implies frontier.count(x) > 0 by {}
    assert forall|v: Point| #[trigger]
        dist.contains_key(v) && !settled2.contains(v) implies frontier2.count(waiting(dist, v))
        > 0 by {
        assert(frontier.count(waiting(dist, v)) > 0);
        assert(waiting(dist, v) != e);
    }
    assert forall|u: Point| #[trigger] settled2.contains(u) implies dist[u] <= e.cost by {
        if u != e.node {
            assert(settled.contains(u) && frontier.count(e) > 0);
        }
    }
    assert forall|u: Point, x: State|
        #![trigger settled2.contains(u), frontier2.count(x)]
        settled2.contains(u) && frontier2.count(x) > 0 implies dist[u] <= x.cost by {
        assert(frontier.count(x) > 0);
    }
}

/// Relaxing the next edge of the node being settled, where that lowers the
/// best cost known for the end of the edge.
pub proof fn lemma_relax_lower(
    g: Adjacency,
    starts: Seq<Point>,
    dist: Map<Point, usize>,
    frontier: Multiset<State>,
    settled: Set<Point>,
    done: Set<Point>,
    v: Point,
    c: usize,
    n: int,
    at_start: Multiset<State>,
)
    requires
        closed_under_edges(g),
        relaxing(g, starts, dist, frontier, settled, done, v, c, n, at_start),
        g.contains_key(v),
        n < g[v].len(),
        clamped(c + g[v][n].1) < best(dist, g[v][n].0),
    ensures
        relaxing(
            g,
            starts,
            dist.insert(g[v][n].0, clamped(c + g[v][n].1) as usize),
            frontier.insert(State { cost: clamped(c + g[v][n].1) as usize, node: g[v][n].0 }),
            settled,
            done,
            v,
            c,
            n + 1,
            at_start,
        ),
{
    reveal(consistent);
    reveal(relaxing);
    let to = g[v][n].0;
    let next = clamped(c + g[v][n].1) as usize;
    let added = State { cost: next, node: to };
    let dist2 = dist.insert(to, next);
    let frontier2 = frontier.insert(added);
    let e = Edge { from: v, to: to, cost: g[v][n].1 };
    assert(has_edge(g, e));
    lemma_reaches_step(g, starts, c as int, e);
    // the end of the edge cannot be settled, so no settled cost changes
    if settled.contains(to) {
        assert(dist[to] <= c);
    }
    if done.contains(v) {
        assert(relaxed(g, dist, v, g[v].len() as int));
    }
    assert forall|p: Point| #[trigger] best(dist2, p) <= best(dist, p) by {}
    assert forall|x: Point| #[trigger] dist2.contains_key(x) implies reaches(
        g,
        starts,
        x,
        dist2[x] as int,
    ) by {
        if x != to {
            assert(dist.contains_key(x));
        }
    }
    assert forall|x: Point| #[trigger] dist2.contains_key(x) implies g.contains_key(x)
        || starts.contains(x) by {
        if x != to {
            assert(dist.contains_key(x));
        }
    }
    assert forall|i: int| 0 <= i < starts.len() implies dist2.contains_key(#[trigger] starts[i])
        && dist2[starts[i]] == 0 by {
        assert(dist.contains_key(starts[i]));
        if starts[i] == to {
            assert(dist[to] == 0);
        }
    }
    assert forall|x: Point| #[trigger]
        dist2.contains_key(x) && !settled.contains(x) implies frontier2.count(waiting(dist2, x))
        > 0 by {
        if x != to {
            assert(frontier.count(waiting(dist, x)) > 0);
        }
    }
    assert forall|x: State| #[trigger] frontier2.count(x) > 0 implies dist2.contains_key(x.node)
        && dist2[x.node] <= x.cost by {
        if x != added {
            assert(frontier.count(x) > 0);
        }
    }
    assert forall|u: Point| #[trigger] settled.contains(u) implies dist2.contains_key(u)
        && dist2[u] == dist[u] by {}
    assert forall|u: Point, x: State|
        #![trigger settled.contains(u), frontier2.count(x)]
        settled.contains(u) && frontier2.count(x) > 0 implies dist2[u] <= x.cost by {
        if x != added {
            assert(frontier.count(x) > 0);
        }
    }
    assert forall|u: Point| #[trigger] done.contains(u) && g.contains_key(u) implies relaxed(
        g,
        dist2,
        u,
        g[u].len() as int,
    ) by {
        assert(settled.contains(u));
        assert(relaxed(g, dist, u, g[u].len() as int));
        assert forall|i: int| 0 <= i < g[u].len() implies best(dist2, (#[trigger] g[u][i]).0)
            <= clamped(dist2[u] + g[u][i].1) by {
            assert(best(dist2, g[u][i].0) <= best(dist, g[u][i].0));
        }
    }
    assert forall|i: int| 0 <= i < n + 1 implies best(dist2, (#[trigger] g[v][i]).0) <= clamped(
        dist2[v] + g[v][i].1,
    ) by {
        assert(best(dist2, g[v][i].0) <= best(dist, g[v][i].0));
    }
    assert(frontier_at_least(frontier2, c as int));
}

/// Passing over the next edge of the node being settled, where the end of
/// the edge is already known at no more than the cost through that edge.
pub proof fn lemma_relax_keep(
    g: Adjacency,
    starts: Seq<Point>,
    dist: Map<Point, usize>,
    frontier: Multiset<State>,
    settled: Set<Point>,
    done: Set<Point>,
    v: Point,
    c: usize,
    n: int,
    at_start: Multiset<State>,
)
    requires
        relaxing(g, starts, dist, frontier, settled, done, v, c, n, at_start),
        g.contains_key(v),
        n < g[v].len(),
        best(dist, g[v][n].0) <= clamped(c + g[v][n].1),
    ensures
        relaxing(g, starts, dist, frontier, settled, done, v, c, n + 1, at_start),
{
    reveal(consistent);
    reveal(relaxing);
}

/// Once all edges of the node being settled have been relaxed, or where the
/// graph lists none for it, the state is consistent with that node done.
pub proof fn lemma_settled(
    g: Adjacency,
    starts: Seq<Point>,
    dist: Map<Point, usize>,
    frontier: Multiset<State>,
    settled: Set<Point>,
    done: Set<Point>,
    v: Point,
    c: usize,
    n: int,
    at_start: Multiset<State>,
)
    requires
        relaxing(g, starts, dist, frontier, settled, done, v, c, n, at_start),
        g.contains_key(v) ==> n == g[v].len(),
    ensures
        consistent(g, starts, starts.len() as int, dist, frontier, settled, settled),
        settled == done.insert(v),
        g.contains_key(v) || starts.contains(v),
        done.contains(v) ==> frontier == at_start,
{
    reveal(consistent);
    reveal(relaxing);
}

} // verus!
