//! A directed weighted graph over points, with shortest-path queries.

use crate::frontier::{Frontier, State};
use crate::grid::Point;
use crate::point_map::PointMap;
use crate::search::{
    consistent, frontier_at_least, lemma_begin, lemma_discard, lemma_exhausted, lemma_found,
    lemma_relax_keep, lemma_relax_lower, lemma_seed, lemma_settle, lemma_settled, relaxing,
};
use crate::walks::{
    answers, closed_under_edges, has_edge, lemma_answer_is_shortest, lemma_edge_bounds,
    lemma_more_edges, lemma_stay, lemma_unknown_end, nearer, shortest, Adjacency, Edge,
};
use vstd::prelude::*;

verus! {

/// A simple directed weighted graph with `Point` nodes.
///
/// Nodes are created implicitly when an edge is added.
pub struct Graph {
    edges: PointMap<Vec<(Point, usize)>>,
}

/// `g` with one more edge from `from` to `to`: the edge is appended to the
/// list of `from`, and both ends are known nodes afterwards.
pub open spec fn with_edge(g: Adjacency, from: Point, to: Point, cost: usize) -> Adjacency {
    let list = if g.contains_key(from) {
        g[from]
    } else {
        Seq::empty()
    };
    let g1 = g.insert(from, list.push((to, cost)));
    if g1.contains_key(to) {
        g1
    } else {
        g1.insert(to, Seq::empty())
    }
}

/// Adding an edge keeps every edge that was there, and the new edge is one
/// of the graph.
pub proof fn lemma_with_edge(g: Adjacency, from: Point, to: Point, cost: usize)
    ensures
        forall|e: Edge| #[trigger] has_edge(g, e) ==> has_edge(with_edge(g, from, to, cost), e),
        has_edge(with_edge(g, from, to, cost), Edge { from, to, cost }),
{
    let h = with_edge(g, from, to, cost);
    let list = if g.contains_key(from) {
        g[from]
    } else {
        Seq::empty()
    };
    assert(h[from] == list.push((to, cost)));
    assert(h[from][list.len() as int] == (to, cost));
    assert forall|e: Edge| #[trigger] has_edge(g, e) implies has_edge(h, e) by {
        let i = choose|i: int| 0 <= i < g[e.from].len() && g[e.from][i] == (e.to, e.cost);
        if e.from == from {
            assert(h[from][i] == (e.to, e.cost));
        } else {
            assert(h[e.from] == g[e.from]);
        }
    }
}

/// After an edge from `from` to `to` has been added, a query between the two
/// answers no more than the cost of that edge, whatever edges were there
/// before; and no query answers more than it did before.
pub proof fn lemma_edge_added(
    g: Adjacency,
    from: Point,
    to: Point,
    cost: usize,
    starts: Seq<Point>,
    goal: Point,
)
    ensures
        shortest(with_edge(g, from, to, cost), seq![from], to) matches Some(d) && d <= cost,
        nearer(shortest(with_edge(g, from, to, cost), starts, goal), shortest(g, starts, goal))
            == shortest(with_edge(g, from, to, cost), starts, goal),
{
    lemma_with_edge(g, from, to, cost);
    lemma_more_edges(g, with_edge(g, from, to, cost), starts, goal);
    lemma_edge_bounds(with_edge(g, from, to, cost), Edge { from, to, cost });
}

/// The nodes at which a search from `starts` through `g` can arrive.
pub open spec fn search_space(g: Adjacency, starts: Seq<Point>) -> Set<Point> {
    g.dom().union(starts.to_set())
}

impl View for Graph {
    type V = Adjacency;

    /// Each known node with its outgoing edges, in the order they were added.
    closed spec fn view(&self) -> Adjacency {
        Map::new(|p: Point| self.edges@.contains_key(p), |p: Point| self.edges@[p]@)
    }
}

impl Graph {
    /// Every edge leads to a known node.
    pub open spec fn wf(&self) -> bool {
        closed_under_edges(self@)
    }

    /// A graph knows finitely many nodes.
    pub proof fn lemma_finite(&self)
        ensures
            self@.dom().finite(),
    {
        self.edges.lemma_finite();
        assert(self@.dom() =~= self.edges@.dom());
    }

    /// Create an empty graph.
    pub fn new() -> (g: Self)
        ensures
            g.wf(),
            g@ == Map::<Point, Seq<(Point, usize)>>::empty(),
    {
        let g = Self { edges: PointMap::new() };
        assert(g@ =~= Map::<Point, Seq<(Point, usize)>>::empty());
        g
    }

    /// Add a directed edge from `from` to `to` with the given non-negative `cost`.
    ///
    /// Nodes are implicitly created if they did not previously exist in the graph.
    pub fn add_edge(&mut self, from: Point, to: Point, cost: usize)
        requires
            old(self).wf(),
        ensures
            final(self).wf(),
            final(self)@ == with_edge(old(self)@, from, to, cost),
    {
        let mut list = match self.edges.remove(from) {
            Some(list) => list,
            None => Vec::new(),
        };
        list.push((to, cost));
        self.edges.insert(from, list);
        if !self.edges.contains_key(to) {
            self.edges.insert(to, Vec::new());
        }
        proof {
            let before = old(self)@;
            let after = with_edge(before, from, to, cost);
            assert(self@ =~= after);
            assert forall|p: Point, i: int|
                after.contains_key(p) && 0 <= i < after[p].len() implies after.contains_key(
                (#[trigger] after[p][i]).0,
            ) by {
                if p == from && i == after[p].len() - 1 {
                } else if p == from {
                    assert(before.contains_key(before[p][i].0));
                } else if before.contains_key(p) {
                    assert(before.contains_key(before[p][i].0));
                }
            }
        }
    }

    /// Returns the cost of the shortest path from `start` to `goal` using Dijkstra's algorithm.
    ///
    /// If no path exists, returns `None`. Costs are added with saturation: a
    /// path that costs more than `usize::MAX` is told as costing `usize::MAX`.
    pub fn dijkstra(&self, start: Point, goal: Point) -> (r: Option<usize>)
        requires
            self.wf(),
        ensures
            r == shortest(self@, seq![start], goal),
            answers(self@, seq![start], goal, r),
            start == goal ==> r == Some(0usize),
            start != goal && !(self@.contains_key(start) && self@.contains_key(goal)) ==> r is None,
    {
        if start == goal {
            proof {
                assert(seq![start][0] == start);
                lemma_stay(self@, seq![start], start);
                lemma_answer_is_shortest(self@, seq![start], goal, Some(0usize));
            }
            return Some(0);
        }
        if !self.edges.contains_key(start) || !self.edges.contains_key(goal) {
            proof {
                lemma_unknown_end(self@, start, goal);
                lemma_answer_is_shortest(self@, seq![start], goal, None);
            }
            return None;
        }
        let starts = [start];
        assert(starts@ =~= seq![start]);
        proof {
            if !(self@.contains_key(start) && self@.contains_key(goal)) {
                lemma_unknown_end(self@, start, goal);
            }
        }
        self.dijkstra_many(starts.as_slice(), goal)
    }

    /// Returns the cost of the shortest path from any of the start position to the goal
    ///
    /// If no path exists, returns `None`. Costs are added with saturation: a
    /// path that costs more than `usize::MAX` is told as costing `usize::MAX`.
    pub fn dijkstra_many(&self, start: &[Point], goal: Point) -> (r: Option<usize>)
        requires
            self.wf(),
        ensures
            r == shortest(self@, start@, goal),
            answers(self@, start@, goal, r),
    {
        let ghost g = self@;
        let ghost starts = start@;
        let mut dist: PointMap<usize> = PointMap::new();
        let mut heap = Frontier::new();
        proof {
            lemma_begin(g, starts);
        }

        let mut k: usize = 0;
        while k < start.len()
            invariant
                k <= start.len(),
                starts == start@,
                heap.wf(),
                consistent(g, starts, k as int, dist@, heap@, Set::empty(), Set::empty()),
            decreases start.len() - k,
        {
            let s = start[k];
            proof {
                lemma_seed(g, starts, k as int, dist@, heap@);
            }
            dist.insert(s, 0);
            heap.push(State { cost: 0, node: s });
            k += 1;
        }

        let ghost mut settled = Set::<Point>::empty();
        let ghost space = search_space(g, starts);
        proof {
            self.lemma_finite();
            vstd::seq_lib::seq_to_set_is_finite(starts);
        }
        loop
            invariant
                g == self@,
                starts == start@,
                closed_under_edges(g),
                space == search_space(g, starts),
                space.finite(),
                heap.wf(),
                consistent(g, starts, starts.len() as int, dist@, heap@, settled, settled),
                !settled.contains(goal),
            decreases space.difference(settled).len(), heap@.len(),
        {
            let ghost before = heap@;
            let State { cost, node } = match heap.pop() {
                Some(state) => state,
                None => {
                    proof {
                        lemma_exhausted(g, starts, dist@, heap@, settled, goal);
                        lemma_answer_is_shortest(g, starts, goal, None);
                    }
                    return None;
                },
            };
            let ghost popped = State { cost, node };
            let known: usize = match dist.get(node) {
                Some(d) => *d,
                None => usize::MAX,
            };
            if cost > known {
                // already found a shorter path to this node
                proof {
                    lemma_discard(g, starts, dist@, before, settled, popped);
                }
            } else {
                proof {
                    assert(frontier_at_least(before, cost as int));
                }
                if node == goal {
                    proof {
                        lemma_found(g, starts, dist@, before, settled, popped);
                        lemma_answer_is_shortest(g, starts, goal, Some(cost));
                    }
                    return Some(cost);
                }
                let ghost done = settled;
                let ghost at_start = heap@;
                proof {
                    lemma_settle(g, starts, dist@, before, settled, popped);
                    settled = settled.insert(node);
                }
                if let Some(neighbours) = self.edges.get(node) {
                    let mut i: usize = 0;
                    while i < neighbours.len()
                        invariant
                            g == self@,
                            closed_under_edges(g),
                            g.contains_key(node),
                            neighbours@ == g[node],
                            i <= neighbours.len(),
                            heap.wf(),
                            relaxing(
                                g,
                                starts,
                                dist@,
                                heap@,
                                settled,
                                done,
                                node,
                                cost,
                                i as int,
                                at_start,
                            ),
                        decreases neighbours.len() - i,
                    {
                        let (neighbour, weight) = neighbours[i];
                        let next_cost = if cost > usize::MAX - weight {
                            usize::MAX
                        } else {
                            cost + weight
                        };
                        let lower = match dist.get(neighbour) {
                            Some(d) => next_cost < *d,
                            None => true,
                        };
                        if lower {
                            proof {
                                lemma_relax_lower(
                                    g,
                                    starts,
                                    dist@,
                                    heap@,
                                    settled,
                                    done,
                                    node,
                                    cost,
                                    i as int,
                                    at_start,
                                );
                            }
                            dist.insert(neighbour, next_cost);
                            heap.push(State { cost: next_cost, node: neighbour });
                        } else {
                            proof {
                                lemma_relax_keep(
                                    g,
                                    starts,
                                    dist@,
                                    heap@,
                                    settled,
                                    done,
                                    node,
                                    cost,
                                    i as int,
                                    at_start,
                                );
                            }
                        }
                        i += 1;
                    }
                    proof {
                        lemma_settled(
                            g,
                            starts,
                            dist@,
                            heap@,
                            settled,
                            done,
                            node,
                            cost,
                            i as int,
                            at_start,
                        );
                    }
                } else {
                    proof {
                        lemma_settled(
                            g,
                            starts,
                            dist@,
                            heap@,
                            settled,
                            done,
                            node,
                            cost,
                            0,
                            at_start,
                        );
                    }
                }
                proof {
                    if done.contains(node) {
                        assert(settled =~= done);
                    } else {
                        assert(space.contains(node));
                        assert(space.difference(settled) =~= space.difference(done).remove(node));
                    }
                }
            }
        }
    }
}

impl Default for Graph {
    /// The empty graph.
    fn default() -> (g: Self)
        ensures
            g.wf(),
            g@ == Map::<Point, Seq<(Point, usize)>>::empty(),
    {
        Self::new()
    }
}

} // verus!
