//! A flood over open points of the lattice: how many steps between
//! neighbours it takes from the nearest of some starts to each point.

use crate::frontier::State;
use crate::grid::Point;
use crate::point_map::{all_points, lemma_points_finite, PointMap};
use crate::search::{
    consistent, frontier_at_least, lemma_begin, lemma_flooded, lemma_relax_keep, lemma_relax_lower,
    lemma_seed, lemma_settle, lemma_settled, relaxing, waiting,
};
use crate::walks::{clamped, closed_under_edges, lemma_answer_is_shortest, shortest, Adjacency};
use std::collections::VecDeque;
use vstd::multiset::Multiset;
use vstd::prelude::*;
use vstd::seq_lib::{to_multiset_build, to_multiset_contains, to_multiset_remove};

verus! {

/// The steps from `p` to those of its first `n` neighbours, to the north,
/// east, south and west, that are open; each costs one.
pub open spec fn hops_among(open: Set<Point>, p: Point, n: nat) -> Seq<(Point, usize)>
    decreases n,
{
    if n == 0 || n > 4 {
        Seq::empty()
    } else {
        let rest = hops_among(open, p, (n - 1) as nat);
        if open.contains(p.spec_neighbours4()[n - 1]) {
            rest.push((p.spec_neighbours4()[n - 1], 1usize))
        } else {
            rest
        }
    }
}

/// The graph of the steps between neighbours onto open points; a step from
/// a point that is not open is a step too.
pub open spec fn hop_graph(open: Set<Point>) -> Adjacency {
    Map::total(|p: Point| hops_among(open, p, 4))
}

/// The hops to fewer neighbours come first among the hops to more.
pub proof fn lemma_hops_prefix(open: Set<Point>, p: Point, m: nat, n: nat, i: int)
    requires
        m <= n <= 4,
        0 <= i < hops_among(open, p, m).len(),
    ensures
        hops_among(open, p, m).len() <= hops_among(open, p, n).len(),
        hops_among(open, p, n)[i] == hops_among(open, p, m)[i],
    decreases n,
{
    if m < n {
        lemma_hops_prefix(open, p, m, (n - 1) as nat, i);
    }
}

/// There are no fewer hops to more neighbours.
pub proof fn lemma_hops_len(open: Set<Point>, p: Point, m: nat, n: nat)
    requires
        m <= n <= 4,
    ensures
        hops_among(open, p, m).len() <= hops_among(open, p, n).len(),
    decreases n,
{
    if m < n {
        lemma_hops_len(open, p, m, (n - 1) as nat);
    }
}

/// The states that wait in `queue`, each as often as it waits.
pub open spec fn waiting_in(queue: Seq<State>) -> Multiset<State> {
    queue.to_multiset()
}

/// The queue of a flood: every state waits at the cost known for its node,
/// a state costs no more than the next, and all cost `low` or one more.
#[verifier::opaque]
pub open spec fn in_step(queue: Seq<State>, dist: Map<Point, usize>, low: int) -> bool {
    &&& forall|i: int|
        0 <= i < queue.len() ==> dist.contains_key((#[trigger] queue[i]).node) && dist[queue[i].node]
            == queue[i].cost
    &&& forall|i: int, j: int|
        0 <= i <= j < queue.len() ==> (#[trigger] queue[i]).cost <= (#[trigger] queue[j]).cost
    &&& forall|i: int| 0 <= i < queue.len() ==> low <= (#[trigger] queue[i]).cost <= low + 1
}

/// An empty queue is in step.
pub proof fn lemma_in_step_empty(dist: Map<Point, usize>)
    ensures
        in_step(Seq::empty(), dist, 0),
        waiting_in(Seq::empty()) == Multiset::<State>::empty(),
{
    reveal(in_step);
    vstd::seq_lib::to_multiset_len(Seq::<State>::empty());
    vstd::multiset::lemma_multiset_empty_len(Seq::<State>::empty().to_multiset());
}

/// A start that joins a queue of starts keeps it in step.
pub proof fn lemma_in_step_seed(queue: Seq<State>, dist: Map<Point, usize>, s: Point)
    requires
        in_step(queue, dist, 0),
        forall|i: int| 0 <= i < queue.len() ==> (#[trigger] queue[i]).cost == 0,
        forall|p: Point| #[trigger] dist.contains_key(p) ==> dist[p] == 0,
    ensures
        in_step(queue.push(State { cost: 0, node: s }), dist.insert(s, 0), 0),
        waiting_in(queue.push(State { cost: 0, node: s })) == waiting_in(queue).insert(
            State { cost: 0, node: s },
        ),
{
    reveal(in_step);
    to_multiset_build(queue, State { cost: 0, node: s });
    let longer = queue.push(State { cost: 0, node: s });
    assert forall|i: int| 0 <= i < longer.len() implies (#[trigger] longer[i]).cost == 0 by {
        if i < queue.len() {
            assert(longer[i] == queue[i]);
        }
    }
    assert forall|i: int| 0 <= i < longer.len() implies dist.insert(s, 0).contains_key(
        (#[trigger] longer[i]).node,
    ) && dist.insert(s, 0)[longer[i].node] == longer[i].cost by {
        if i < queue.len() {
            assert(longer[i] == queue[i]);
            assert(dist.contains_key(queue[i].node));
        }
    }
}

/// The first state of a queue in step is one of least cost; without it the
/// queue is in step at that cost.
pub proof fn lemma_in_step_pop(queue: Seq<State>, dist: Map<Point, usize>, low: int)
    requires
        in_step(queue, dist, low),
        queue.len() > 0,
    ensures
        in_step(queue.subrange(1, queue.len() as int), dist, queue[0].cost as int),
        frontier_at_least(waiting_in(queue), queue[0].cost as int),
        waiting_in(queue).count(queue[0]) > 0,
        waiting_in(queue.subrange(1, queue.len() as int)) == waiting_in(queue).remove(queue[0]),
        waiting_in(queue.subrange(1, queue.len() as int)).len() < waiting_in(queue).len(),
        dist.contains_key(queue[0].node) && dist[queue[0].node] == queue[0].cost,
{
    reveal(in_step);
    let rest = queue.subrange(1, queue.len() as int);
    assert(rest =~= queue.remove(0));
    to_multiset_remove(queue, 0);
    to_multiset_contains(queue, queue[0]);
    vstd::seq_lib::to_multiset_len(queue);
    vstd::seq_lib::to_multiset_len(rest);
    assert forall|e: State| #[trigger] waiting_in(queue).count(e) > 0 implies queue[0].cost
        <= e.cost by {
        to_multiset_contains(queue, e);
        let i = choose|i: int| 0 <= i < queue.len() && queue[i] == e;
        assert(queue[0].cost <= queue[i].cost);
    }
    assert forall|i: int| 0 <= i < rest.len() implies #[trigger] rest[i] == queue[i + 1] by {}
    assert forall|i: int| 0 <= i < rest.len() implies queue[0].cost <= (#[trigger] rest[i]).cost
        <= queue[0].cost + 1 by {
        assert(rest[i] == queue[i + 1]);
        assert(queue[0].cost <= queue[i + 1].cost);
    }
    assert forall|i: int, j: int| 0 <= i <= j < rest.len() implies (#[trigger] rest[i]).cost <= (
    #[trigger] rest[j]).cost by {
        assert(rest[i] == queue[i + 1] && rest[j] == queue[j + 1]);
    }
    assert forall|i: int| 0 <= i < rest.len() implies dist.contains_key((#[trigger] rest[i]).node)
        && dist[rest[i].node] == rest[i].cost by {
        assert(rest[i] == queue[i + 1]);
    }
}

/// A point found one step on joins the queue at the back and keeps it in
/// step.
pub proof fn lemma_in_step_push(queue: Seq<State>, dist: Map<Point, usize>, low: int, p: Point)
    requires
        in_step(queue, dist, low),
        !dist.contains_key(p),
        0 <= low <= usize::MAX,
    ensures
        in_step(
            queue.push(State { cost: clamped(low + 1) as usize, node: p }),
            dist.insert(p, clamped(low + 1) as usize),
            low,
        ),
        waiting_in(queue.push(State { cost: clamped(low + 1) as usize, node: p })) == waiting_in(
            queue,
        ).insert(State { cost: clamped(low + 1) as usize, node: p }),
{
    reveal(in_step);
    let e = State { cost: clamped(low + 1) as usize, node: p };
    let longer = queue.push(e);
    let known = dist.insert(p, clamped(low + 1) as usize);
    to_multiset_build(queue, e);
    assert forall|i: int| 0 <= i < longer.len() implies known.contains_key(
        (#[trigger] longer[i]).node,
    ) && known[longer[i].node] == longer[i].cost by {
        if i < queue.len() {
            assert(longer[i] == queue[i]);
            assert(dist.contains_key(queue[i].node));
        }
    }
    assert forall|i: int, j: int| 0 <= i <= j < longer.len() implies (#[trigger] longer[i]).cost
        <= (#[trigger] longer[j]).cost by {
        if j < queue.len() {
            assert(longer[i] == queue[i] && longer[j] == queue[j]);
        } else if i < queue.len() {
            assert(longer[i] == queue[i]);
        }
    }
    assert forall|i: int| 0 <= i < longer.len() implies low <= (#[trigger] longer[i]).cost <= low
        + 1 by {
        if i < queue.len() {
            assert(longer[i] == queue[i]);
        }
    }
}

/// While the edges of a node taken at cost `c` are relaxed, every known
/// point is known at one more than `c` at most.
pub proof fn lemma_known_near(
    g: Adjacency,
    starts: Seq<Point>,
    dist: Map<Point, usize>,
    queue: Seq<State>,
    settled: Set<Point>,
    done: Set<Point>,
    v: Point,
    c: usize,
    n: int,
    at_start: Multiset<State>,
    p: Point,
)
    requires
        relaxing(g, starts, dist, waiting_in(queue), settled, done, v, c, n, at_start),
        in_step(queue, dist, c as int),
        dist.contains_key(p),
    ensures
        dist[p] <= clamped(c + 1),
{
    reveal(in_step);
    reveal(relaxing);
    reveal(consistent);
    if !settled.contains(p) {
        let e = waiting(dist, p);
        assert(waiting_in(queue).count(e) > 0);
        to_multiset_contains(queue, e);
        let i = choose|i: int| 0 <= i < queue.len() && queue[i] == e;
        assert(queue[i].cost <= c + 1);
    }
}

/// The steps from the nearest of `start` to every point that can be reached
/// by steps between neighbours onto the points that `open` holds; a point
/// that cannot be reached has none.
pub fn flood(open: &PointMap<bool>, start: &[Point]) -> (dist: PointMap<usize>)
    requires
        forall|p: Point| #[trigger] open@.contains_key(p) ==> p.has_neighbours(),
        forall|i: int| 0 <= i < start@.len() ==> (#[trigger] start@[i]).has_neighbours(),
    ensures
        forall|p: Point|
            shortest(hop_graph(open@.dom()), start@, p) == (if #[trigger] dist@.contains_key(p) {
                Some(dist@[p])
            } else {
                None
            }),
{
    let ghost g = hop_graph(open@.dom());
    let ghost starts = start@;
    let mut dist: PointMap<usize> = PointMap::new();
    let mut queue: VecDeque<State> = VecDeque::new();

    let mut k: usize = 0;
    proof {
        lemma_in_step_empty(dist@);
        lemma_begin(g, starts);
        assert(queue@ =~= Seq::<State>::empty());
    }
    while k < start.len()
        invariant
            k <= start.len(),
            starts == start@,
            forall|i: int| 0 <= i < start@.len() ==> (#[trigger] start@[i]).has_neighbours(),
            consistent(g, starts, k as int, dist@, waiting_in(queue@), Set::empty(), Set::empty()),
            in_step(queue@, dist@, 0),
            forall|i: int| 0 <= i < queue@.len() ==> (#[trigger] queue@[i]).cost == 0,
            forall|p: Point| #[trigger] dist@.contains_key(p) ==> dist@[p] == 0 && p.has_neighbours(),
        decreases start.len() - k,
    {
        let s = start[k];
        proof {
            lemma_seed(g, starts, k as int, dist@, waiting_in(queue@));
            lemma_in_step_seed(queue@, dist@, s);
        }
        dist.insert(s, 0);
        queue.push_back(State { cost: 0, node: s });
        k += 1;
    }

    let ghost mut settled = Set::<Point>::empty();
    let ghost mut low: int = 0;
    proof {
        lemma_points_finite();
    }
    loop
        invariant
            g == hop_graph(open@.dom()),
            starts == start@,
            closed_under_edges(g),
            all_points().finite(),
            forall|p: Point| #[trigger] open@.contains_key(p) ==> p.has_neighbours(),
            forall|p: Point| #[trigger] dist@.contains_key(p) ==> p.has_neighbours(),
            consistent(g, starts, starts.len() as int, dist@, waiting_in(queue@), settled, settled),
            in_step(queue@, dist@, low),
        ensures
            queue@.len() == 0,
            consistent(g, starts, starts.len() as int, dist@, waiting_in(queue@), settled, settled),
        decreases all_points().difference(settled).len(), waiting_in(queue@).len(),
    {
        let ghost before_queue = queue@;
        let ghost before = waiting_in(queue@);
        let State { cost: distance, node: current } = match queue.pop_front() {
            Some(state) => state,
            None => {
                break ;
            },
        };
        let ghost popped = State { cost: distance, node: current };
        let ghost done = settled;
        let ghost at_start = waiting_in(queue@);
        proof {
            assert(before_queue[0] == popped);
            lemma_in_step_pop(before_queue, dist@, low);
            lemma_settle(g, starts, dist@, before, settled, popped);
            settled = settled.insert(current);
            low = distance as int;
        }
        let around = current.neighbours4();
        let mut n: usize = 0;
        let ghost mut hops: nat = 0;
        while n < 4
            invariant
                n <= 4,
                g == hop_graph(open@.dom()),
                closed_under_edges(g),
                around@ == current.spec_neighbours4(),
                current.has_neighbours(),
                forall|p: Point| #[trigger] open@.contains_key(p) ==> p.has_neighbours(),
                forall|p: Point| #[trigger] dist@.contains_key(p) ==> p.has_neighbours(),
                hops == hops_among(open@.dom(), current, n as nat).len(),
                in_step(queue@, dist@, distance as int),
                relaxing(
                    g,
                    starts,
                    dist@,
                    waiting_in(queue@),
                    settled,
                    done,
                    current,
                    distance,
                    hops as int,
                    at_start,
                ),
            decreases 4 - n,
        {
            let neighbour = around[n];
            let ghost hops_before = hops_among(open@.dom(), current, n as nat);
            let ghost hops_after = hops_among(open@.dom(), current, (n + 1) as nat);
            if open.contains_key(neighbour) {
                proof {
                    assert(hops_after == hops_before.push((neighbour, 1usize)));
                    lemma_hops_len(open@.dom(), current, (n + 1) as nat, 4);
                    lemma_hops_prefix(open@.dom(), current, (n + 1) as nat, 4, hops as int);
                    assert(g[current][hops as int] == (neighbour, 1usize));
                }
                if !dist.contains_key(neighbour) {
                    proof {
                        lemma_relax_lower(
                            g,
                            starts,
                            dist@,
                            waiting_in(queue@),
                            settled,
                            done,
                            current,
                            distance,
                            hops as int,
                            at_start,
                        );
                        lemma_in_step_push(queue@, dist@, distance as int, neighbour);
                    }
                    let next: usize = if distance == usize::MAX {
                        usize::MAX
                    } else {
                        distance + 1
                    };
                    dist.insert(neighbour, next);
                    queue.push_back(State { cost: next, node: neighbour });
                } else {
                    proof {
                        if dist@.contains_key(neighbour) {
                            lemma_known_near(
                                g,
                                starts,
                                dist@,
                                queue@,
                                settled,
                                done,
                                current,
                                distance,
                                hops as int,
                                at_start,
                                neighbour,
                            );
                        }
                        lemma_relax_keep(
                            g,
                            starts,
                            dist@,
                            waiting_in(queue@),
                            settled,
                            done,
                            current,
                            distance,
                            hops as int,
                            at_start,
                        );
                    }
                }
                proof {
                    hops = hops + 1;
                }
            } else {
                proof {
                    assert(hops_after == hops_before);
                }
            }
            n += 1;
        }
        proof {
            lemma_settled(
                g,
                starts,
                dist@,
                waiting_in(queue@),
                settled,
                done,
                current,
                distance,
                hops as int,
                at_start,
            );
            if done.contains(current) {
                assert(settled =~= done);
            } else {
                assert(all_points().contains(current));
                assert(all_points().difference(settled) =~= all_points().difference(done).remove(
                    current,
                ));
            }
        }
    }
    proof {
        vstd::seq_lib::to_multiset_len(queue@);
        assert forall|p: Point|
            shortest(g, starts, p) == (if #[trigger] dist@.contains_key(p) {
                Some(dist@[p])
            } else {
                None
            }) by {
            lemma_flooded(g, starts, dist@, waiting_in(queue@), settled, p);
            lemma_answer_is_shortest(
                g,
                starts,
                p,
                if dist@.contains_key(p) {
                    Some(dist@[p])
                } else {
                    None
                },
            );
        }
    }
    dist
}

/// The lists of the points next to each point, as plain values.
pub open spec fn lists_view(next: Map<Point, Vec<Point>>) -> Map<Point, Seq<Point>> {
    Map::new(|p: Point| next.contains_key(p), |p: Point| next[p]@)
}

/// The graph in which a step leads from each point to each of the points
/// that `next` lists for it, and costs one.
pub open spec fn step_graph(next: Map<Point, Seq<Point>>) -> Adjacency {
    Map::new(
        |p: Point| next.contains_key(p),
        |p: Point| Seq::new(next[p].len(), |i: int| (next[p][i], 1usize)),
    )
}

/// Every point that `next` lists has a list of its own.
pub open spec fn lists_closed(next: Map<Point, Seq<Point>>) -> bool {
    forall|p: Point, i: int|
        next.contains_key(p) && 0 <= i < next[p].len() ==> next.contains_key(#[trigger] next[p][i])
}

/// The steps from the nearest of `start` to every point that can be reached
/// by steps from a point to one that `next` lists for it; a point that
/// cannot be reached has none.
pub fn flood_lists(next: &PointMap<Vec<Point>>, start: &[Point]) -> (dist: PointMap<usize>)
    requires
        lists_closed(lists_view(next@)),
    ensures
        forall|p: Point|
            shortest(step_graph(lists_view(next@)), start@, p) == (if #[trigger] dist@.contains_key(
                p,
            ) {
                Some(dist@[p])
            } else {
                None
            }),
{
    let ghost lists = lists_view(next@);
    let ghost g = step_graph(lists);
    let ghost starts = start@;
    let mut dist: PointMap<usize> = PointMap::new();
    let mut queue: VecDeque<State> = VecDeque::new();

    let mut k: usize = 0;
    proof {
        lemma_in_step_empty(dist@);
        lemma_begin(g, starts);
        assert(queue@ =~= Seq::<State>::empty());
        assert(closed_under_edges(g)) by {
            assert forall|p: Point, i: int|
                g.contains_key(p) && 0 <= i < g[p].len() implies g.contains_key(
                (#[trigger] g[p][i]).0,
            ) by {
                assert(lists.contains_key(lists[p][i]));
            }
        }
    }
    while k < start.len()
        invariant
            k <= start.len(),
            starts == start@,
            consistent(g, starts, k as int, dist@, waiting_in(queue@), Set::empty(), Set::empty()),
            in_step(queue@, dist@, 0),
            forall|i: int| 0 <= i < queue@.len() ==> (#[trigger] queue@[i]).cost == 0,
            forall|p: Point| #[trigger] dist@.contains_key(p) ==> dist@[p] == 0,
        decreases start.len() - k,
    {
        let s = start[k];
        proof {
            lemma_seed(g, starts, k as int, dist@, waiting_in(queue@));
            lemma_in_step_seed(queue@, dist@, s);
        }
        dist.insert(s, 0);
        queue.push_back(State { cost: 0, node: s });
        k += 1;
    }

    let ghost mut settled = Set::<Point>::empty();
    let ghost mut low: int = 0;
    proof {
        lemma_points_finite();
    }
    loop
        invariant
            lists == lists_view(next@),
            g == step_graph(lists),
            starts == start@,
            closed_under_edges(g),
            all_points().finite(),
            consistent(g, starts, starts.len() as int, dist@, waiting_in(queue@), settled, settled),
            in_step(queue@, dist@, low),
        ensures
            queue@.len() == 0,
            consistent(g, starts, starts.len() as int, dist@, waiting_in(queue@), settled, settled),
        decreases all_points().difference(settled).len(), waiting_in(queue@).len(),
    {
        let ghost before_queue = queue@;
        let ghost before = waiting_in(queue@);
        let State { cost: distance, node: current } = match queue.pop_front() {
            Some(state) => state,
            None => {
                break ;
            },
        };
        let ghost popped = State { cost: distance, node: current };
        let ghost done = settled;
        let ghost at_start = waiting_in(queue@);
        proof {
            assert(before_queue[0] == popped);
            lemma_in_step_pop(before_queue, dist@, low);
            lemma_settle(g, starts, dist@, before, settled, popped);
            settled = settled.insert(current);
            low = distance as int;
        }
        match next.get(current) {
            Some(around) => {
                let mut n: usize = 0;
                while n < around.len()
                    invariant
                        n <= around.len(),
                        lists == lists_view(next@),
                        g == step_graph(lists),
                        closed_under_edges(g),
                        lists.contains_key(current),
                        lists[current] == around@,
                        in_step(queue@, dist@, distance as int),
                        relaxing(
                            g,
                            starts,
                            dist@,
                            waiting_in(queue@),
                            settled,
                            done,
                            current,
                            distance,
                            n as int,
                            at_start,
                        ),
                    decreases around.len() - n,
                {
                    let neighbour = around[n];
                    proof {
                        assert(g[current][n as int] == (neighbour, 1usize));
                    }
                    if !dist.contains_key(neighbour) {
                        proof {
                            lemma_relax_lower(
                                g,
                                starts,
                                dist@,
                                waiting_in(queue@),
                                settled,
                                done,
                                current,
                                distance,
                                n as int,
                                at_start,
                            );
                            lemma_in_step_push(queue@, dist@, distance as int, neighbour);
                        }
                        let next: usize = if distance == usize::MAX {
                            usize::MAX
                        } else {
                            distance + 1
                        };
                        dist.insert(neighbour, next);
                        queue.push_back(State { cost: next, node: neighbour });
                    } else {
                        proof {
                            if dist@.contains_key(neighbour) {
                                lemma_known_near(
                                    g,
                                    starts,
                                    dist@,
                                    queue@,
                                    settled,
                                    done,
                                    current,
                                    distance,
                                    n as int,
                                    at_start,
                                    neighbour,
                                );
                            }
                            lemma_relax_keep(
                                g,
                                starts,
                                dist@,
                                waiting_in(queue@),
                                settled,
                                done,
                                current,
                                distance,
                                n as int,
                                at_start,
                            );
                        }
                    }
                    n += 1;
                }
                proof {
                    lemma_settled(
                        g,
                        starts,
                        dist@,
                        waiting_in(queue@),
                        settled,
                        done,
                        current,
                        distance,
                        n as int,
                        at_start,
                    );
                }
            },
            None => {
                proof {
                    lemma_settled(
                        g,
                        starts,
                        dist@,
                        waiting_in(queue@),
                        settled,
                        done,
                        current,
                        distance,
                        0,
                        at_start,
                    );
                }
            },
        }
        proof {
            if done.contains(current) {
                assert(settled =~= done);
            } else {
                assert(all_points().contains(current));
                assert(all_points().difference(settled) =~= all_points().difference(done).remove(
                    current,
                ));
            }
        }
    }
    proof {
        vstd::seq_lib::to_multiset_len(queue@);
        assert forall|p: Point|
            shortest(g, starts, p) == (if #[trigger] dist@.contains_key(p) {
                Some(dist@[p])
            } else {
                None
            }) by {
            lemma_flooded(g, starts, dist@, waiting_in(queue@), settled, p);
            lemma_answer_is_shortest(
                g,
                starts,
                p,
                if dist@.contains_key(p) {
                    Some(dist@[p])
                } else {
                    None
                },
            );
        }
    }
    dist
}

} // verus!
