//! Walks through a weighted directed graph, their costs, and the least cost
//! at which a goal can be reached.

use crate::grid::Point;
use vstd::prelude::*;

verus! {

/// The model of a graph: each known node with the list of its outgoing
/// edges, an edge being the node it leads to and its cost.
pub type Adjacency = Map<Point, Seq<(Point, usize)>>;

/// One directed edge of a graph.
pub struct Edge {
    pub from: Point,
    pub to: Point,
    pub cost: usize,
}

/// `e` is among the outgoing edges that `g` lists for `e.from`.
pub open spec fn has_edge(g: Adjacency, e: Edge) -> bool {
    g.contains_key(e.from) && g[e.from].contains((e.to, e.cost))
}

/// Every edge of `g` leads to a node that `g` knows.
pub open spec fn closed_under_edges(g: Adjacency) -> bool {
    forall|p: Point, i: int|
        g.contains_key(p) && 0 <= i < g[p].len() ==> g.contains_key((#[trigger] g[p][i]).0)
}

/// `w` is a chain of edges of `g` that leads from `src` to `dst`. The empty
/// chain leads from any point to itself, known to `g` or not.
pub open spec fn is_walk(g: Adjacency, src: Point, w: Seq<Edge>, dst: Point) -> bool
    decreases w.len(),
{
    if w.len() == 0 {
        src == dst
    } else {
        &&& has_edge(g, w.last())
        &&& w.last().to == dst
        &&& is_walk(g, src, w.drop_last(), w.last().from)
    }
}

/// The sum of the costs of the edges of `w`.
pub open spec fn walk_cost(w: Seq<Edge>) -> nat
    decreases w.len(),
{
    if w.len() == 0 {
        0
    } else {
        walk_cost(w.drop_last()) + w.last().cost as nat
    }
}

/// The cost `c` as a query tells it: a cost above `usize::MAX` is told as
/// `usize::MAX`.
pub open spec fn clamped(c: int) -> int {
    if c >= usize::MAX {
        usize::MAX as int
    } else {
        c
    }
}

/// Some walk leads from one of `starts` to `goal`, and `c` is its cost as
/// a query tells it.
pub open spec fn reaches(g: Adjacency, starts: Seq<Point>, goal: Point, c: int) -> bool {
    exists|s: Point, w: Seq<Edge>|
        starts.contains(s) && #[trigger] is_walk(g, s, w, goal) && clamped(walk_cost(w) as int)
            == c
}

/// `d` is the least cost of a walk from one of `starts` to `goal`, as a
/// query tells it.
pub open spec fn is_distance(g: Adjacency, starts: Seq<Point>, goal: Point, d: int) -> bool {
    &&& reaches(g, starts, goal, d)
    &&& forall|c: int| #[trigger] reaches(g, starts, goal, c) ==> d <= c
}

/// The least cost of a walk from one of `starts` to `goal`, told as
/// `usize::MAX` where it is more; `None` where no walk leads there.
pub open spec fn shortest(g: Adjacency, starts: Seq<Point>, goal: Point) -> Option<usize> {
    if exists|c: int| #[trigger] reaches(g, starts, goal, c) {
        Some((choose|d: int| is_distance(g, starts, goal, d)) as usize)
    } else {
        None
    }
}

/// What a shortest-path query answers: the least cost of a walk, told as
/// `usize::MAX` where it is more, and `None` if there is no walk at all.
pub open spec fn answers(g: Adjacency, starts: Seq<Point>, goal: Point, r: Option<usize>) -> bool {
    match r {
        Some(d) => is_distance(g, starts, goal, d as int),
        None => forall|c: int| !#[trigger] reaches(g, starts, goal, c),
    }
}

/// The lesser of two answers, `None` standing for "no path".
pub open spec fn nearer(a: Option<usize>, b: Option<usize>) -> Option<usize> {
    match (a, b) {
        (Some(x), Some(y)) => if x <= y {
            a
        } else {
            b
        },
        (Some(_), None) => a,
        (None, _) => b,
    }
}

/// The empty walk leads from a point to itself at no cost.
pub proof fn lemma_stay(g: Adjacency, starts: Seq<Point>, p: Point)
    requires
        starts.contains(p),
    ensures
        reaches(g, starts, p, 0),
{
    assert(is_walk(g, p, Seq::<Edge>::empty(), p));
}

/// A walk followed by an edge that leaves its end is a walk to the end of
/// that edge, and costs the sum of both.
pub proof fn lemma_extend(g: Adjacency, src: Point, w: Seq<Edge>, e: Edge)
    requires
        is_walk(g, src, w, e.from),
        has_edge(g, e),
    ensures
        is_walk(g, src, w.push(e), e.to),
        walk_cost(w.push(e)) == walk_cost(w) + e.cost,
{
    assert(w.push(e).drop_last() =~= w);
    assert(w.push(e).last() == e);
}

/// A cost that a query tells is none below zero and none above
/// `usize::MAX`.
pub proof fn lemma_reaches_bounded(g: Adjacency, starts: Seq<Point>, goal: Point, c: int)
    requires
        reaches(g, starts, goal, c),
    ensures
        0 <= c <= usize::MAX,
{
}

/// Where one of `starts` reaches `via` at cost `c`, and an edge of cost
/// `e.cost` leaves `via`, it reaches the end of that edge at the sum, told
/// as `usize::MAX` where it is more.
pub proof fn lemma_reaches_step(g: Adjacency, starts: Seq<Point>, c: int, e: Edge)
    requires
        reaches(g, starts, e.from, c),
        has_edge(g, e),
    ensures
        reaches(g, starts, e.to, clamped(c + e.cost)),
{
    let (s, w) = choose|s: Point, w: Seq<Edge>|
        starts.contains(s) && #[trigger] is_walk(g, s, w, e.from) && clamped(walk_cost(w) as int)
            == c;
    lemma_extend(g, s, w, e);
    assert(is_walk(g, s, w.push(e), e.to));
}

/// A walk that is not empty ends in a node of the graph, where every edge
/// leads to one, and starts in one.
pub proof fn lemma_walk_ends(g: Adjacency, src: Point, w: Seq<Edge>, dst: Point)
    requires
        closed_under_edges(g),
        is_walk(g, src, w, dst),
        w.len() > 0,
    ensures
        g.contains_key(src),
        g.contains_key(dst),
    decreases w.len(),
{
    let e = w.last();
    let i = choose|i: int| 0 <= i < g[e.from].len() && g[e.from][i] == (e.to, e.cost);
    assert(g.contains_key(g[e.from][i].0));
    if w.len() > 1 {
        lemma_walk_ends(g, src, w.drop_last(), e.from);
    } else {
        reveal_with_fuel(is_walk, 2);
    }
}

/// Between two different points of which one is unknown to the graph there
/// is no walk: a query from one to the other answers `None`.
pub proof fn lemma_unknown_end(g: Adjacency, start: Point, goal: Point)
    requires
        closed_under_edges(g),
        start != goal,
        !g.contains_key(start) || !g.contains_key(goal),
    ensures
        answers(g, seq![start], goal, None),
        shortest(g, seq![start], goal) is None,
{
    lemma_answer_is_shortest(g, seq![start], goal, None);
    assert forall|c: int| !#[trigger] reaches(g, seq![start], goal, c) by {
        if reaches(g, seq![start], goal, c) {
            let (s, w) = choose|s: Point, w: Seq<Edge>|
                seq![start].contains(s) && #[trigger] is_walk(g, s, w, goal) && clamped(
                    walk_cost(w) as int,
                ) == c;
            assert(s == start);
            lemma_walk_ends(g, s, w, goal);
        }
    }
}

/// If some cost is reached, a least one is.
pub proof fn lemma_least_exists(g: Adjacency, starts: Seq<Point>, goal: Point, c: int)
    requires
        reaches(g, starts, goal, c),
    ensures
        exists|d: int| d <= c && #[trigger] is_distance(g, starts, goal, d),
    decreases c,
{
    lemma_reaches_bounded(g, starts, goal, c);
    if exists|b: int| b < c && #[trigger] reaches(g, starts, goal, b) {
        let b = choose|b: int| b < c && #[trigger] reaches(g, starts, goal, b);
        lemma_reaches_bounded(g, starts, goal, b);
        lemma_least_exists(g, starts, goal, b);
        let d = choose|d: int| d <= b && #[trigger] is_distance(g, starts, goal, d);
        assert(d <= c && is_distance(g, starts, goal, d));
    } else {
        assert(is_distance(g, starts, goal, c));
    }
}

/// The least cost that a query tells is no more than the cost of any walk
/// from a start to the goal, and no more than `usize::MAX`.
pub proof fn lemma_distance_below_walks(
    g: Adjacency,
    starts: Seq<Point>,
    goal: Point,
    d: int,
    s: Point,
    w: Seq<Edge>,
)
    requires
        is_distance(g, starts, goal, d),
        starts.contains(s),
        is_walk(g, s, w, goal),
    ensures
        d <= walk_cost(w),
        d <= usize::MAX,
{
    assert(reaches(g, starts, goal, clamped(walk_cost(w) as int)));
}

/// Where a walk leads from a start to the goal, a query answers a cost,
/// which is no more than the cost of that walk.
pub proof fn lemma_walk_answered(
    g: Adjacency,
    starts: Seq<Point>,
    goal: Point,
    s: Point,
    w: Seq<Edge>,
)
    requires
        starts.contains(s),
        is_walk(g, s, w, goal),
    ensures
        shortest(g, starts, goal) matches Some(d) && d <= walk_cost(w),
{
    let r = shortest(g, starts, goal);
    assert(reaches(g, starts, goal, clamped(walk_cost(w) as int)));
    lemma_answer_is_shortest(g, starts, goal, r);
    lemma_distance_below_walks(g, starts, goal, r.unwrap() as int, s, w);
}

/// The least cost is unique.
pub proof fn lemma_distance_unique(g: Adjacency, starts: Seq<Point>, goal: Point, a: int, b: int)
    requires
        is_distance(g, starts, goal, a),
        is_distance(g, starts, goal, b),
    ensures
        a == b,
{
}

/// Exactly one answer is right for each query, and `shortest` is that answer.
pub proof fn lemma_answer_is_shortest(
    g: Adjacency,
    starts: Seq<Point>,
    goal: Point,
    r: Option<usize>,
)
    ensures
        answers(g, starts, goal, r) <==> r == shortest(g, starts, goal),
{
    if exists|c: int| #[trigger] reaches(g, starts, goal, c) {
        let c = choose|c: int| #[trigger] reaches(g, starts, goal, c);
        lemma_least_exists(g, starts, goal, c);
        let d = choose|d: int| is_distance(g, starts, goal, d);
        assert(is_distance(g, starts, goal, d));
        lemma_reaches_bounded(g, starts, goal, d);
        if let Some(x) = r {
            if answers(g, starts, goal, r) {
                lemma_distance_unique(g, starts, goal, x as int, d);
            }
        }
    }
}

/// A query has one answer only: asked again of the same graph, it answers
/// the same.
pub proof fn lemma_answer_unique(
    g: Adjacency,
    starts: Seq<Point>,
    goal: Point,
    first: Option<usize>,
    second: Option<usize>,
)
    requires
        answers(g, starts, goal, first),
        answers(g, starts, goal, second),
    ensures
        first == second,
{
    lemma_answer_is_shortest(g, starts, goal, first);
    lemma_answer_is_shortest(g, starts, goal, second);
}

/// From a point to itself the least cost is zero, known to the graph or not.
pub proof fn lemma_stay_is_shortest(g: Adjacency, p: Point)
    ensures
        shortest(g, seq![p], p) == Some(0usize),
{
    assert(seq![p][0] == p);
    lemma_stay(g, seq![p], p);
    lemma_answer_is_shortest(g, seq![p], p, Some(0usize));
}

/// Searching from two lists of starts at once answers the lesser of what
/// the searches from each list answer.
pub proof fn lemma_starts_joined(g: Adjacency, a: Seq<Point>, b: Seq<Point>, goal: Point)
    ensures
        shortest(g, a + b, goal) == nearer(shortest(g, a, goal), shortest(g, b, goal)),
{
    let ra = shortest(g, a, goal);
    let rb = shortest(g, b, goal);
    lemma_answer_is_shortest(g, a, goal, ra);
    lemma_answer_is_shortest(g, b, goal, rb);
    assert forall|c: int| #[trigger]
        reaches(g, a + b, goal, c) implies reaches(g, a, goal, c) || reaches(g, b, goal, c) by {
        let (s, w) = choose|s: Point, w: Seq<Edge>|
            (a + b).contains(s) && #[trigger] is_walk(g, s, w, goal) && clamped(walk_cost(w) as int)
                == c;
        let i = choose|i: int| 0 <= i < (a + b).len() && (a + b)[i] == s;
        if i < a.len() {
            assert(a[i] == s);
        } else {
            assert(b[i - a.len()] == s);
        }
    }
    assert forall|c: int| #[trigger] reaches(g, a, goal, c) implies reaches(g, a + b, goal, c) by {
        let (s, w) = choose|s: Point, w: Seq<Edge>|
            a.contains(s) && #[trigger] is_walk(g, s, w, goal) && clamped(walk_cost(w) as int)
                == c;
        let i = choose|i: int| 0 <= i < a.len() && a[i] == s;
        assert((a + b)[i] == s);
    }
    assert forall|c: int| #[trigger] reaches(g, b, goal, c) implies reaches(g, a + b, goal, c) by {
        let (s, w) = choose|s: Point, w: Seq<Edge>|
            b.contains(s) && #[trigger] is_walk(g, s, w, goal) && clamped(walk_cost(w) as int)
                == c;
        let i = choose|i: int| 0 <= i < b.len() && b[i] == s;
        assert((a + b)[a.len() + i] == s);
    }
    lemma_answer_is_shortest(g, a + b, goal, nearer(ra, rb));
}

/// Searching from two starts at once answers the lesser of what the
/// searches from each of them answer.
pub proof fn lemma_two_starts(g: Adjacency, s1: Point, s2: Point, goal: Point)
    ensures
        shortest(g, seq![s1, s2], goal) == nearer(
            shortest(g, seq![s1], goal),
            shortest(g, seq![s2], goal),
        ),
{
    assert(seq![s1] + seq![s2] =~= seq![s1, s2]);
    lemma_starts_joined(g, seq![s1], seq![s2], goal);
}

/// Where every edge of `g` is an edge of `h`, every walk through `g` is a
/// walk through `h`.
pub proof fn lemma_walk_kept(g: Adjacency, h: Adjacency, src: Point, w: Seq<Edge>, dst: Point)
    requires
        forall|e: Edge| #[trigger] has_edge(g, e) ==> has_edge(h, e),
        is_walk(g, src, w, dst),
    ensures
        is_walk(h, src, w, dst),
    decreases w.len(),
{
    if w.len() > 0 {
        lemma_walk_kept(g, h, src, w.drop_last(), w.last().from);
    }
}

/// Where every edge of `g` is an edge of `h`, a query on `h` answers no
/// more than the same query on `g`.
pub proof fn lemma_more_edges(g: Adjacency, h: Adjacency, starts: Seq<Point>, goal: Point)
    requires
        forall|e: Edge| #[trigger] has_edge(g, e) ==> has_edge(h, e),
    ensures
        nearer(shortest(h, starts, goal), shortest(g, starts, goal)) == shortest(h, starts, goal),
{
    let rg = shortest(g, starts, goal);
    let rh = shortest(h, starts, goal);
    lemma_answer_is_shortest(g, starts, goal, rg);
    lemma_answer_is_shortest(h, starts, goal, rh);
    assert forall|c: int| #[trigger] reaches(g, starts, goal, c) implies reaches(
        h,
        starts,
        goal,
        c,
    ) by {
        let (s, w) = choose|s: Point, w: Seq<Edge>|
            starts.contains(s) && #[trigger] is_walk(g, s, w, goal) && clamped(walk_cost(w) as int)
                == c;
        lemma_walk_kept(g, h, s, w, goal);
    }
    if let Some(dg) = rg {
        assert(reaches(h, starts, goal, dg as int));
    }
}

/// An edge is a walk from its start to its end: a query between the two
/// answers no more than the cost of the edge.
pub proof fn lemma_edge_bounds(g: Adjacency, e: Edge)
    requires
        has_edge(g, e),
    ensures
        shortest(g, seq![e.from], e.to) matches Some(d) && d <= e.cost,
{
    assert(seq![e.from][0] == e.from);
    lemma_stay(g, seq![e.from], e.from);
    lemma_reaches_step(g, seq![e.from], 0, e);
    let r = shortest(g, seq![e.from], e.to);
    lemma_answer_is_shortest(g, seq![e.from], e.to, r);
}

} // verus!
