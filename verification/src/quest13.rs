//! A hill of platforms at ten levels: the quickest way from a start to the
//! end, where each step takes a second and each level climbed or descended
//! another; the levels go round, so that nine is next to zero.

use crate::graph::{with_edge, Graph};
use crate::chart::{cells, find_cells, fits, lemma_cells_hold};
use crate::grid::{rectangular, rows_view, Grid, Point};
use crate::point_map::{all_points, lemma_points_finite, PointMap};
use crate::text::{chars_of, digit_value, is_digit, is_plain, lines, split_lines};
use crate::walks::{shortest, Adjacency};
use std::collections::VecDeque;
use vstd::prelude::*;

verus! {

/// The levels of the cells of a hill, row by row; `None` is a wall.
pub type Hill = Seq<Seq<Option<u32>>>;

/// The level of the cell drawn as `c`: its digit, zero for a start `S` and
/// for the end `E`, and `None`, a wall, for anything else.
pub open spec fn level_of(c: char) -> Option<u32> {
    if is_digit(c) {
        Some(digit_value(c) as u32)
    } else if c == 'S' || c == 'E' {
        Some(0u32)
    } else {
        None
    }
}

/// The hill that `rows` draw.
pub open spec fn hill_of(rows: Seq<Seq<char>>) -> Hill {
    Seq::new(rows.len(), |y: int| Seq::new(rows[y].len(), |x: int| level_of(rows[y][x])))
}

/// The level of the cell at `p`; `None` for a wall and outside the hill.
pub open spec fn level(hill: Hill, p: Point) -> Option<u32> {
    if 0 <= p.y < hill.len() && 0 <= p.x < hill[p.y as int].len() {
        hill[p.y as int][p.x as int]
    } else {
        None
    }
}

/// No level of the hill is above nine, and the hill is no wider or higher
/// than an `i32` can count.
pub open spec fn low(hill: Hill) -> bool {
    &&& hill.len() <= i32::MAX
    &&& forall|y: int| 0 <= y < hill.len() ==> (#[trigger] hill[y]).len() <= i32::MAX
    &&& forall|p: Point| (#[trigger] level(hill, p)) matches Some(h) ==> h <= 9
}

/// The seconds that the step between two neighbours at the levels `a` and
/// `b` takes: one, and one for each level between them, the shorter way
/// round.
pub open spec fn climb(a: u32, b: u32) -> usize {
    let up = (a + 10 - b) % 10;
    let down = (b + 10 - a) % 10;
    if up <= down {
        (up + 1) as usize
    } else {
        (down + 1) as usize
    }
}

/// `p` and `q` are next to each other.
pub open spec fn adjacent(p: Point, q: Point) -> bool {
    p.spec_manhattan_distance(q) == 1
}

/// The step from `p` to `q` with the seconds it takes, where neither is a
/// wall.
pub open spec fn way(hill: Hill, p: Point, q: Point) -> Option<(Point, usize)> {
    match (level(hill, p), level(hill, q)) {
        (Some(a), Some(b)) => Some((q, climb(a, b))),
        _ => None,
    }
}

/// The steps from `p` to the first `n` of its neighbours to the north,
/// east, south and west.
pub open spec fn ways_among(hill: Hill, p: Point, n: nat) -> Seq<(Point, usize)>
    decreases n,
{
    if n == 0 || n > 4 {
        Seq::empty()
    } else {
        let rest = ways_among(hill, p, (n - 1) as nat);
        match way(hill, p, p.spec_neighbours4()[n - 1]) {
            Some(e) => rest.push(e),
            None => rest,
        }
    }
}

/// The steps from `p` to its neighbours.
pub open spec fn ways(hill: Hill, p: Point) -> Seq<(Point, usize)> {
    ways_among(hill, p, 4)
}

/// `path` leads from `start` to `end`, step by step between neighbours, and
/// never onto a wall.
pub open spec fn leads(hill: Hill, start: Point, path: Seq<Point>, end: Point) -> bool
    decreases path.len(),
{
    if path.len() == 0 {
        start == end
    } else {
        let prev = if path.len() == 1 {
            start
        } else {
            path[path.len() - 2]
        };
        &&& path.last() == end
        &&& level(hill, end) is Some
        &&& adjacent(prev, end)
        &&& leads(hill, start, path.drop_last(), prev)
    }
}

/// Some path leads from `start` to `p`.
pub open spec fn connected(hill: Hill, start: Point, p: Point) -> bool {
    exists|path: Seq<Point>| #[trigger] leads(hill, start, path, p)
}

/// The graph of the hill as seen from `start`: its nodes are the cells
/// that a path leads to and that have a neighbour to step to, its edges the
/// steps between neighbours.
pub open spec fn hill_graph(hill: Hill, start: Point) -> Adjacency {
    Map::new(
        |p: Point| connected(hill, start, p) && ways(hill, p).len() > 0,
        |p: Point| ways(hill, p),
    )
}

/// A point has each point next to it among its four neighbours.
pub proof fn lemma_adjacent(p: Point, q: Point)
    requires
        adjacent(p, q),
        p.has_neighbours(),
    ensures
        exists|i: int| 0 <= i < 4 && #[trigger] p.spec_neighbours4()[i] == q,
{
    let n = p.spec_neighbours4();
    if q.y == p.y - 1 {
        assert(n[0] == q);
    } else if q.x == p.x + 1 {
        assert(n[1] == q);
    } else if q.y == p.y + 1 {
        assert(n[2] == q);
    } else {
        assert(n[3] == q);
    }
}

/// The step to an open neighbour is among the steps to the neighbours.
pub proof fn lemma_way_listed(hill: Hill, p: Point, n: nat, i: int)
    requires
        0 <= i < n <= 4,
        way(hill, p, p.spec_neighbours4()[i]) is Some,
    ensures
        ways_among(hill, p, n).contains(way(hill, p, p.spec_neighbours4()[i]).unwrap()),
    decreases n,
{
    let rest = ways_among(hill, p, (n - 1) as nat);
    let all = ways_among(hill, p, n);
    if i == n - 1 {
        assert(all == rest.push(way(hill, p, p.spec_neighbours4()[i]).unwrap()));
        assert(all[all.len() - 1] == way(hill, p, p.spec_neighbours4()[i]).unwrap());
    } else {
        lemma_way_listed(hill, p, (n - 1) as nat, i);
        let e = way(hill, p, p.spec_neighbours4()[i]).unwrap();
        let k = choose|k: int| 0 <= k < rest.len() && rest[k] == e;
        assert(all[k] == e);
    }
}

/// Between two open cells next to each other there is a step each way.
pub proof fn lemma_way_back(hill: Hill, p: Point, q: Point)
    requires
        level(hill, p) is Some,
        level(hill, q) is Some,
        adjacent(p, q),
        p.has_neighbours(),
    ensures
        ways(hill, p).len() > 0,
        ways(hill, p).contains((q, climb(level(hill, p).unwrap(), level(hill, q).unwrap()))),
{
    lemma_adjacent(p, q);
    let i = choose|i: int| 0 <= i < 4 && #[trigger] p.spec_neighbours4()[i] == q;
    lemma_way_listed(hill, p, 4, i);
}

/// A path to a cell goes on to each open cell next to it.
pub proof fn lemma_connected_step(hill: Hill, start: Point, p: Point, q: Point)
    requires
        connected(hill, start, p),
        level(hill, q) is Some,
        adjacent(p, q),
    ensures
        connected(hill, start, q),
{
    let path = choose|path: Seq<Point>| #[trigger] leads(hill, start, path, p);
    let longer = path.push(q);
    assert(longer.drop_last() =~= path);
    if path.len() > 0 {
        assert(longer[longer.len() - 2] == path.last());
    }
    assert(leads(hill, start, longer, q));
}

/// Every cell of a low hill has all its neighbours within `i32`.
pub proof fn lemma_cell_has_neighbours(hill: Hill, p: Point)
    requires
        low(hill),
        level(hill, p) is Some,
    ensures
        p.has_neighbours(),
{
    assert(hill[p.y as int].len() <= i32::MAX);
}

/// The steps from `p` that the search has entered in the graph once it is
/// done with `p`: all of them, but only those to the first `n` neighbours
/// while it is busy with `p`.
pub open spec fn entered(hill: Hill, p: Point, busy: Option<Point>, n: nat) -> Seq<(Point, usize)> {
    if busy == Some(p) {
        ways_among(hill, p, n)
    } else {
        ways(hill, p)
    }
}

/// The state of the search that lays out the graph of a hill: `g` is the
/// graph so far, `queue` the cells to look at, `done` those looked at, and
/// `busy` the one that is being looked at, of whose neighbours the first
/// `n` have been seen.
pub open spec fn exploring(
    hill: Hill,
    start: Point,
    g: Adjacency,
    queue: Seq<Point>,
    done: Set<Point>,
    busy: Option<Point>,
    n: nat,
) -> bool {
    &&& busy matches Some(c) ==> done.contains(c) && n <= 4
    &&& done.contains(start) || queue.contains(start)
    // what waits and what is done is open and can be reached
    &&& forall|i: int|
        0 <= i < queue.len() ==> level(hill, #[trigger] queue[i]) is Some && connected(
            hill,
            start,
            queue[i],
        )
    &&& forall|p: Point| #[trigger]
        done.contains(p) ==> level(hill, p) is Some && connected(hill, start, p)
    // a node has its steps once it is done, and waits until then
    &&& forall|p: Point| #[trigger]
        g.contains_key(p) ==> ways(hill, p).len() > 0 && (if done.contains(p) {
            g[p] == entered(hill, p, busy, n)
        } else {
            g[p].len() == 0 && queue.contains(p)
        })
    // a cell that is done and has steps is a node, and their ends wait or are done
    &&& forall|p: Point| #[trigger]
        done.contains(p) && entered(hill, p, busy, n).len() > 0 ==> g.contains_key(p)
    &&& forall|p: Point, j: int|
        done.contains(p) && 0 <= j < entered(hill, p, busy, n).len() ==> done.contains(
            (#[trigger] entered(hill, p, busy, n)[j]).0,
        ) || queue.contains(entered(hill, p, busy, n)[j].0)
}

/// The search begins with the start waiting and nothing else.
pub proof fn lemma_explore_begin(hill: Hill, start: Point)
    requires
        level(hill, start) is Some,
    ensures
        exploring(hill, start, Map::empty(), seq![start], Set::empty(), None, 4),
{
    assert(seq![start][0] == start);
    assert(leads(hill, start, Seq::empty(), start));
}

/// A cell that was looked at before is passed over.
pub proof fn lemma_explore_skip(
    hill: Hill,
    start: Point,
    g: Adjacency,
    queue: Seq<Point>,
    done: Set<Point>,
)
    requires
        exploring(hill, start, g, queue, done, None, 4),
        queue.len() > 0,
        done.contains(queue[0]),
    ensures
        exploring(hill, start, g, queue.subrange(1, queue.len() as int), done, None, 4),
{
    let rest = queue.subrange(1, queue.len() as int);
    assert forall|p: Point| queue.contains(p) && !done.contains(p) implies rest.contains(p) by {
        let i = choose|i: int| 0 <= i < queue.len() && queue[i] == p;
        assert(rest[i - 1] == p);
    }
    assert forall|i: int| 0 <= i < rest.len() implies level(hill, #[trigger] rest[i]) is Some
        && connected(hill, start, rest[i]) by {
        assert(rest[i] == queue[i + 1]);
    }
}

/// A cell that was not looked at before is taken up.
pub proof fn lemma_explore_take(
    hill: Hill,
    start: Point,
    g: Adjacency,
    queue: Seq<Point>,
    done: Set<Point>,
)
    requires
        exploring(hill, start, g, queue, done, None, 4),
        queue.len() > 0,
        !done.contains(queue[0]),
    ensures
        exploring(
            hill,
            start,
            g,
            queue.subrange(1, queue.len() as int),
            done.insert(queue[0]),
            Some(queue[0]),
            0,
        ),
{
    let c = queue[0];
    let rest = queue.subrange(1, queue.len() as int);
    let done2 = done.insert(c);
    if g.contains_key(c) {
        assert(g[c] =~= ways_among(hill, c, 0));
    }
    assert forall|p: Point| queue.contains(p) && p != c implies rest.contains(p) by {
        let i = choose|i: int| 0 <= i < queue.len() && queue[i] == p;
        assert(rest[i - 1] == p);
    }
    assert forall|i: int| 0 <= i < rest.len() implies level(hill, #[trigger] rest[i]) is Some
        && connected(hill, start, rest[i]) by {
        assert(rest[i] == queue[i + 1]);
    }
    assert forall|p: Point, j: int|
        done2.contains(p) && 0 <= j < entered(hill, p, Some(c), 0).len() implies done2.contains(
        (#[trigger] entered(hill, p, Some(c), 0)[j]).0,
    ) || rest.contains(entered(hill, p, Some(c), 0)[j].0) by {
        assert(p != c);
        assert(entered(hill, p, None, 4)[j] == entered(hill, p, Some(c), 0)[j]);
    }
}

/// A wall next to the cell being looked at changes nothing.
pub proof fn lemma_explore_wall(
    hill: Hill,
    start: Point,
    g: Adjacency,
    queue: Seq<Point>,
    done: Set<Point>,
    c: Point,
    n: nat,
)
    requires
        exploring(hill, start, g, queue, done, Some(c), n),
        n < 4,
        level(hill, c.spec_neighbours4()[n as int]) is None,
    ensures
        exploring(hill, start, g, queue, done, Some(c), n + 1),
{
    assert(ways_among(hill, c, n + 1) == ways_among(hill, c, n));
    assert forall|p: Point| entered(hill, p, Some(c), n + 1) == entered(hill, p, Some(c), n) by {}
    assert forall|p: Point, j: int|
        done.contains(p) && 0 <= j < entered(hill, p, Some(c), n + 1).len() implies done.contains(
        (#[trigger] entered(hill, p, Some(c), n + 1)[j]).0,
    ) || queue.contains(entered(hill, p, Some(c), n + 1)[j].0) by {
        assert(entered(hill, p, Some(c), n)[j] == entered(hill, p, Some(c), n + 1)[j]);
    }
}

/// An open cell next to the cell being looked at gets a step to it, becomes
/// a node, and waits to be looked at.
pub proof fn lemma_explore_step(
    hill: Hill,
    start: Point,
    g: Adjacency,
    queue: Seq<Point>,
    done: Set<Point>,
    c: Point,
    n: nat,
)
    requires
        low(hill),
        exploring(hill, start, g, queue, done, Some(c), n),
        n < 4,
        level(hill, c.spec_neighbours4()[n as int]) is Some,
    ensures
        exploring(
            hill,
            start,
            with_edge(
                g,
                c,
                c.spec_neighbours4()[n as int],
                climb(
                    level(hill, c).unwrap(),
                    level(hill, c.spec_neighbours4()[n as int]).unwrap(),
                ),
            ),
            queue.push(c.spec_neighbours4()[n as int]),
            done,
            Some(c),
            n + 1,
        ),
{
    let to = c.spec_neighbours4()[n as int];
    let cost = climb(level(hill, c).unwrap(), level(hill, to).unwrap());
    let g2 = with_edge(g, c, to, cost);
    let queue2 = queue.push(to);
    let before = ways_among(hill, c, n);
    let after = ways_among(hill, c, n + 1);
    lemma_cell_has_neighbours(hill, c);
    lemma_cell_has_neighbours(hill, to);
    assert(adjacent(c, to));
    assert(adjacent(to, c));
    assert(to != c);
    lemma_way_back(hill, to, c);
    lemma_way_back(hill, c, to);
    lemma_connected_step(hill, start, c, to);
    assert(way(hill, c, to) == Some((to, cost)));
    assert(after == before.push((to, cost)));
    assert(queue2[queue.len() as int] == to);
    assert forall|p: Point| queue.contains(p) implies queue2.contains(p) by {
        let i = choose|i: int| 0 <= i < queue.len() && queue[i] == p;
        assert(queue2[i] == p);
    }
    // the cell being looked at has the steps seen so far
    if !g.contains_key(c) {
        assert(before.len() == 0);
        assert(before =~= Seq::empty());
    }
    assert(g2.contains_key(c) && g2[c] == after);
    // where the neighbour is done, it is a node already
    if done.contains(to) {
        assert(entered(hill, to, Some(c), n) == ways(hill, to));
        assert(g.contains_key(to));
    }
    assert forall|i: int| 0 <= i < queue2.len() implies level(hill, #[trigger] queue2[i]) is Some
        && connected(hill, start, queue2[i]) by {
        if i < queue.len() {
            assert(queue2[i] == queue[i]);
        }
    }
    assert forall|p: Point| #[trigger] g2.contains_key(p) implies ways(hill, p).len() > 0 && (
    if done.contains(p) {
        g2[p] == entered(hill, p, Some(c), n + 1)
    } else {
        g2[p].len() == 0 && queue2.contains(p)
    }) by {
        if p == c {
        } else if p == to {
            if g.contains_key(to) {
                assert(g2[to] == g[to]);
            }
        } else {
            assert(g.contains_key(p));
            assert(g2[p] == g[p]);
            assert(entered(hill, p, Some(c), n + 1) == entered(hill, p, Some(c), n));
        }
    }
    assert forall|p: Point| #[trigger]
        done.contains(p) && entered(hill, p, Some(c), n + 1).len() > 0 implies g2.contains_key(
        p,
    ) by {
        if p != c {
            assert(entered(hill, p, Some(c), n + 1) == entered(hill, p, Some(c), n));
            assert(g.contains_key(p));
        }
    }
    assert forall|p: Point, j: int|
        done.contains(p) && 0 <= j < entered(hill, p, Some(c), n + 1).len() implies done.contains(
        (#[trigger] entered(hill, p, Some(c), n + 1)[j]).0,
    ) || queue2.contains(entered(hill, p, Some(c), n + 1)[j].0) by {
        if p == c {
            if j < before.len() {
                assert(entered(hill, p, Some(c), n)[j] == after[j]);
            }
        } else {
            assert(entered(hill, p, Some(c), n)[j] == entered(hill, p, Some(c), n + 1)[j]);
        }
    }
}

/// Once all neighbours of the cell being looked at have been seen, the
/// search is done with it.
pub proof fn lemma_explore_leave(
    hill: Hill,
    start: Point,
    g: Adjacency,
    queue: Seq<Point>,
    done: Set<Point>,
    c: Point,
)
    requires
        exploring(hill, start, g, queue, done, Some(c), 4),
    ensures
        exploring(hill, start, g, queue, done, None, 4),
{
    assert forall|p: Point| entered(hill, p, Some(c), 4) == entered(hill, p, None, 4) by {}
    assert forall|p: Point, j: int|
        done.contains(p) && 0 <= j < entered(hill, p, None, 4).len() implies done.contains(
        (#[trigger] entered(hill, p, None, 4)[j]).0,
    ) || queue.contains(entered(hill, p, None, 4)[j].0) by {
        assert(entered(hill, p, Some(c), 4)[j] == entered(hill, p, None, 4)[j]);
    }
}

/// When nothing waits any more, every cell that a path leads to is done.
pub proof fn lemma_all_reached(
    hill: Hill,
    start: Point,
    g: Adjacency,
    done: Set<Point>,
    path: Seq<Point>,
    p: Point,
)
    requires
        low(hill),
        exploring(hill, start, g, Seq::empty(), done, None, 4),
        leads(hill, start, path, p),
    ensures
        done.contains(p),
    decreases path.len(),
{
    if path.len() > 0 {
        let prev = if path.len() == 1 {
            start
        } else {
            path[path.len() - 2]
        };
        lemma_all_reached(hill, start, g, done, path.drop_last(), prev);
        lemma_cell_has_neighbours(hill, prev);
        lemma_way_back(hill, prev, p);
        let e = (p, climb(level(hill, prev).unwrap(), level(hill, p).unwrap()));
        let j = choose|j: int| 0 <= j < ways(hill, prev).len() && ways(hill, prev)[j] == e;
        assert(entered(hill, prev, None, 4)[j] == e);
    }
}

/// When nothing waits any more, the graph laid out is the graph of the hill.
pub proof fn lemma_explored(hill: Hill, start: Point, g: Adjacency, done: Set<Point>)
    requires
        low(hill),
        exploring(hill, start, g, Seq::empty(), done, None, 4),
    ensures
        g == hill_graph(hill, start),
{
    let h = hill_graph(hill, start);
    assert forall|p: Point| g.contains_key(p) <==> h.contains_key(p) by {
        if h.contains_key(p) {
            let path = choose|path: Seq<Point>| #[trigger] leads(hill, start, path, p);
            lemma_all_reached(hill, start, g, done, path, p);
            assert(entered(hill, p, None, 4) == ways(hill, p));
        }
    }
    assert forall|p: Point| g.contains_key(p) implies g[p] == h[p] by {}
    assert(g =~= h);
}

/// The level that a grid holds at `p` is that of the hill it stands for.
pub proof fn lemma_level(grid: &Grid<Option<u32>>, p: Point)
    requires
        grid.wf(),
    ensures
        level(grid@, p) == match grid.spec_at(p) {
            Some(v) => v,
            None => None,
        },
{
    if 0 <= p.y < grid@.len() {
        assert(grid@[p.y as int].len() == grid@[0].len());
    }
}

/// The seconds that the step between neighbours at the levels `a` and `b`
/// takes.
fn seconds(a: u32, b: u32) -> (r: usize)
    requires
        a <= 9,
        b <= 9,
    ensures
        r == climb(a, b),
{
    let up = (a + 10 - b) % 10;
    let down = (b + 10 - a) % 10;
    if up <= down {
        up as usize + 1
    } else {
        down as usize + 1
    }
}

/// Lays out the graph of the hill `grid` as seen from `start`, which is no
/// wall: from each cell that can be reached, the steps to its neighbours.
pub fn build_graph(grid: &Grid<Option<u32>>, start: Point) -> (graph: Graph)
    requires
        grid.wf(),
        low(grid@),
        level(grid@, start) is Some,
    ensures
        graph.wf(),
        graph@ == hill_graph(grid@, start),
{
    let ghost hill = grid@;
    let mut graph = Graph::new();
    let mut queue: VecDeque<Point> = VecDeque::new();
    let mut done: PointMap<bool> = PointMap::new();

    queue.push_back(start);
    proof {
        lemma_explore_begin(hill, start);
        lemma_points_finite();
        assert(queue@ =~= seq![start]);
        assert(done@.dom() =~= Set::<Point>::empty());
    }
    loop
        invariant
            grid.wf(),
            hill == grid@,
            low(hill),
            graph.wf(),
            all_points().finite(),
            exploring(hill, start, graph@, queue@, done@.dom(), None, 4),
        ensures
            queue@.len() == 0,
            graph.wf(),
            exploring(hill, start, graph@, queue@, done@.dom(), None, 4),
        decreases all_points().difference(done@.dom()).len(), queue@.len(),
    {
        let ghost waiting = queue@;
        let ghost seen = done@.dom();
        let current = match queue.pop_front() {
            Some(p) => p,
            None => {
                break ;
            },
        };
        if done.contains_key(current) {
            proof {
                lemma_explore_skip(hill, start, graph@, waiting, seen);
            }
            continue ;
        }
        done.insert(current, true);
        proof {
            lemma_explore_take(hill, start, graph@, waiting, seen);
            assert(done@.dom() =~= seen.insert(current));
            assert(all_points().difference(done@.dom()) =~= all_points().difference(seen).remove(
                current,
            ));
            lemma_level(grid, current);
            lemma_cell_has_neighbours(hill, current);
        }
        let height: u32 = match grid.at(current) {
            Some(Some(h)) => *h,
            _ => 0,
        };
        let around = current.neighbours4();
        let mut n: usize = 0;
        while n < 4
            invariant
                n <= 4,
                grid.wf(),
                hill == grid@,
                low(hill),
                graph.wf(),
                around@ == current.spec_neighbours4(),
                level(hill, current) == Some(height),
                exploring(hill, start, graph@, queue@, done@.dom(), Some(current), n as nat),
            decreases 4 - n,
        {
            let neighbour = around[n];
            proof {
                lemma_level(grid, neighbour);
            }
            match grid.at(neighbour) {
                Some(Some(next)) => {
                    proof {
                        lemma_explore_step(
                            hill,
                            start,
                            graph@,
                            queue@,
                            done@.dom(),
                            current,
                            n as nat,
                        );
                    }
                    let cost = seconds(height, *next);
                    graph.add_edge(current, neighbour, cost);
                    queue.push_back(neighbour);
                },
                _ => {
                    proof {
                        lemma_explore_wall(
                            hill,
                            start,
                            graph@,
                            queue@,
                            done@.dom(),
                            current,
                            n as nat,
                        );
                    }
                },
            }
            n += 1;
        }
        proof {
            lemma_explore_leave(hill, start, graph@, queue@, done@.dom(), current);
        }
    }
    proof {
        assert(queue@ =~= Seq::<Point>::empty());
        lemma_explored(hill, start, graph@, done@.dom());
    }
    graph
}

/// The hill drawn by rows that fit is low, and as wide and high as the
/// drawing.
pub proof fn lemma_hill_low(rows: Seq<Seq<char>>)
    requires
        fits(rows),
    ensures
        low(hill_of(rows)),
        rectangular(rows) ==> rectangular(hill_of(rows)),
{
    let hill = hill_of(rows);
    assert forall|y: int| 0 <= y < hill.len() implies (#[trigger] hill[y]).len() <= i32::MAX by {
        assert(rows[y].len() <= i32::MAX);
    }
    if rectangular(rows) {
        assert forall|y: int| 0 <= y < hill.len() implies (#[trigger] hill[y]).len()
            == hill[0].len() by {
            assert(rows[y].len() == rows[0].len());
        }
    }
}

/// The hill that `input` draws, a row to a line: a digit is a platform at
/// that level, `S` and `E` are platforms at level zero, anything else is a
/// wall.
pub fn parse_grid(input: &str) -> (grid: Grid<Option<u32>>)
    requires
        rectangular(lines(input@)),
    ensures
        grid.wf(),
        grid@ == hill_of(lines(input@)),
{
    let text = chars_of(input);
    let rows = split_lines(&text);
    let ghost drawn = lines(text@);
    let mut levels: Vec<Vec<Option<u32>>> = Vec::new();
    let mut y: usize = 0;
    while y < rows.len()
        invariant
            y <= rows.len(),
            drawn == rows_view(rows@),
            levels@.len() == y,
            forall|i: int| 0 <= i < y ==> (#[trigger] levels@[i])@ == hill_of(drawn)[i],
        decreases rows.len() - y,
    {
        let row = &rows[y];
        let mut level_row: Vec<Option<u32>> = Vec::new();
        let mut x: usize = 0;
        proof {
            assert(drawn[y as int] == row@);
        }
        while x < row.len()
            invariant
                x <= row.len(),
                level_row@.len() == x,
                forall|i: int| 0 <= i < x ==> #[trigger] level_row@[i] == level_of(row@[i]),
            decreases row.len() - x,
        {
            let c = row[x];
            level_row.push(
                if '0' <= c && c <= '9' {
                    Some(c as u32 - '0' as u32)
                } else if c == 'S' || c == 'E' {
                    Some(0)
                } else {
                    None
                },
            );
            x += 1;
        }
        proof {
            assert(level_row@ =~= hill_of(drawn)[y as int]);
        }
        levels.push(level_row);
        y += 1;
    }
    proof {
        assert(rows_view(levels@) =~= hill_of(drawn));
        assert forall|i: int| 0 <= i < hill_of(drawn).len() implies (#[trigger] hill_of(
            drawn,
        )[i]).len() == hill_of(drawn)[0].len() by {
            assert(drawn[i].len() == drawn[0].len());
        }
    }
    Grid::from_rows(levels)
}

/// The first `S` of the drawing `rows`.
pub open spec fn start_of(rows: Seq<Seq<char>>) -> Point {
    cells(rows, 'S', rows.len())[0]
}

/// The first `E` of the drawing `rows`.
pub open spec fn end_of(rows: Seq<Seq<char>>) -> Point {
    cells(rows, 'E', rows.len())[0]
}

/// The drawing has a start and an end, and is one that `parse_grid` reads.
pub open spec fn drawn_well(input: Seq<char>) -> bool {
    &&& is_plain(input)
    &&& rectangular(lines(input))
    &&& fits(lines(input))
    &&& cells(lines(input), 'S', lines(input).len()).len() > 0
    &&& cells(lines(input), 'E', lines(input).len()).len() > 0
}

/// The seconds of the quickest way from the first start of the hill drawn
/// in `input` to its end.
pub open spec fn quickest(input: Seq<char>) -> Option<usize> {
    shortest(
        hill_graph(hill_of(lines(input)), start_of(lines(input))),
        seq![start_of(lines(input))],
        end_of(lines(input)),
    )
}

/// The seconds of the quickest way from any start of the hill drawn in
/// `input` to its end.
pub open spec fn quickest_of_all(input: Seq<char>) -> Option<usize> {
    shortest(
        hill_graph(hill_of(lines(input)), start_of(lines(input))),
        cells(lines(input), 'S', lines(input).len()),
        end_of(lines(input)),
    )
}

/// The seconds of the quickest way from the start `S` of the hill drawn in
/// `input` to its end `E`.
pub fn part1_and_2(input: &str) -> (r: u32)
    requires
        drawn_well(input@),
        quickest(input@) matches Some(d) && d <= u32::MAX,
    ensures
        quickest(input@) == Some(r as usize),
{
    let grid = parse_grid(input);
    let text = chars_of(input);
    let rows = split_lines(&text);
    let ghost drawn = lines(input@);
    proof {
        lemma_hill_low(drawn);
        lemma_cells_hold(drawn, 'S', drawn.len(), 0);
        lemma_cells_hold(drawn, 'E', drawn.len(), 0);
    }
    let starts = find_cells(&rows, 'S');
    let ends = find_cells(&rows, 'E');
    let start = starts[0];
    let target = ends[0];

    let graph = build_graph(&grid, start);

    match graph.dijkstra(start, target) {
        Some(d) => d as u32,
        None => 0,
    }
}

/// The seconds of the quickest way from any of the starts `S` of the hill
/// drawn in `input` to its end `E`.
pub fn part3(input: &str) -> (r: u32)
    requires
        drawn_well(input@),
        quickest_of_all(input@) matches Some(d) && d <= u32::MAX,
    ensures
        quickest_of_all(input@) == Some(r as usize),
{
    let grid = parse_grid(input);
    let text = chars_of(input);
    let rows = split_lines(&text);
    let ghost drawn = lines(input@);
    proof {
        lemma_hill_low(drawn);
        lemma_cells_hold(drawn, 'S', drawn.len(), 0);
        lemma_cells_hold(drawn, 'E', drawn.len(), 0);
    }
    let starts = find_cells(&rows, 'S');
    let ends = find_cells(&rows, 'E');
    let target = ends[0];

    let graph = build_graph(&grid, starts[0]);

    match graph.dijkstra_many(starts.as_slice(), target) {
        Some(d) => d as u32,
        None => 0,
    }
}

} // verus!
