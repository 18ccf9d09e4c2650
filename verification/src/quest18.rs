//! A farm of palm trees watered through channels: how long it takes the
//! water to reach the trees.

use crate::flood::{flood, hop_graph};
use crate::grid::{rows_view, Point};
use crate::point_map::PointMap;
use crate::chart::{cells, find_cells, fits, holds, lemma_cells_hold};
use crate::text::{chars_of, is_plain, lines, split_lines};
use crate::walks::{shortest, Adjacency};
use vstd::prelude::*;

verus! {

/// The channels of the farm drawn by `rows`, in reading order.
pub open spec fn channels(rows: Seq<Seq<char>>) -> Seq<Point> {
    cells(rows, '.', rows.len())
}

/// The palm trees of the farm drawn by `rows`, in reading order.
pub open spec fn palms(rows: Seq<Seq<char>>) -> Seq<Point> {
    cells(rows, 'P', rows.len())
}

/// The points that water can flow over: channels and palm trees.
pub open spec fn wet(rows: Seq<Seq<char>>) -> Set<Point> {
    Set::new(|p: Point| channels(rows).contains(p) || palms(rows).contains(p))
}

/// The point `p` lies on the edge of the farm.
pub open spec fn on_edge(rows: Seq<Seq<char>>, p: Point) -> bool {
    p.x == 0 || p.y == 0 || p.x == rows[p.y as int].len() - 1 || p.y == rows.len() - 1
}

/// Those of the first `n` of `dots` that lie on the edge of the farm.
pub open spec fn inlets_among(rows: Seq<Seq<char>>, dots: Seq<Point>, n: nat) -> Seq<Point>
    decreases n,
{
    if n == 0 {
        Seq::empty()
    } else {
        let before = inlets_among(rows, dots, (n - 1) as nat);
        if on_edge(rows, dots[n - 1]) {
            before.push(dots[n - 1])
        } else {
            before
        }
    }
}

/// Where the water comes in: the channels on the edge of the farm.
pub open spec fn inlets(rows: Seq<Seq<char>>) -> Seq<Point> {
    inlets_among(rows, channels(rows), channels(rows).len())
}

/// The graph of the steps that water takes on the farm drawn by `rows`.
pub open spec fn farm(rows: Seq<Seq<char>>) -> Adjacency {
    hop_graph(wet(rows))
}

/// `p` is one of the first `n` points of `s`.
pub open spec fn among(s: Seq<Point>, n: int, p: Point) -> bool {
    exists|j: int| 0 <= j < n && s[j] == p
}

/// One point more among those looked at.
pub proof fn lemma_among_step(s: Seq<Point>, n: int, p: Point)
    requires
        0 <= n < s.len(),
    ensures
        among(s, n + 1, p) == (among(s, n, p) || s[n] == p),
        among(s, s.len() as int, p) == s.contains(p),
        !among(s, 0, p),
{
    if among(s, n + 1, p) {
        let j = choose|j: int| 0 <= j < n + 1 && s[j] == p;
        if j < n {
            assert(among(s, n, p));
        }
    }
    if among(s, n, p) {
        let j = choose|j: int| 0 <= j < n && s[j] == p;
        assert(0 <= j < n + 1 && s[j] == p);
    }
    if s[n] == p {
        assert(0 <= n < n + 1 && s[n] == p);
    }
}

/// All points of a list are among its points.
pub proof fn lemma_among_all(s: Seq<Point>, p: Point)
    ensures
        among(s, s.len() as int, p) == s.contains(p),
        !among(s, 0, p),
{
}

/// Reads the farm drawn in `input`: the inlets, the points that water
/// flows over, and the palm trees.
pub fn parse(input: &str) -> (r: (Vec<Point>, PointMap<bool>, Vec<Point>))
    requires
        is_plain(input@),
        fits(lines(input@)),
    ensures
        r.0@ == inlets(lines(input@)),
        r.1@.dom() == wet(lines(input@)),
        r.2@ == palms(lines(input@)),
        forall|p: Point| #[trigger] r.1@.contains_key(p) ==> p.has_neighbours(),
        forall|i: int| 0 <= i < r.0@.len() ==> (#[trigger] r.0@[i]).has_neighbours(),
{
    let text = chars_of(input);
    let rows = split_lines(&text);
    let ghost drawn = lines(text@);
    let dots = find_cells(&rows, '.');
    let trees = find_cells(&rows, 'P');
    let mut points: PointMap<bool> = PointMap::new();
    let mut start: Vec<Point> = Vec::new();

    let mut i: usize = 0;
    proof {
        assert forall|p: Point| #[trigger] points@.contains_key(p) == among(dots@, 0, p) by {
            lemma_among_all(dots@, p);
        }
    }
    while i < dots.len()
        invariant
            i <= dots.len(),
            drawn == rows_view(rows@),
            fits(drawn),
            dots@ == channels(drawn),
            start@ == inlets_among(drawn, dots@, i as nat),
            forall|p: Point| #[trigger] points@.contains_key(p) == among(dots@, i as int, p),
            forall|j: int| 0 <= j < start@.len() ==> (#[trigger] start@[j]).has_neighbours(),
        decreases dots.len() - i,
    {
        let p = dots[i];
        proof {
            lemma_cells_hold(drawn, '.', drawn.len(), i as int);
            assert(holds(drawn, '.', p));
            assert(drawn[p.y as int] == rows@[p.y as int]@);
            assert(drawn[p.y as int].len() <= i32::MAX);
        }
        let ghost held = points@;
        points.insert(p, true);
        let x = p.x as usize;
        let y = p.y as usize;
        if x == 0 || y == 0 || x == rows[y].len() - 1 || y == rows.len() - 1 {
            // on an edge
            start.push(p);
        }
        proof {
            assert forall|q: Point| #[trigger] points@.contains_key(q) == among(
                dots@,
                i + 1,
                q,
            ) by {
                lemma_among_step(dots@, i as int, q);
                assert(held.contains_key(q) == among(dots@, i as int, q));
            }
        }
        i += 1;
    }
    let ghost dry = points@;
    proof {
        assert forall|p: Point| #[trigger] dry.contains_key(p) == channels(drawn).contains(p) by {
            lemma_among_all(dots@, p);
        }
        assert forall|p: Point| #[trigger]
            points@.contains_key(p) == (dry.contains_key(p) || among(trees@, 0, p)) by {
            lemma_among_all(trees@, p);
        }
    }
    let mut i: usize = 0;
    while i < trees.len()
        invariant
            i <= trees.len(),
            trees@ == palms(drawn),
            forall|p: Point| #[trigger] dry.contains_key(p) == channels(drawn).contains(p),
            forall|p: Point| #[trigger]
                points@.contains_key(p) == (dry.contains_key(p) || among(trees@, i as int, p)),
        decreases trees.len() - i,
    {
        let p = trees[i];
        let ghost held = points@;
        points.insert(p, true);
        proof {
            assert forall|q: Point| #[trigger]
                points@.contains_key(q) == (dry.contains_key(q) || among(trees@, i + 1, q)) by {
                lemma_among_step(trees@, i as int, q);
                assert(held.contains_key(q) == (dry.contains_key(q) || among(
                    trees@,
                    i as int,
                    q,
                )));
            }
        }
        i += 1;
    }
    proof {
        assert(points@.dom() =~= wet(drawn)) by {
            assert forall|q: Point| points@.dom().contains(q) <==> wet(drawn).contains(q) by {
                lemma_among_all(trees@, q);
                assert(points@.contains_key(q) == (dry.contains_key(q) || among(
                    trees@,
                    trees@.len() as int,
                    q,
                )));
                assert(dry.contains_key(q) == channels(drawn).contains(q));
            }
        }
        assert forall|q: Point| #[trigger] points@.contains_key(q) implies q.has_neighbours() by {
            assert(wet(drawn).contains(q));
            if channels(drawn).contains(q) {
                let j = choose|j: int| 0 <= j < channels(drawn).len() && channels(drawn)[j] == q;
                lemma_cells_hold(drawn, '.', drawn.len(), j);
                assert(drawn[q.y as int].len() <= i32::MAX);
            } else {
                let j = choose|j: int| 0 <= j < palms(drawn).len() && palms(drawn)[j] == q;
                lemma_cells_hold(drawn, 'P', drawn.len(), j);
                assert(drawn[q.y as int].len() <= i32::MAX);
            }
        }
    }
    (start, points, trees)
}

/// The steps from the nearest of `starts` to `p`; none where water does
/// not get there.
pub open spec fn steps_to(g: Adjacency, starts: Seq<Point>, p: Point) -> Option<usize> {
    shortest(g, starts, p)
}

/// Water from `starts` gets to every one of `trees`.
pub open spec fn all_watered(g: Adjacency, starts: Seq<Point>, trees: Seq<Point>) -> bool {
    forall|i: int| 0 <= i < trees.len() ==> steps_to(g, starts, #[trigger] trees[i]) is Some
}

/// The most steps that water from `starts` takes to one of the first `n`
/// of `trees`.
pub open spec fn latest(g: Adjacency, starts: Seq<Point>, trees: Seq<Point>, n: nat) -> usize
    decreases n,
{
    if n == 0 {
        0
    } else {
        let before = latest(g, starts, trees, (n - 1) as nat);
        let here = steps_to(g, starts, trees[n - 1]).unwrap();
        if here > before {
            here
        } else {
            before
        }
    }
}

/// The steps that water from `starts` takes to each of the first `n` of
/// `trees`, summed up.
pub open spec fn total_steps(g: Adjacency, starts: Seq<Point>, trees: Seq<Point>, n: nat) -> nat
    decreases n,
{
    if n == 0 {
        0
    } else {
        total_steps(g, starts, trees, (n - 1) as nat) + steps_to(
            g,
            starts,
            trees[n - 1],
        ).unwrap() as nat
    }
}

/// Sums never shrink as more trees are counted.
pub proof fn lemma_total_steps_grow(
    g: Adjacency,
    starts: Seq<Point>,
    trees: Seq<Point>,
    m: nat,
    n: nat,
)
    requires
        m <= n,
    ensures
        total_steps(g, starts, trees, m) <= total_steps(g, starts, trees, n),
    decreases n,
{
    if m < n {
        lemma_total_steps_grow(g, starts, trees, m, (n - 1) as nat);
    }
}

/// The time after which water from the inlets of the farm drawn in `input`
/// has reached every palm tree, a step at a time.
pub fn part1(input: &str) -> (r: usize)
    requires
        is_plain(input@),
        fits(lines(input@)),
        palms(lines(input@)).len() > 0,
        all_watered(farm(lines(input@)), inlets(lines(input@)), palms(lines(input@))),
    ensures
        r == latest(
            farm(lines(input@)),
            inlets(lines(input@)),
            palms(lines(input@)),
            palms(lines(input@)).len(),
        ),
{
    let (start, points, trees) = parse(input);
    let ghost g = farm(lines(input@));
    let dist = flood(&points, start.as_slice());

    let mut last: usize = 0;
    let mut i: usize = 0;
    while i < trees.len()
        invariant
            i <= trees.len(),
            g == hop_graph(points@.dom()),
            all_watered(g, start@, trees@),
            forall|p: Point|
                shortest(g, start@, p) == (if #[trigger] dist@.contains_key(p) {
                    Some(dist@[p])
                } else {
                    None
                }),
            last == latest(g, start@, trees@, i as nat),
        decreases trees.len() - i,
    {
        proof {
            assert(steps_to(g, start@, trees@[i as int]) is Some);
            assert(dist@.contains_key(trees@[i as int]));
        }
        let distance = match dist.get(trees[i]) {
            Some(d) => *d,
            None => 0,
        };
        if distance > last {
            last = distance;
        }
        i += 1;
    }
    last
}

/// As `part1`: the farm has more inlets, and the water takes as long as
/// from the nearest of them.
pub fn part2(input: &str) -> (r: usize)
    requires
        is_plain(input@),
        fits(lines(input@)),
        palms(lines(input@)).len() > 0,
        all_watered(farm(lines(input@)), inlets(lines(input@)), palms(lines(input@))),
    ensures
        r == latest(
            farm(lines(input@)),
            inlets(lines(input@)),
            palms(lines(input@)),
            palms(lines(input@)).len(),
        ),
{
    part1(input)
}

/// The times that water from `start` takes to each of `trees`, summed up.
pub fn time_sum(start: Point, trees: &Vec<Point>, points: &PointMap<bool>) -> (r: usize)
    requires
        start.has_neighbours(),
        forall|p: Point| #[trigger] points@.contains_key(p) ==> p.has_neighbours(),
        trees@.len() > 0,
        all_watered(hop_graph(points@.dom()), seq![start], trees@),
        total_steps(hop_graph(points@.dom()), seq![start], trees@, trees@.len()) <= usize::MAX,
    ensures
        r == total_steps(hop_graph(points@.dom()), seq![start], trees@, trees@.len()),
{
    let ghost g = hop_graph(points@.dom());
    let from: [Point; 1] = [start];
    proof {
        assert(from@ =~= seq![start]);
    }
    let dist = flood(points, from.as_slice());

    let mut sum: usize = 0;
    let mut i: usize = 0;
    while i < trees.len()
        invariant
            i <= trees.len(),
            g == hop_graph(points@.dom()),
            all_watered(g, seq![start], trees@),
            total_steps(g, seq![start], trees@, trees@.len()) <= usize::MAX,
            forall|p: Point|
                shortest(g, seq![start], p) == (if #[trigger] dist@.contains_key(p) {
                    Some(dist@[p])
                } else {
                    None
                }),
            sum == total_steps(g, seq![start], trees@, i as nat),
        decreases trees.len() - i,
    {
        proof {
            assert(steps_to(g, seq![start], trees@[i as int]) is Some);
            assert(dist@.contains_key(trees@[i as int]));
            lemma_total_steps_grow(g, seq![start], trees@, (i + 1) as nat, trees@.len());
        }
        let distance = match dist.get(trees[i]) {
            Some(d) => *d,
            None => 0,
        };
        sum += distance;
        i += 1;
    }
    sum
}

/// Water from each of `dots` gets to every one of `trees`, in steps that
/// can be summed up.
pub open spec fn all_wells(g: Adjacency, dots: Seq<Point>, trees: Seq<Point>) -> bool {
    forall|i: int|
        0 <= i < dots.len() ==> all_watered(g, seq![#[trigger] dots[i]], trees) && total_steps(
            g,
            seq![dots[i]],
            trees,
            trees.len(),
        ) <= usize::MAX
}

/// The least sum of steps to all of `trees` from one of the first `n` of
/// `dots`.
pub open spec fn best_well(g: Adjacency, dots: Seq<Point>, trees: Seq<Point>, n: nat) -> nat
    decreases n,
{
    if n == 0 {
        usize::MAX as nat
    } else {
        let before = best_well(g, dots, trees, (n - 1) as nat);
        let here = total_steps(g, seq![dots[n - 1]], trees, trees.len());
        if n == 1 || here < before {
            here
        } else {
            before
        }
    }
}

/// The least sum of the times that water takes to every palm tree from a
/// well dug in one of the channels of the farm drawn in `input`.
pub fn part3(input: &str) -> (r: usize)
    requires
        is_plain(input@),
        fits(lines(input@)),
        palms(lines(input@)).len() > 0,
        channels(lines(input@)).len() > 0,
        all_wells(farm(lines(input@)), channels(lines(input@)), palms(lines(input@))),
    ensures
        r == best_well(
            farm(lines(input@)),
            channels(lines(input@)),
            palms(lines(input@)),
            channels(lines(input@)).len(),
        ),
{
    let (_, points, trees) = parse(input);
    let text = chars_of(input);
    let rows = split_lines(&text);
    let dots = find_cells(&rows, '.');
    let ghost drawn = lines(input@);
    let ghost g = farm(drawn);

    let mut best: usize = usize::MAX;
    let mut i: usize = 0;
    while i < dots.len()
        invariant
            i <= dots.len(),
            g == hop_graph(points@.dom()),
            dots@ == channels(drawn),
            points@.dom() == wet(drawn),
            trees@.len() > 0,
            forall|p: Point| #[trigger] points@.contains_key(p) ==> p.has_neighbours(),
            all_wells(g, dots@, trees@),
            best == best_well(g, dots@, trees@, i as nat),
        decreases dots.len() - i,
    {
        proof {
            assert(all_watered(g, seq![dots@[i as int]], trees@));
            assert(wet(drawn).contains(dots@[i as int]));
            assert(points@.contains_key(dots@[i as int]));
        }
        let sum = time_sum(dots[i], &trees, &points);
        if i == 0 || sum < best {
            best = sum;
        }
        i += 1;
    }
    best
}

} // verus!
