//! A garden with herbs to be picked: the steps of a round through the
//! garden, from its entrance and back, on which one herb of each kind is
//! picked.

use crate::grid::{rectangular, Grid, Point};
use crate::point_map::{code, lemma_code_injective, spec_code};
use crate::chart::fits;
use crate::text::{first_place, is_plain, lines};
use std::collections::{HashMap, VecDeque};
use std::str::FromStr;
use vstd::prelude::*;
use vstd::std_specs::hash::group_hash_axioms;

verus! {

broadcast use group_hash_axioms;

/// `c` names a kind of herb: a letter from `A` to `Z`.
pub open spec fn is_herb(c: char) -> bool {
    'A' <= c <= 'Z'
}

/// The bit that stands for the herb `c` among the herbs picked.
pub open spec fn herb_bit(c: char) -> u32 {
    1u32 << ((c as u32 - 65) as u32)
}

/// How many of the lowest `n` bits of `x` are set.
pub open spec fn ones_below(x: u32, n: nat) -> nat
    decreases n,
{
    if n == 0 {
        0
    } else {
        ones_below(x, (n - 1) as nat) + if (x >> ((n - 1) as u32)) & 1 == 1 {
            1nat
        } else {
            0nat
        }
    }
}

/// How many kinds of herbs are among the herbs `x`.
pub open spec fn ones(x: u32) -> nat {
    ones_below(x, 32)
}

/// No more bits are set than there are.
pub proof fn lemma_ones_bounded(x: u32, n: nat)
    ensures
        ones_below(x, n) <= n,
    decreases n,
{
    if n > 0 {
        lemma_ones_bounded(x, (n - 1) as nat);
    }
}

/// How many kinds of herbs are among the herbs `x`.
pub fn count_ones(x: u32) -> (r: u32)
    ensures
        r == ones(x),
        r <= 32,
{
    let mut count: u32 = 0;
    let mut n: u32 = 0;
    while n < 32
        invariant
            n <= 32,
            count == ones_below(x, n as nat),
        decreases 32 - n,
    {
        proof {
            lemma_ones_bounded(x, n as nat);
        }
        if (x >> n) & 1 == 1 {
            count += 1;
        }
        n += 1;
    }
    proof {
        lemma_ones_bounded(x, 32);
    }
    count
}

/// What grows at `p` in the garden drawn by `rows`; nothing outside it.
pub open spec fn plot(rows: Seq<Seq<char>>, p: Point) -> Option<char> {
    if 0 <= p.y < rows.len() && 0 <= p.x < rows[p.y as int].len() {
        Some(rows[p.y as int][p.x as int])
    } else {
        None
    }
}

/// The herbs of the first `n` plots of `row`.
pub open spec fn herbs_in_row(row: Seq<char>, n: nat) -> u32
    decreases n,
{
    if n == 0 {
        0
    } else if is_herb(row[n - 1]) {
        herbs_in_row(row, (n - 1) as nat) | herb_bit(row[n - 1])
    } else {
        herbs_in_row(row, (n - 1) as nat)
    }
}

/// The herbs of the first `m` rows of the garden: one bit for each kind
/// that grows there.
pub open spec fn herbs_of(rows: Seq<Seq<char>>, m: nat) -> u32
    decreases m,
{
    if m == 0 {
        0
    } else {
        herbs_of(rows, (m - 1) as nat) | herbs_in_row(rows[m - 1], rows[m - 1].len())
    }
}

/// A plot to step on: a path or a herb.
pub open spec fn is_free(c: char) -> bool {
    c == '.' || is_herb(c)
}

/// One state of the walk that waits to be looked at: the steps taken, the
/// place, and the herbs picked before it.
pub type Visit = (u32, Point, u32);

/// The state of the search: the visits that wait, first come first, the
/// places and herbs that it has looked at, and the most kinds of herbs
/// picked on a walk so far.
pub type Search = (Seq<Visit>, Set<(Point, u32)>, u32);

/// What a step of the search comes to.
pub enum Outcome {
    /// The round is made, in so many steps.
    Found(u32),
    /// Nothing waits any more, or the steps cannot be counted.
    Lost,
    /// The search goes on.
    On(Search),
}

/// The visits that follow a visit of `p` after `steps` steps with the
/// herbs `herbs`, to the first `n` of its neighbours to the north, east,
/// south and west that are free.
pub open spec fn follow(rows: Seq<Seq<char>>, p: Point, steps: u32, herbs: u32, n: nat) -> Seq<
    Visit,
>
    decreases n,
{
    if n == 0 || n > 4 {
        Seq::empty()
    } else {
        let before = follow(rows, p, steps, herbs, (n - 1) as nat);
        let q = p.spec_neighbours4()[n - 1];
        match plot(rows, q) {
            Some(c) => if is_free(c) {
                before.push(((steps + 1) as u32, q, herbs))
            } else {
                before
            },
            None => before,
        }
    }
}

/// One step of the search for the round from `start` with all of the
/// herbs `all`: the first visit that waits is looked at, unless its place
/// and herbs have been; the round is made if it is at the start with all
/// herbs; it is given up if it has fewer kinds of herbs, by more than
/// three, than a walk before it; else its herb is picked and its free
/// neighbours wait to be visited.
pub open spec fn step(rows: Seq<Seq<char>>, start: Point, all: u32, s: Search) -> Outcome {
    if s.0.len() == 0 {
        Outcome::Lost
    } else {
        let (steps, p, herbs) = s.0[0];
        let rest = s.0.subrange(1, s.0.len() as int);
        if s.1.contains((p, herbs)) {
            Outcome::On((rest, s.1, s.2))
        } else if herbs == all && p == start {
            Outcome::Found(steps)
        } else if ones(herbs) + 3 < s.2 {
            Outcome::On((rest, s.1.insert((p, herbs)), s.2))
        } else {
            match plot(rows, p) {
                Some(tile) => {
                    let picked = if is_herb(tile) {
                        herbs | herb_bit(tile)
                    } else {
                        herbs
                    };
                    let most = if is_herb(tile) && ones(picked) > s.2 {
                        ones(picked) as u32
                    } else {
                        s.2
                    };
                    if steps < u32::MAX {
                        Outcome::On(
                            (rest + follow(rows, p, steps, picked, 4), s.1.insert((p, herbs)), most),
                        )
                    } else {
                        Outcome::Lost
                    }
                },
                None => Outcome::Lost,
            }
        }
    }
}

/// What the search comes to within `fuel` steps, from the state `s` on.
pub open spec fn run(rows: Seq<Seq<char>>, start: Point, all: u32, s: Search, fuel: nat) -> Option<
    u32,
>
    decreases fuel,
{
    if fuel == 0 {
        None
    } else {
        match step(rows, start, all, s) {
            Outcome::Found(steps) => Some(steps),
            Outcome::Lost => None,
            Outcome::On(next) => run(rows, start, all, next, (fuel - 1) as nat),
        }
    }
}

/// What the search comes to does not depend on the steps that it is given,
/// if they are enough.
pub proof fn lemma_run_enough(
    rows: Seq<Seq<char>>,
    start: Point,
    all: u32,
    s: Search,
    fuel: nat,
    more: nat,
)
    requires
        run(rows, start, all, s, fuel) is Some,
        fuel <= more,
    ensures
        run(rows, start, all, s, more) == run(rows, start, all, s, fuel),
    decreases fuel,
{
    match step(rows, start, all, s) {
        Outcome::On(next) => {
            lemma_run_enough(rows, start, all, next, (fuel - 1) as nat, (more - 1) as nat);
        },
        _ => {},
    }
}

/// The herbs picked at the first `n` places of `walk`.
pub open spec fn picked_on(rows: Seq<Seq<char>>, walk: Seq<Point>, n: nat) -> u32
    decreases n,
{
    if n == 0 {
        0
    } else {
        match plot(rows, walk[n - 1]) {
            Some(c) => if is_herb(c) {
                picked_on(rows, walk, (n - 1) as nat) | herb_bit(c)
            } else {
                picked_on(rows, walk, (n - 1) as nat)
            },
            None => picked_on(rows, walk, (n - 1) as nat),
        }
    }
}

/// `walk` is a walk through the garden from `start`: it goes from a plot
/// to one of its four neighbours, and onto paths and herbs only.
pub open spec fn is_stroll(rows: Seq<Seq<char>>, start: Point, walk: Seq<Point>) -> bool {
    &&& walk.len() >= 1
    &&& walk[0] == start
    &&& forall|i: int|
        1 <= i < walk.len() ==> walk[i - 1].spec_neighbours4().contains(#[trigger] walk[i]) && (plot(
            rows,
            walk[i],
        ) matches Some(c) && is_free(c))
}

/// The visit `v` is the end of a walk from `start` of as many steps, on
/// which its herbs were picked before its place.
pub open spec fn is_walked(rows: Seq<Seq<char>>, start: Point, v: Visit) -> bool {
    exists|walk: Seq<Point>|
        #[trigger] is_stroll(rows, start, walk) && walk.len() == v.0 + 1 && walk.last() == v.1
            && picked_on(rows, walk, v.0 as nat) == v.2
}

/// The herbs picked at the first places of a walk do not depend on those
/// that follow.
pub proof fn lemma_picked_prefix(rows: Seq<Seq<char>>, a: Seq<Point>, b: Seq<Point>, n: nat)
    requires
        n <= a.len(),
        n <= b.len(),
        forall|i: int| 0 <= i < n ==> a[i] == b[i],
    ensures
        picked_on(rows, a, n) == picked_on(rows, b, n),
    decreases n,
{
    if n > 0 {
        lemma_picked_prefix(rows, a, b, (n - 1) as nat);
    }
}

/// The visits that follow a visit which ends a walk end walks too.
pub proof fn lemma_follow_walked(
    rows: Seq<Seq<char>>,
    start: Point,
    v: Visit,
    n: nat,
    j: int,
)
    requires
        is_walked(rows, start, v),
        v.0 < u32::MAX,
        plot(rows, v.1) is Some,
        n <= 4,
        0 <= j < follow(
            rows,
            v.1,
            v.0,
            if is_herb(plot(rows, v.1).unwrap()) {
                v.2 | herb_bit(plot(rows, v.1).unwrap())
            } else {
                v.2
            },
            n,
        ).len(),
    ensures
        is_walked(
            rows,
            start,
            follow(
                rows,
                v.1,
                v.0,
                if is_herb(plot(rows, v.1).unwrap()) {
                    v.2 | herb_bit(plot(rows, v.1).unwrap())
                } else {
                    v.2
                },
                n,
            )[j],
        ),
    decreases n,
{
    let tile = plot(rows, v.1).unwrap();
    let picked = if is_herb(tile) {
        v.2 | herb_bit(tile)
    } else {
        v.2
    };
    let before = follow(rows, v.1, v.0, picked, (n - 1) as nat);
    if j < before.len() {
        lemma_follow_walked(rows, start, v, (n - 1) as nat, j);
    } else {
        let q = v.1.spec_neighbours4()[n - 1];
        let walk = choose|walk: Seq<Point>|
            #[trigger] is_stroll(rows, start, walk) && walk.len() == v.0 + 1 && walk.last() == v.1
                && picked_on(rows, walk, v.0 as nat) == v.2;
        let longer = walk.push(q);
        assert(is_stroll(rows, start, longer)) by {
            assert forall|i: int| 1 <= i < longer.len() implies longer[i
                - 1].spec_neighbours4().contains(#[trigger] longer[i]) && (plot(
                rows,
                longer[i],
            ) matches Some(c) && is_free(c)) by {
                if i < walk.len() {
                    assert(longer[i] == walk[i] && longer[i - 1] == walk[i - 1]);
                } else {
                    assert(longer[i - 1] == v.1);
                    assert(v.1.spec_neighbours4()[n - 1] == q);
                }
            }
        }
        lemma_picked_prefix(rows, walk, longer, v.0 as nat);
        assert(longer[v.0 as int] == v.1);
        assert(picked_on(rows, longer, (v.0 + 1) as nat) == picked);
    }
}

/// Every visit that waits is the end of a walk.
pub open spec fn all_walked(rows: Seq<Seq<char>>, start: Point, queue: Seq<Visit>) -> bool {
    forall|i: int| 0 <= i < queue.len() ==> is_walked(rows, start, #[trigger] queue[i])
}

/// What the search comes to is the length of a round: of a walk from the
/// start back to the start on which all herbs are picked.
pub proof fn lemma_run_is_round(
    rows: Seq<Seq<char>>,
    start: Point,
    all: u32,
    s: Search,
    fuel: nat,
)
    requires
        all_walked(rows, start, s.0),
        run(rows, start, all, s, fuel) is Some,
    ensures
        is_walked(rows, start, (run(rows, start, all, s, fuel).unwrap(), start, all)),
    decreases fuel,
{
    match step(rows, start, all, s) {
        Outcome::On(next) => {
            let v = s.0[0];
            let rest = s.0.subrange(1, s.0.len() as int);
            assert(is_walked(rows, start, v));
            assert forall|i: int| 0 <= i < next.0.len() implies is_walked(
                rows,
                start,
                #[trigger] next.0[i],
            ) by {
                if i < rest.len() {
                    assert(next.0[i] == s.0[i + 1]);
                } else {
                    lemma_follow_walked(rows, start, v, 4, i - rest.len());
                }
            }
            lemma_run_is_round(rows, start, all, next, (fuel - 1) as nat);
        },
        Outcome::Found(steps) => {
            assert(is_walked(rows, start, s.0[0]));
        },
        Outcome::Lost => {},
    }
}

/// The steps of the round that the search makes through the garden drawn
/// in `input` are those of a walk from the entrance and back on which one
/// herb of each kind that grows there is picked.
pub proof fn lemma_round_is_walked(input: Seq<char>)
    requires
        exists|fuel: nat| round_made(input, fuel),
    ensures
        is_walked(
            lines(input),
            entrance(lines(input)),
            (round_of(input), entrance(lines(input)), herbs_of(lines(input), lines(input).len())),
        ),
{
    let rows = lines(input);
    let start = entrance(rows);
    let fuel = choose|fuel: nat| round_made(input, fuel);
    assert(is_walked(rows, start, (0u32, start, 0u32))) by {
        assert(is_stroll(rows, start, seq![start]));
        assert(seq![start].last() == start);
    }
    lemma_run_is_round(rows, start, herbs_of(rows, rows.len()), beginning(rows), fuel);
}

/// Where the round begins: at the first path in the first row.
pub open spec fn entrance(rows: Seq<Seq<char>>) -> Point {
    Point { x: first_place(rows[0], '.') as i32, y: 0 }
}

/// The state in which the search begins.
pub open spec fn beginning(rows: Seq<Seq<char>>) -> Search {
    (seq![(0u32, entrance(rows), 0u32)], Set::empty(), 0u32)
}

/// The garden is drawn in rows of one length, in ASCII, with capital
/// letters for the herbs, and has an entrance in its first row.
pub open spec fn garden_drawn(input: Seq<char>) -> bool {
    &&& is_plain(input)
    &&& rectangular(lines(input))
    &&& fits(lines(input))
    &&& lines(input).len() > 0
    &&& first_place(lines(input)[0], '.') < lines(input)[0].len()
    &&& forall|y: int, x: int|
        0 <= y < lines(input).len() && 0 <= x < lines(input)[y].len() ==> !('a' <= (
        #[trigger] lines(input)[y][x]) <= 'z')
}

/// The search makes the round within `fuel` steps.
pub open spec fn round_made(input: Seq<char>, fuel: nat) -> bool {
    run(
        lines(input),
        entrance(lines(input)),
        herbs_of(lines(input), lines(input).len()),
        beginning(lines(input)),
        fuel,
    ) is Some
}

/// The steps of the round that the search makes.
pub open spec fn round_of(input: Seq<char>) -> u32 {
    run(
        lines(input),
        entrance(lines(input)),
        herbs_of(lines(input), lines(input).len()),
        beginning(lines(input)),
        choose|fuel: nat| round_made(input, fuel),
    ).unwrap()
}

/// The key under which a place with herbs is kept.
pub open spec fn state_key(p: Point, herbs: u32) -> u128 {
    (spec_code(p) * 0x1_0000_0000 + herbs) as u128
}

/// Different places or herbs have different keys.
pub proof fn lemma_state_key(p: Point, herbs: u32, q: Point, other: u32)
    ensures
        state_key(p, herbs) == state_key(q, other) <==> p == q && herbs == other,
{
    if state_key(p, herbs) == state_key(q, other) {
        let a = spec_code(p) as int;
        let b = spec_code(q) as int;
        if a < b {
            assert(a * 0x1_0000_0000 + 0x1_0000_0000 <= b * 0x1_0000_0000);
        }
        if b < a {
            assert(b * 0x1_0000_0000 + 0x1_0000_0000 <= a * 0x1_0000_0000);
        }
        lemma_code_injective(p, q);
    }
}

/// What `seen` holds is what the search has looked at.
pub open spec fn seen_is(seen: Map<u128, bool>, looked: Set<(Point, u32)>) -> bool {
    &&& forall|p: Point, herbs: u32| #[trigger]
        looked.contains((p, herbs)) ==> seen.contains_key(state_key(p, herbs))
    &&& forall|k: u128| #[trigger]
        seen.contains_key(k) ==> exists|p: Point, herbs: u32| #[trigger]
            looked.contains((p, herbs)) && state_key(p, herbs) == k
}

/// What a grid of the garden holds at `p` is what grows there.
pub proof fn lemma_plot(grid: &Grid<char>, p: Point)
    requires
        grid.wf(),
    ensures
        plot(grid@, p) == grid.spec_at(p),
{
    if 0 <= p.y < grid@.len() {
        assert(grid@[p.y as int].len() == grid@[0].len());
    }
}

/// The herbs that grow in the garden `grid`: one bit for each kind.
fn all_herbs(grid: &Grid<char>) -> (all: u32)
    requires
        grid.wf(),
        fits(grid@),
    ensures
        all == herbs_of(grid@, grid@.len()),
{
    let mut all: u32 = 0;
    let mut y: usize = 0;
    while y < grid.height()
        invariant
            y <= grid@.len(),
            grid.wf(),
            fits(grid@),
            all == herbs_of(grid@, y as nat),
        decreases grid@.len() - y,
    {
        let mut in_row: u32 = 0;
        let mut x: usize = 0;
        proof {
            assert(grid@[y as int].len() == grid@[0].len());
            assert(grid@[y as int].len() <= i32::MAX);
        }
        while x < grid.width()
            invariant
                x <= grid@[y as int].len(),
                y < grid@.len(),
                grid.wf(),
                fits(grid@),
                grid@[y as int].len() == grid.spec_width(),
                grid@[y as int].len() <= i32::MAX,
                in_row == herbs_in_row(grid@[y as int], x as nat),
            decreases grid.spec_width() - x,
        {
            let p = Point::new(x as i32, y as i32);
            proof {
                lemma_plot(grid, p);
            }
            match grid.at(p) {
                Some(c) => {
                    if 'A' <= *c && *c <= 'Z' {
                        let shift: u32 = *c as u32 - 65;
                        in_row = in_row | (1u32 << shift);
                    }
                },
                None => {},
            }
            x += 1;
        }
        all = all | in_row;
        y += 1;
    }
    all
}

/// The steps of the round through the garden drawn in `input`, from its
/// entrance and back, on which every kind of herb is picked; the round is
/// searched for step by step, all walks of one length before the longer
/// ones, and a walk is given up that has picked fewer kinds of herbs, by
/// more than three, than another before it.
fn solve(input: &str) -> (r: u32)
    requires
        garden_drawn(input@),
        exists|fuel: nat| round_made(input@, fuel),
    ensures
        r == round_of(input@),
{
    let ghost rows = lines(input@);
    let grid: Grid<char> = match Grid::from_str(input) {
        Ok(grid) => grid,
        Err(_) => {
            return 0;
        },
    };
    let all_collected = all_herbs(&grid);

    let mut start_x: usize = 0;
    proof {
        assert(rows[0].len() <= i32::MAX);
        assert(rows[0].len() == grid.spec_width());
        crate::text::lemma_first_place_is(rows[0], '.');
    }
    while start_x < grid.width() && !on_path(&grid, start_x)
        invariant
            grid.wf(),
            grid@ == rows,
            rows.len() > 0,
            rows[0].len() == grid.spec_width(),
            rows[0].len() <= i32::MAX,
            start_x <= rows[0].len(),
            forall|j: int| 0 <= j < start_x ==> rows[0][j] != '.',
        decreases rows[0].len() - start_x,
    {
        start_x += 1;
    }
    proof {
        crate::text::lemma_first_place(rows[0], '.', start_x as int);
    }
    let start = Point::new(start_x as i32, 0);

    let ghost fuel_at_first = choose|fuel: nat| round_made(input@, fuel);
    let ghost goal = run(rows, start, all_collected, beginning(rows), fuel_at_first);
    let ghost mut fuel = fuel_at_first;
    let ghost mut looked: Set<(Point, u32)> = Set::empty();

    let mut queue: VecDeque<Visit> = VecDeque::new();
    let mut seen: HashMap<u128, bool> = HashMap::new();
    queue.push_back((0, start, 0u32));

    let mut most_collected: u32 = 0;
    proof {
        assert(queue@ =~= beginning(rows).0);
    }

    loop
        invariant
            grid.wf(),
            grid@ == rows,
            fits(rows),
            rows == lines(input@),
            start == entrance(rows),
            goal is Some,
            goal == Some(round_of(input@)),
            seen_is(seen@, looked),
            run(rows, start, all_collected, (queue@, looked, most_collected), fuel) == goal,
        decreases fuel,
    {
        let ghost s: Search = (queue@, looked, most_collected);
        let ghost waiting = queue@;
        let (distance, current, collected) = match queue.pop_front() {
            Some(visit) => visit,
            None => {
                return 0;
            },
        };
        let ghost rest = waiting.subrange(1, waiting.len() as int);
        proof {
            assert(waiting[0] == (distance, current, collected));
            assert(queue@ == rest);
            lemma_state_key(current, collected, current, collected);
        }
        let key: u128 = (code(current) as u128) * 0x1_0000_0000 + collected as u128;
        if seen.contains_key(&key) {
            proof {
                let (p, herbs) = choose|p: Point, herbs: u32| #[trigger]
                    looked.contains((p, herbs)) && state_key(p, herbs) == key;
                lemma_state_key(p, herbs, current, collected);
                fuel = (fuel - 1) as nat;
            }
            continue ;
        }
        proof {
            if looked.contains((current, collected)) {
                assert(seen@.contains_key(state_key(current, collected)));
            }
        }
        let ghost looked_before = looked;
        let ghost seen_before = seen@;
        seen.insert(key, true);
        proof {
            looked = looked.insert((current, collected));
            assert(seen_is(seen@, looked)) by {
                assert forall|p: Point, herbs: u32| #[trigger]
                    looked.contains((p, herbs)) implies seen@.contains_key(state_key(p, herbs)) by {
                    if (p, herbs) != (current, collected) {
                        assert(looked_before.contains((p, herbs)));
                    }
                }
                assert forall|k: u128| #[trigger] seen@.contains_key(k) implies exists|
                    p: Point,
                    herbs: u32,
                | #[trigger] looked.contains((p, herbs)) && state_key(p, herbs) == k by {
                    if k == key {
                        assert(looked.contains((current, collected)));
                    } else {
                        assert(seen_before.contains_key(k));
                        let (p, herbs) = choose|p: Point, herbs: u32| #[trigger]
                            looked_before.contains((p, herbs)) && state_key(p, herbs) == k;
                        assert(looked.contains((p, herbs)));
                    }
                }
            }
        }

        if collected == all_collected && current == start {
            return distance;
        }
        if count_ones(collected) + 3 < most_collected {
            // no point carrying on down an underperforming path
            proof {
                lemma_ones_bounded(collected, 32);
                fuel = (fuel - 1) as nat;
            }
            continue ;
        }
        proof {
            lemma_ones_bounded(collected, 32);
            lemma_plot(&grid, current);
        }
        let tile: char = match grid.at(current) {
            Some(tile) => *tile,
            None => {
                return 0;
            },
        };
        let mut picked = collected;
        if 'A' <= tile && tile <= 'Z' {
            let shift: u32 = tile as u32 - 65;
            picked = collected | (1u32 << shift);
            let kinds = count_ones(picked);
            if kinds > most_collected {
                most_collected = kinds;
            }
        }
        proof {
            assert(rows[current.y as int].len() <= i32::MAX);
        }
        let around = current.neighbours4();
        let mut n: usize = 0;
        proof {
            assert(rest + follow(rows, current, distance, picked, 0) =~= rest);
        }
        while n < 4
            invariant
                n <= 4,
                grid.wf(),
                grid@ == rows,
                distance < u32::MAX,
                around@ == current.spec_neighbours4(),
                queue@ == rest + follow(rows, current, distance, picked, n as nat),
            decreases 4 - n,
        {
            let neighbour = around[n];
            let ghost held = follow(rows, current, distance, picked, n as nat);
            proof {
                lemma_plot(&grid, neighbour);
            }
            match grid.at(neighbour) {
                Some(cell) => {
                    if *cell == '.' || ('A' <= *cell && *cell <= 'Z') {
                        queue.push_back((distance + 1, neighbour, picked));
                        proof {
                            assert(rest + held.push(((distance + 1) as u32, neighbour, picked))
                                =~= (rest + held).push(((distance + 1) as u32, neighbour, picked)));
                        }
                    }
                },
                None => {},
            }
            n += 1;
        }
        proof {
            fuel = (fuel - 1) as nat;
        }
    }
}

/// Whether the plot at `x` in the first row of the garden is a path.
fn on_path(grid: &Grid<char>, x: usize) -> (b: bool)
    requires
        grid.wf(),
        grid@.len() > 0,
        x < grid@[0].len() <= i32::MAX,
    ensures
        b == (grid@[0][x as int] == '.'),
{
    let p = Point::new(x as i32, 0);
    proof {
        lemma_plot(grid, p);
    }
    match grid.at(p) {
        Some(c) => *c == '.',
        None => false,
    }
}

/// The steps of the round through the garden drawn in `input` on which its
/// one kind of herb is picked.
pub fn part1(input: &str) -> (r: u32)
    requires
        garden_drawn(input@),
        exists|fuel: nat| round_made(input@, fuel),
    ensures
        r == round_of(input@),
{
    solve(input)
}

/// The steps of the round through the garden drawn in `input` on which one
/// herb of each kind is picked.
pub fn part2(input: &str) -> (r: u32)
    requires
        garden_drawn(input@),
        exists|fuel: nat| round_made(input@, fuel),
    ensures
        r == round_of(input@),
{
    solve(input)
}

/// As `part2`, through a greater garden.
pub fn part3(input: &str) -> (r: u32)
    requires
        garden_drawn(input@),
        exists|fuel: nat| round_made(input@, fuel),
    ensures
        r == round_of(input@),
{
    solve(input)
}

} // verus!
