//! Stars joined to constellations: each star is tied to the nearest one
//! that belongs already, and the size of a constellation is the length of
//! its ties and the number of its stars.

use crate::frontier::{Frontier, State};
use crate::grid::{rows_view, Point};
use crate::point_map::{all_points, lemma_points_finite, PointMap};
use crate::spanning::{lemma_tied_shortest, tied_shortest};
use crate::chart::{cells, find_cells, fits, holds, lemma_cells_hold};
use crate::text::{chars_of, is_plain, lines, split_lines};
use vstd::multiset::Multiset;
use vstd::prelude::*;
use vstd::relations::{sorted_by, total_ordering};
use vstd::seq_lib::{lemma_sorted_unique, to_multiset_insert};

verus! {

/// The stars of the sky drawn by `rows`, in reading order; columns and
/// rows are counted from one.
pub open spec fn stars_of(rows: Seq<Seq<char>>) -> Seq<Point> {
    Seq::new(
        cells(rows, '*', rows.len()).len(),
        |i: int|
            Point {
                x: (cells(rows, '*', rows.len())[i].x + 1) as i32,
                y: (cells(rows, '*', rows.len())[i].y + 1) as i32,
            },
    )
}

/// The sky drawn by `rows` can be counted from one: it is narrower and
/// lower than the greatest `i32`.
pub open spec fn sky_drawn(rows: Seq<Seq<char>>) -> bool {
    &&& rows.len() < i32::MAX
    &&& forall|y: int| 0 <= y < rows.len() ==> (#[trigger] rows[y]).len() < i32::MAX
}

/// Reads the stars of the sky drawn in `input`.
pub fn parse(input: &str) -> (stars: Vec<Point>)
    requires
        is_plain(input@),
        sky_drawn(lines(input@)),
    ensures
        stars@ == stars_of(lines(input@)),
{
    let text = chars_of(input);
    let rows = split_lines(&text);
    let ghost drawn = lines(text@);
    proof {
        assert(fits(drawn)) by {
            assert forall|y: int| 0 <= y < drawn.len() implies (#[trigger] drawn[y]).len()
                <= i32::MAX by {}
        }
    }
    let found = find_cells(&rows, '*');
    let mut stars: Vec<Point> = Vec::new();
    let mut i: usize = 0;
    while i < found.len()
        invariant
            i <= found.len(),
            drawn == rows_view(rows@),
            fits(drawn),
            sky_drawn(drawn),
            found@ == cells(drawn, '*', drawn.len()),
            stars@.len() == i,
            forall|j: int|
                0 <= j < i ==> #[trigger] stars@[j] == (Point {
                    x: (found@[j].x + 1) as i32,
                    y: (found@[j].y + 1) as i32,
                }),
        decreases found.len() - i,
    {
        let p = found[i];
        proof {
            lemma_cells_hold(drawn, '*', drawn.len(), i as int);
            assert(holds(drawn, '*', p));
            assert(drawn[p.y as int].len() < i32::MAX);
        }
        stars.push(Point::new(p.x + 1, p.y + 1));
        i += 1;
    }
    proof {
        assert(stars@ =~= stars_of(drawn));
    }
    stars
}

/// How far two stars are apart: along the rows and along the columns.
pub open spec fn gap(a: Point, b: Point) -> int {
    a.spec_manhattan_distance(b)
}

/// The ties of a constellation of the stars `joined`, each tied to the one
/// at the place that `parents` gives for it, summed up over the first `n`.
pub open spec fn ties(joined: Seq<Point>, parents: Seq<int>, n: nat) -> nat
    decreases n,
{
    if n <= 1 {
        0
    } else {
        ties(joined, parents, (n - 1) as nat) + gap(joined[n - 1], joined[parents[n - 1]]) as nat
    }
}

/// The stars `joined` are a constellation grown from `start`: each but the
/// first is one of `stars`, and is tied to one that joined before it and
/// is less than `limit` away; none joined twice.
pub open spec fn is_tree(
    stars: Seq<Point>,
    start: Point,
    limit: int,
    joined: Seq<Point>,
    parents: Seq<int>,
) -> bool {
    &&& joined.len() >= 1
    &&& parents.len() == joined.len()
    &&& joined[0] == start
    &&& joined.no_duplicates()
    &&& forall|k: int|
        1 <= k < joined.len() ==> stars.contains(#[trigger] joined[k]) && 0 <= parents[k] < k && gap(
            joined[k],
            joined[parents[k]],
        ) < limit
}

/// The constellation `joined` is whole: every star less than `limit` away
/// from one of its stars belongs to it, unless it was `taken` before.
pub open spec fn is_whole(
    stars: Seq<Point>,
    taken: Set<Point>,
    limit: int,
    joined: Seq<Point>,
) -> bool {
    forall|i: int, k: int|
        0 <= i < stars.len() && 0 <= k < joined.len() && gap(
            #[trigger] stars[i],
            #[trigger] joined[k],
        ) < limit && !taken.contains(stars[i]) ==> joined.contains(stars[i])
}

/// The star `p` is free before the star at `k` joins: it was not `taken`
/// before, and is none of the stars that joined earlier.
pub open spec fn free_before(taken: Set<Point>, joined: Seq<Point>, k: int, p: Point) -> bool {
    !taken.contains(p) && forall|m: int| 0 <= m < k ==> #[trigger] joined[m] != p
}

/// The star at `k` joined by the shortest tie that there was: no star that
/// was free then was nearer to any star that had joined. So it is tied to
/// the nearest of those that joined before it.
pub open spec fn joined_nearest(
    stars: Seq<Point>,
    taken: Set<Point>,
    joined: Seq<Point>,
    parents: Seq<int>,
    k: int,
) -> bool {
    forall|i: int, j: int|
        0 <= i < stars.len() && 0 <= j < k && free_before(taken, joined, k, #[trigger] stars[i])
            ==> gap(joined[k], joined[parents[k]]) <= gap(stars[i], #[trigger] joined[j])
}

/// Every star but the first joined by the shortest tie that there was
/// between a free star and one that had joined.
pub open spec fn nearest_first(
    stars: Seq<Point>,
    taken: Set<Point>,
    joined: Seq<Point>,
    parents: Seq<int>,
) -> bool {
    forall|k: int| 1 <= k < joined.len() ==> #[trigger] joined_nearest(stars, taken, joined, parents, k)
}

/// `joined`, tied as `parents` says, is a whole constellation grown from
/// `start` of the stars that were not `taken` before, each star joining by
/// the shortest tie that there was.
pub open spec fn is_constellation(
    stars: Seq<Point>,
    taken: Set<Point>,
    start: Point,
    limit: int,
    joined: Seq<Point>,
    parents: Seq<int>,
) -> bool {
    &&& is_tree(stars, start, limit, joined, parents)
    &&& is_whole(stars, taken, limit, joined)
    &&& forall|k: int| 1 <= k < joined.len() ==> !taken.contains(#[trigger] joined[k])
    &&& nearest_first(stars, taken, joined, parents)
}

/// No two of `stars` and `start` are further apart than an `i32` holds,
/// and the sizes of their constellations can be counted.
pub open spec fn stars_fit(stars: Seq<Point>, start: Point) -> bool {
    &&& (stars.len() + 2) * 0x8000_0000 <= usize::MAX
    &&& forall|i: int| 0 <= i < stars.len() ==> gap(#[trigger] stars[i], start) <= i32::MAX
    &&& forall|i: int, j: int|
        0 <= i < stars.len() && 0 <= j < stars.len() ==> gap(#[trigger] stars[i], #[trigger] stars[j])
            <= i32::MAX
}

/// The ties of a constellation are shorter than `limit` and than the
/// greatest `i32` each.
pub proof fn lemma_ties_bounded(
    stars: Seq<Point>,
    start: Point,
    limit: int,
    joined: Seq<Point>,
    parents: Seq<int>,
    n: nat,
)
    requires
        is_tree(stars, start, limit, joined, parents),
        stars_fit(stars, start),
        1 <= n <= joined.len(),
    ensures
        ties(joined, parents, n) <= (n - 1) * 0x7fff_ffff,
        limit >= 1 ==> ties(joined, parents, n) <= (n - 1) * (limit - 1),
    decreases n,
{
    if n > 1 {
        lemma_ties_bounded(stars, start, limit, joined, parents, (n - 1) as nat);
        let k = n - 1;
        let a = joined[k];
        let b = joined[parents[k]];
        assert(stars.contains(a));
        let i = choose|i: int| 0 <= i < stars.len() && stars[i] == a;
        if parents[k] == 0 {
            assert(gap(stars[i], start) <= i32::MAX);
        } else {
            assert(stars.contains(joined[parents[k]]));
            let j = choose|j: int| 0 <= j < stars.len() && stars[j] == b;
            assert(gap(stars[i], stars[j]) <= i32::MAX);
        }
        assert((n - 2) * 0x7fff_ffff + 0x7fff_ffff == (n - 1) * 0x7fff_ffff) by (nonlinear_arith);
        if limit >= 1 {
            assert((n - 2) * (limit - 1) + (limit - 1) == (n - 1) * (limit - 1)) by (nonlinear_arith);
        }
    } else {
        assert(0 * 0x7fff_ffff == 0);
    }
}

/// A constellation has no more stars than there are, and its start.
pub proof fn lemma_tree_len(
    stars: Seq<Point>,
    start: Point,
    limit: int,
    joined: Seq<Point>,
    parents: Seq<int>,
)
    requires
        is_tree(stars, start, limit, joined, parents),
    ensures
        joined.len() <= stars.len() + 1,
{
    let rest = joined.drop_first();
    assert(rest.no_duplicates()) by {
        assert forall|i: int, j: int| 0 <= i < rest.len() && 0 <= j < rest.len() && i != j implies rest[i]
            != rest[j] by {
            assert(rest[i] == joined[i + 1] && rest[j] == joined[j + 1]);
        }
    }
    rest.unique_seq_to_set();
    stars.lemma_cardinality_of_set();
    vstd::seq_lib::seq_to_set_is_finite(stars);
    assert(rest.to_set().subset_of(stars.to_set())) by {
        assert forall|p: Point| rest.to_set().contains(p) implies stars.to_set().contains(p) by {
            let i = choose|i: int| 0 <= i < rest.len() && rest[i] == p;
            assert(joined[i + 1] == p);
            assert(stars.contains(joined[i + 1]));
        }
    }
    vstd::set_lib::lemma_len_subset(rest.to_set(), stars.to_set());
}

/// The stars that are taken once `joined` have joined a constellation.
pub open spec fn taken_with(taken: Set<Point>, joined: Seq<Point>) -> Set<Point> {
    Set::new(|p: Point| taken.contains(p) || joined.contains(p))
}

/// A state of the queue holds a star that waits to join: it is less than
/// `limit` away from a star that has joined, by the cost of the state.
pub open spec fn waits(
    stars: Seq<Point>,
    limit: int,
    joined: Seq<Point>,
    e: State,
) -> bool {
    stars.contains(e.node) && exists|k: int|
        0 <= k < joined.len() && e.cost == gap(e.node, #[trigger] joined[k]) && e.cost < limit
}

/// The star at `i` is less than `limit` away from the joined star at `k`
/// and not taken yet, so that it has to wait in the queue.
pub open spec fn has_to_wait(
    stars: Seq<Point>,
    taken: Set<Point>,
    limit: int,
    joined: Seq<Point>,
    i: int,
    k: int,
) -> bool {
    &&& 0 <= i < stars.len()
    &&& 0 <= k < joined.len()
    &&& gap(stars[i], joined[k]) < limit
    &&& !taken_with(taken, joined).contains(stars[i])
}

/// Some state of the queue holds the star `p` at the cost `c`.
pub open spec fn queued(queue: Multiset<State>, p: Point, c: int) -> bool {
    exists|e: State| #[trigger] queue.count(e) > 0 && e.node == p && e.cost == c
}

/// The state of a constellation that grows: `joined` are its stars so far,
/// the `queue` holds stars that wait to join, and every star that has to
/// wait for one of the first `done` joined stars does, at the cost of its
/// gap to that star, and so does each of the first `looked` stars that has
/// to wait for the next.
#[verifier::opaque]
pub open spec fn growing(
    stars: Seq<Point>,
    taken: Set<Point>,
    start: Point,
    limit: int,
    joined: Seq<Point>,
    parents: Seq<int>,
    queue: Multiset<State>,
    done: int,
    looked: int,
) -> bool {
    &&& is_tree(stars, start, limit, joined, parents)
    &&& forall|k: int| 1 <= k < joined.len() ==> !taken.contains(#[trigger] joined[k])
    &&& forall|e: State| #[trigger] queue.count(e) > 0 ==> waits(stars, limit, joined, e)
    &&& forall|i: int, k: int|
        #[trigger] has_to_wait(stars, taken, limit, joined, i, k) && (k < done || (k == done && i
            < looked)) ==> queued(queue, stars[i], gap(stars[i], joined[k]))
    &&& nearest_first(stars, taken, joined, parents)
}

/// A constellation begins with its start alone.
pub proof fn lemma_grow_begin(stars: Seq<Point>, taken: Set<Point>, start: Point, limit: int)
    ensures
        growing(stars, taken, start, limit, seq![start], seq![0int], Multiset::empty(), 0, 0),
{
    reveal(growing);
}

/// A star that has to wait for the star looked at joins the queue.
pub proof fn lemma_grow_push(
    stars: Seq<Point>,
    taken: Set<Point>,
    start: Point,
    limit: int,
    joined: Seq<Point>,
    parents: Seq<int>,
    queue: Multiset<State>,
    done: int,
    looked: int,
)
    requires
        growing(stars, taken, start, limit, joined, parents, queue, done, looked),
        0 <= done < joined.len(),
        0 <= looked < stars.len(),
        0 <= gap(stars[looked], joined[done]) < limit,
        gap(stars[looked], joined[done]) <= usize::MAX,
    ensures
        growing(
            stars,
            taken,
            start,
            limit,
            joined,
            parents,
            queue.insert(
                State { cost: gap(stars[looked], joined[done]) as usize, node: stars[looked] },
            ),
            done,
            looked + 1,
        ),
{
    reveal(growing);
    let added = State { cost: gap(stars[looked], joined[done]) as usize, node: stars[looked] };
    let queue2 = queue.insert(added);
    assert(waits(stars, limit, joined, added)) by {
        assert(added.cost == gap(added.node, joined[done]));
    }
    assert forall|e: State| #[trigger] queue2.count(e) > 0 implies waits(stars, limit, joined, e) by {
        if e != added {
            assert(queue.count(e) > 0);
        }
    }
    assert forall|i: int, k: int|
        #[trigger] has_to_wait(stars, taken, limit, joined, i, k) && (k < done || (k == done && i
            < looked + 1)) implies queued(queue2, stars[i], gap(stars[i], joined[k])) by {
        let c = gap(stars[i], joined[k]);
        if k == done && i == looked {
            assert(queue2.count(added) > 0 && added.node == stars[i] && added.cost == c);
        } else {
            assert(queued(queue, stars[i], c));
            let e = choose|e: State| #[trigger] queue.count(e) > 0 && e.node == stars[i] && e.cost == c;
            assert(queue2.count(e) > 0);
        }
    }
}

/// A star that does not have to wait for the star looked at is passed
/// over.
pub proof fn lemma_grow_pass(
    stars: Seq<Point>,
    taken: Set<Point>,
    start: Point,
    limit: int,
    joined: Seq<Point>,
    parents: Seq<int>,
    queue: Multiset<State>,
    done: int,
    looked: int,
)
    requires
        growing(stars, taken, start, limit, joined, parents, queue, done, looked),
        0 <= done < joined.len(),
        0 <= looked < stars.len(),
        taken_with(taken, joined).contains(stars[looked]) || gap(stars[looked], joined[done])
            >= limit,
    ensures
        growing(stars, taken, start, limit, joined, parents, queue, done, looked + 1),
{
    reveal(growing);
}

/// Once all stars have been looked at for a joined star, that star is
/// done.
pub proof fn lemma_grow_next(
    stars: Seq<Point>,
    taken: Set<Point>,
    start: Point,
    limit: int,
    joined: Seq<Point>,
    parents: Seq<int>,
    queue: Multiset<State>,
    done: int,
)
    requires
        growing(stars, taken, start, limit, joined, parents, queue, done, stars.len() as int),
    ensures
        growing(stars, taken, start, limit, joined, parents, queue, done + 1, 0),
{
    reveal(growing);
}

/// A state whose star has been taken meanwhile is dropped.
pub proof fn lemma_grow_drop(
    stars: Seq<Point>,
    taken: Set<Point>,
    start: Point,
    limit: int,
    joined: Seq<Point>,
    parents: Seq<int>,
    queue: Multiset<State>,
    e: State,
)
    requires
        growing(stars, taken, start, limit, joined, parents, queue, joined.len() as int, 0),
        queue.count(e) > 0,
        taken_with(taken, joined).contains(e.node),
    ensures
        growing(
            stars,
            taken,
            start,
            limit,
            joined,
            parents,
            queue.remove(e),
            joined.len() as int,
            0,
        ),
{
    reveal(growing);
    let queue2 = queue.remove(e);
    assert forall|x: State| #[trigger] queue2.count(x) > 0 implies queue.count(x) > 0 by {}
    assert forall|i: int, k: int|
        #[trigger] has_to_wait(stars, taken, limit, joined, i, k) && k < joined.len() implies queued(
        queue2,
        stars[i],
        gap(stars[i], joined[k]),
    ) by {
        let c = gap(stars[i], joined[k]);
        assert(queued(queue, stars[i], c));
        let x = choose|x: State| #[trigger] queue.count(x) > 0 && x.node == stars[i] && x.cost == c;
        assert(x != e);
        assert(queue2.count(x) > 0);
    }
}

/// A state whose star has not been taken lets that star join, tied to the
/// star that it waited for.
pub proof fn lemma_grow_join(
    stars: Seq<Point>,
    taken: Set<Point>,
    start: Point,
    limit: int,
    joined: Seq<Point>,
    parents: Seq<int>,
    queue: Multiset<State>,
    e: State,
) -> (parent: int)
    requires
        growing(stars, taken, start, limit, joined, parents, queue, joined.len() as int, 0),
        queue.count(e) > 0,
        forall|other: State| #[trigger] queue.count(other) > 0 ==> e.cost <= other.cost,
        !taken_with(taken, joined).contains(e.node),
    ensures
        0 <= parent < joined.len(),
        e.cost == gap(e.node, joined[parent]),
        growing(
            stars,
            taken,
            start,
            limit,
            joined.push(e.node),
            parents.push(parent),
            queue.remove(e),
            joined.len() as int,
            0,
        ),
        ties(joined.push(e.node), parents.push(parent), (joined.len() + 1) as nat) == ties(
            joined,
            parents,
            joined.len(),
        ) + e.cost,
{
    reveal(growing);
    assert(waits(stars, limit, joined, e));
    let parent = choose|k: int|
        0 <= k < joined.len() && e.cost == gap(e.node, #[trigger] joined[k]) && e.cost < limit;
    let joined2 = joined.push(e.node);
    let parents2 = parents.push(parent);
    let queue2 = queue.remove(e);
    assert(!joined.contains(e.node));
    assert(joined2.no_duplicates()) by {
        assert forall|i: int, j: int|
            0 <= i < joined2.len() && 0 <= j < joined2.len() && i != j implies joined2[i]
            != joined2[j] by {
            if i < joined.len() && j < joined.len() {
                assert(joined2[i] == joined[i] && joined2[j] == joined[j]);
            } else if i < joined.len() {
                assert(joined.contains(joined[i]));
            } else {
                assert(joined.contains(joined[j]));
            }
        }
    }
    assert forall|k: int| 1 <= k < joined2.len() implies stars.contains(#[trigger] joined2[k]) && 0
        <= parents2[k] < k && gap(joined2[k], joined2[parents2[k]]) < limit by {
        if k < joined.len() {
            assert(joined2[k] == joined[k]);
            assert(parents2[k] == parents[k]);
            assert(joined2[parents2[k]] == joined[parents[k]]);
        }
    }
    assert forall|k: int| 1 <= k < joined2.len() implies !taken.contains(#[trigger] joined2[k]) by {
        if k < joined.len() {
            assert(joined2[k] == joined[k]);
        }
    }
    assert forall|x: State| #[trigger] queue2.count(x) > 0 implies waits(stars, limit, joined2, x) by {
        assert(queue.count(x) > 0);
        assert(waits(stars, limit, joined, x));
        let k = choose|k: int|
            0 <= k < joined.len() && x.cost == gap(x.node, #[trigger] joined[k]) && x.cost < limit;
        assert(joined2[k] == joined[k]);
    }
    assert forall|i: int, k: int|
        #[trigger] has_to_wait(stars, taken, limit, joined2, i, k) && k < joined.len() implies queued(
        queue2,
        stars[i],
        gap(stars[i], joined2[k]),
    ) by {
        let c = gap(stars[i], joined[k]);
        assert(joined2[k] == joined[k]);
        assert(!taken_with(taken, joined).contains(stars[i])) by {
            if joined.contains(stars[i]) {
                let j = choose|j: int| 0 <= j < joined.len() && joined[j] == stars[i];
                assert(joined2[j] == stars[i]);
            }
        }
        assert(has_to_wait(stars, taken, limit, joined, i, k));
        assert(queued(queue, stars[i], c));
        let x = choose|x: State| #[trigger] queue.count(x) > 0 && x.node == stars[i] && x.cost == c;
        assert(x.node != e.node) by {
            assert(joined2[joined.len() as int] == e.node);
        }
        assert(queue2.count(x) > 0);
    }
    assert forall|k: int| 1 <= k < joined2.len() implies #[trigger] joined_nearest(
        stars,
        taken,
        joined2,
        parents2,
        k,
    ) by {
        if k < joined.len() {
            assert(joined_nearest(stars, taken, joined, parents, k));
            assert(0 <= parents[k] < k) by {
                assert(stars.contains(joined[k]));
            }
            assert forall|i: int, j: int|
                0 <= i < stars.len() && 0 <= j < k && free_before(
                    taken,
                    joined2,
                    k,
                    #[trigger] stars[i],
                ) implies gap(joined2[k], joined2[parents2[k]]) <= gap(
                stars[i],
                #[trigger] joined2[j],
            ) by {
                assert forall|m: int| 0 <= m < k implies #[trigger] joined[m] != stars[i] by {
                    assert(joined2[m] == joined[m]);
                }
                assert(free_before(taken, joined, k, stars[i]));
                assert(joined2[j] == joined[j]);
                assert(gap(joined[k], joined[parents[k]]) <= gap(stars[i], joined[j]));
            }
        } else {
            assert(joined2[k] == e.node);
            assert(joined2[parents2[k]] == joined[parent]);
            assert forall|i: int, j: int|
                0 <= i < stars.len() && 0 <= j < k && free_before(
                    taken,
                    joined2,
                    k,
                    #[trigger] stars[i],
                ) implies gap(joined2[k], joined2[parents2[k]]) <= gap(
                stars[i],
                #[trigger] joined2[j],
            ) by {
                assert(joined2[j] == joined[j]);
                if gap(stars[i], joined[j]) < limit {
                    assert(!taken_with(taken, joined).contains(stars[i])) by {
                        if joined.contains(stars[i]) {
                            let m = choose|m: int| 0 <= m < joined.len() && joined[m] == stars[i];
                            assert(joined2[m] == stars[i]);
                        }
                    }
                    assert(has_to_wait(stars, taken, limit, joined, i, j));
                    assert(queued(queue, stars[i], gap(stars[i], joined[j])));
                }
            }
        }
    }
    assert forall|k: int| 1 <= k < joined.len() implies 0 <= #[trigger] parents[k] < k by {
        assert(stars.contains(joined[k]));
    }
    lemma_ties_prefix(joined, parents, joined2, parents2, joined.len());
    parent
}

/// The ties of the stars that joined first do not depend on those that
/// joined later.
pub proof fn lemma_ties_prefix(
    joined: Seq<Point>,
    parents: Seq<int>,
    joined2: Seq<Point>,
    parents2: Seq<int>,
    n: nat,
)
    requires
        n <= joined.len(),
        joined.len() <= joined2.len(),
        parents.len() == joined.len(),
        parents2.len() == joined2.len(),
        forall|k: int| 0 <= k < joined.len() ==> joined[k] == joined2[k] && parents[k] == parents2[k],
        forall|k: int| 1 <= k < joined.len() ==> 0 <= #[trigger] parents[k] < k,
    ensures
        ties(joined, parents, n) == ties(joined2, parents2, n),
    decreases n,
{
    if n > 1 {
        lemma_ties_prefix(joined, parents, joined2, parents2, (n - 1) as nat);
        assert(0 <= parents[n - 1] < n - 1);
    }
}

/// When no star waits any more, the constellation is whole.
pub proof fn lemma_grow_end(
    stars: Seq<Point>,
    taken: Set<Point>,
    start: Point,
    limit: int,
    joined: Seq<Point>,
    parents: Seq<int>,
    queue: Multiset<State>,
)
    requires
        growing(stars, taken, start, limit, joined, parents, queue, joined.len() as int, 0),
        queue.len() == 0,
    ensures
        is_constellation(stars, taken, start, limit, joined, parents),
{
    reveal(growing);
    assert forall|e: State| queue.count(e) == 0 by {
        vstd::multiset::axiom_count_le_len(queue, e);
    }
    assert forall|i: int, k: int|
        0 <= i < stars.len() && 0 <= k < joined.len() && gap(
            #[trigger] stars[i],
            #[trigger] joined[k],
        ) < limit && !taken.contains(stars[i]) implies joined.contains(stars[i]) by {
        if !joined.contains(stars[i]) {
            assert(has_to_wait(stars, taken, limit, joined, i, k));
            assert(queued(queue, stars[i], gap(stars[i], joined[k])));
        }
    }
}

/// Every star that has joined is one of the stars, or the start.
pub proof fn lemma_joined_star(
    stars: Seq<Point>,
    taken: Set<Point>,
    start: Point,
    limit: int,
    joined: Seq<Point>,
    parents: Seq<int>,
    queue: Multiset<State>,
    done: int,
    looked: int,
    k: int,
)
    requires
        growing(stars, taken, start, limit, joined, parents, queue, done, looked),
        0 <= k < joined.len(),
    ensures
        joined[k] == start || stars.contains(joined[k]),
        is_tree(stars, start, limit, joined, parents),
{
    reveal(growing);
}

/// Lets every star that is not taken and less than `limit` away from
/// `current` wait in the queue.
fn look_around(
    stars: &Vec<Point>,
    current: Point,
    seen: &PointMap<bool>,
    limit: usize,
    heap: &mut Frontier,
    Ghost(taken): Ghost<Set<Point>>,
    Ghost(start): Ghost<Point>,
    Ghost(joined): Ghost<Seq<Point>>,
    Ghost(parents): Ghost<Seq<int>>,
    Ghost(done): Ghost<int>,
)
    requires
        old(heap).wf(),
        stars_fit(stars@, start),
        0 <= done < joined.len(),
        current == joined[done],
        seen@.dom() == taken_with(taken, joined),
        growing(stars@, taken, start, limit as int, joined, parents, old(heap)@, done, 0),
    ensures
        final(heap).wf(),
        growing(stars@, taken, start, limit as int, joined, parents, final(heap)@, done + 1, 0),
{
    let mut i: usize = 0;
    proof {
        lemma_joined_star(stars@, taken, start, limit as int, joined, parents, heap@, done, 0, done);
    }
    while i < stars.len()
        invariant
            i <= stars.len(),
            heap.wf(),
            stars_fit(stars@, start),
            0 <= done < joined.len(),
            current == joined[done],
            current == start || stars@.contains(current),
            seen@.dom() == taken_with(taken, joined),
            growing(stars@, taken, start, limit as int, joined, parents, heap@, done, i as int),
        decreases stars.len() - i,
    {
        let next = stars[i];
        proof {
            if current == start {
                assert(gap(stars@[i as int], start) <= i32::MAX);
            } else {
                let j = choose|j: int| 0 <= j < stars@.len() && stars@[j] == current;
                assert(gap(stars@[i as int], stars@[j]) <= i32::MAX);
            }
        }
        if !seen.contains_key(next) {
            let distance = next.manhattan_distance(current) as usize;
            if distance < limit {
                proof {
                    lemma_grow_push(
                        stars@,
                        taken,
                        start,
                        limit as int,
                        joined,
                        parents,
                        heap@,
                        done,
                        i as int,
                    );
                }
                heap.push(State { cost: distance, node: next });
            } else {
                proof {
                    lemma_grow_pass(
                        stars@,
                        taken,
                        start,
                        limit as int,
                        joined,
                        parents,
                        heap@,
                        done,
                        i as int,
                    );
                }
            }
        } else {
            proof {
                lemma_grow_pass(
                    stars@,
                    taken,
                    start,
                    limit as int,
                    joined,
                    parents,
                    heap@,
                    done,
                    i as int,
                );
            }
        }
        i += 1;
    }
    proof {
        lemma_grow_next(stars@, taken, start, limit as int, joined, parents, heap@, done);
    }
}

/// `weight` and `count` are the length of the ties and the number of the
/// stars of a whole constellation grown from `start`, of the stars that
/// were not `taken` before; no tree of ties between its stars is shorter.
/// Afterwards those are taken that are in `after`.
pub open spec fn is_grown(
    stars: Seq<Point>,
    taken: Set<Point>,
    start: Point,
    limit: int,
    weight: int,
    count: int,
    after: Set<Point>,
) -> bool {
    exists|joined: Seq<Point>, parents: Seq<int>|
        {
            &&& #[trigger] is_constellation(stars, taken, start, limit, joined, parents)
            &&& tied_shortest(joined, parents)
            &&& weight == ties(joined, parents, joined.len())
            &&& count == joined.len()
            &&& after == taken_with(taken, joined)
        }
}

/// Grows the constellation of `start`: the length of its ties and the
/// number of its stars.
fn constellation(stars: &Vec<Point>, start: Point, seen: &mut PointMap<bool>, limit: usize) -> (r: (
    usize,
    usize,
))
    requires
        stars_fit(stars@, start),
    ensures
        is_grown(
            stars@,
            old(seen)@.dom(),
            start,
            limit as int,
            r.0 as int,
            r.1 as int,
            final(seen)@.dom(),
        ),
        1 <= r.1 <= stars@.len() + 1,
        r.0 <= (r.1 - 1) * 0x7fff_ffff,
        limit >= 1 ==> r.0 <= (r.1 - 1) * (limit - 1),
        !old(seen)@.contains_key(start) ==> all_points().difference(final(seen)@.dom()).len()
            < all_points().difference(old(seen)@.dom()).len(),
{
    let ghost taken = seen@.dom();
    let ghost mut joined: Seq<Point> = seq![start];
    let ghost mut parents: Seq<int> = seq![0int];
    seen.insert(start, true);

    let mut heap = Frontier::new();
    let mut weight: usize = 0;
    let mut count: usize = 1;
    proof {
        lemma_grow_begin(stars@, taken, start, limit as int);
        lemma_points_finite();
        assert(seen@.dom() =~= taken_with(taken, joined)) by {
            assert forall|p: Point| seen@.dom().contains(p) <==> taken_with(taken, joined).contains(
                p,
            ) by {
                if p == start {
                    assert(joined[0] == start);
                }
            }
        }
        if !taken.contains(start) {
            assert(all_points().difference(seen@.dom()) =~= all_points().difference(taken).remove(
                start,
            ));
        }
    }
    look_around(
        stars,
        start,
        seen,
        limit,
        &mut heap,
        Ghost(taken),
        Ghost(start),
        Ghost(joined),
        Ghost(parents),
        Ghost(0),
    );
    let ghost first = seen@.dom();

    loop
        invariant
            heap.wf(),
            stars_fit(stars@, start),
            all_points().finite(),
            seen@.dom() == taken_with(taken, joined),
            growing(
                stars@,
                taken,
                start,
                limit as int,
                joined,
                parents,
                heap@,
                joined.len() as int,
                0,
            ),
            weight == ties(joined, parents, joined.len()),
            count == joined.len(),
            taken == old(seen)@.dom(),
            all_points().difference(seen@.dom()).len() <= all_points().difference(first).len(),
            !taken.contains(start) ==> all_points().difference(first).len() < all_points().difference(
                taken,
            ).len(),
        ensures
            heap@.len() == 0,
            seen@.dom() == taken_with(taken, joined),
            growing(
                stars@,
                taken,
                start,
                limit as int,
                joined,
                parents,
                heap@,
                joined.len() as int,
                0,
            ),
            weight == ties(joined, parents, joined.len()),
            count == joined.len(),
            all_points().difference(seen@.dom()).len() <= all_points().difference(first).len(),
        decreases all_points().difference(seen@.dom()).len(), heap@.len(),
    {
        let ghost before = heap@;
        let State { cost, node: next } = match heap.pop() {
            Some(state) => state,
            None => {
                break ;
            },
        };
        let ghost popped = State { cost, node: next };
        if seen.contains_key(next) {
            proof {
                lemma_grow_drop(stars@, taken, start, limit as int, joined, parents, before, popped);
            }
            continue ;
        }
        let ghost held = seen@.dom();
        let ghost old_joined = joined;
        proof {
            let parent = lemma_grow_join(
                stars@,
                taken,
                start,
                limit as int,
                joined,
                parents,
                before,
                popped,
            );
            joined = joined.push(next);
            parents = parents.push(parent);
            lemma_joined_star(
                stars@,
                taken,
                start,
                limit as int,
                joined,
                parents,
                heap@,
                old_joined.len() as int,
                0,
                0,
            );
            lemma_tree_len(stars@, start, limit as int, joined, parents);
            lemma_ties_bounded(stars@, start, limit as int, joined, parents, joined.len());
            assert((joined.len() - 1) * 0x7fff_ffff <= (stars@.len() + 2) * 0x8000_0000) by (nonlinear_arith)
                requires
                    1 <= joined.len() <= stars@.len() + 1,
            ;
        }
        seen.insert(next, true);
        weight += cost;
        count += 1;
        proof {
            assert(seen@.dom() =~= taken_with(taken, joined)) by {
                assert forall|p: Point| seen@.dom().contains(p) <==> taken_with(
                    taken,
                    joined,
                ).contains(p) by {
                    if p == next {
                        assert(joined[joined.len() - 1] == next);
                    } else {
                        if old_joined.contains(p) {
                            let j = choose|j: int| 0 <= j < old_joined.len() && old_joined[j] == p;
                            assert(joined[j] == p);
                        }
                        if joined.contains(p) {
                            let j = choose|j: int| 0 <= j < joined.len() && joined[j] == p;
                            assert(old_joined[j] == p);
                        }
                    }
                }
            }
            assert(all_points().difference(seen@.dom()) =~= all_points().difference(held).remove(
                next,
            ));
            assert(joined[joined.len() - 1] == next);
        }
        look_around(
            stars,
            next,
            seen,
            limit,
            &mut heap,
            Ghost(taken),
            Ghost(start),
            Ghost(joined),
            Ghost(parents),
            Ghost(joined.len() - 1),
        );
    }
    proof {
        lemma_grow_end(stars@, taken, start, limit as int, joined, parents, heap@);
        lemma_tied_shortest(stars@, taken, start, limit as int, joined, parents);
        lemma_tree_len(stars@, start, limit as int, joined, parents);
        lemma_ties_bounded(stars@, start, limit as int, joined, parents, joined.len());
    }
    (weight, count)
}

/// The size of the constellation of `start`: every star of `stars` that is
/// not in `seen` and less than `limit` away from a star of the
/// constellation joins it, the nearest to those that have joined first,
/// and is tied to the nearest of them; the size is the length of the ties
/// and the number of the stars.
pub fn constellation_size(
    stars: &Vec<Point>,
    start: Point,
    seen: &mut PointMap<bool>,
    limit: usize,
) -> (r: usize)
    requires
        stars_fit(stars@, start),
    ensures
        exists|weight: int, count: int|
            #[trigger] is_grown(
                stars@,
                old(seen)@.dom(),
                start,
                limit as int,
                weight,
                count,
                final(seen)@.dom(),
            ) && r == weight + count,
{
    let (weight, count) = constellation(stars, start, seen, limit);
    proof {
        assert((count - 1) * 0x7fff_ffff + count <= (stars@.len() + 2) * 0x8000_0000) by (nonlinear_arith)
            requires
                1 <= count <= stars@.len() + 1,
        ;
    }
    weight + count
}

/// The size of the constellation of all stars of the sky drawn in `input`.
pub fn part1(input: &str) -> (r: usize)
    requires
        is_plain(input@),
        sky_drawn(lines(input@)),
        stars_of(lines(input@)).len() > 0,
        stars_fit(stars_of(lines(input@)), stars_of(lines(input@))[0]),
    ensures
        exists|weight: int, count: int, after: Set<Point>|
            #[trigger] is_grown(
                stars_of(lines(input@)),
                Set::empty(),
                stars_of(lines(input@))[0],
                usize::MAX as int,
                weight,
                count,
                after,
            ) && r == weight + count,
{
    let stars = parse(input);
    let mut seen: PointMap<bool> = PointMap::new();
    let start = stars[0];
    proof {
        assert(seen@.dom() =~= Set::<Point>::empty());
    }
    let r = constellation_size(&stars, start, &mut seen, usize::MAX);
    r
}

/// As `part1`, for a sky with more stars.
pub fn part2(input: &str) -> (r: usize)
    requires
        is_plain(input@),
        sky_drawn(lines(input@)),
        stars_of(lines(input@)).len() > 0,
        stars_fit(stars_of(lines(input@)), stars_of(lines(input@))[0]),
    ensures
        exists|weight: int, count: int, after: Set<Point>|
            #[trigger] is_grown(
                stars_of(lines(input@)),
                Set::empty(),
                stars_of(lines(input@))[0],
                usize::MAX as int,
                weight,
                count,
                after,
            ) && r == weight + count,
{
    part1(input)
}

/// `start` is the first of `stars` that is not taken.
pub open spec fn first_free(stars: Seq<Point>, taken: Set<Point>, start: Point) -> bool {
    exists|i: int|
        0 <= i < stars.len() && #[trigger] stars[i] == start && !taken.contains(start) && forall|j: int|
            0 <= j < i ==> taken.contains(#[trigger] stars[j])
}

/// The sky is charted from the stars `taken` on by constellations of the
/// sizes `sizes`: each grows from the first star that is not taken, of the
/// stars less than `limit` away from each other, until all are taken.
pub open spec fn charted(stars: Seq<Point>, limit: int, taken: Set<Point>, sizes: Seq<usize>) -> bool
    decreases sizes.len(),
{
    if sizes.len() == 0 {
        forall|i: int| 0 <= i < stars.len() ==> taken.contains(#[trigger] stars[i])
    } else {
        exists|start: Point, weight: int, count: int, after: Set<Point>|
            {
                &&& first_free(stars, taken, start)
                &&& #[trigger] is_grown(stars, taken, start, limit, weight, count, after)
                &&& sizes[0] == weight + count
                &&& charted(stars, limit, after, sizes.drop_first())
            }
    }
}

/// The constellations of the sizes `sizes`, grown one after the other,
/// have taken the stars `taken`: however the rest of the sky is charted
/// from there, the whole sky is charted by `sizes` and the rest.
#[verifier::opaque]
pub open spec fn charted_so_far(
    stars: Seq<Point>,
    limit: int,
    taken: Set<Point>,
    sizes: Seq<usize>,
) -> bool {
    forall|rest: Seq<usize>| #[trigger]
        charted(stars, limit, taken, rest) ==> charted(stars, limit, Set::empty(), sizes + rest)
}

/// Before the first constellation nothing is taken.
pub proof fn lemma_chart_begin(stars: Seq<Point>, limit: int)
    ensures
        charted_so_far(stars, limit, Set::empty(), Seq::empty()),
{
    reveal(charted_so_far);
    assert forall|rest: Seq<usize>| #[trigger]
        charted(stars, limit, Set::empty(), rest) implies charted(
        stars,
        limit,
        Set::empty(),
        Seq::<usize>::empty() + rest,
    ) by {
        assert(Seq::<usize>::empty() + rest =~= rest);
    }
}

/// One more constellation, grown from the first star that was not taken.
pub proof fn lemma_chart_step(
    stars: Seq<Point>,
    limit: int,
    taken: Set<Point>,
    sizes: Seq<usize>,
    start: Point,
    weight: int,
    count: int,
    after: Set<Point>,
    size: usize,
)
    requires
        charted_so_far(stars, limit, taken, sizes),
        first_free(stars, taken, start),
        is_grown(stars, taken, start, limit, weight, count, after),
        size == weight + count,
    ensures
        charted_so_far(stars, limit, after, sizes.push(size)),
{
    reveal(charted_so_far);
    assert forall|rest: Seq<usize>| #[trigger] charted(stars, limit, after, rest) implies charted(
        stars,
        limit,
        Set::empty(),
        sizes.push(size) + rest,
    ) by {
        let longer = seq![size] + rest;
        assert(longer.drop_first() =~= rest);
        assert(longer[0] == size);
        assert(charted(stars, limit, taken, longer));
        assert(sizes + longer =~= sizes.push(size) + rest);
    }
}

/// When all stars are taken, the sky is charted.
pub proof fn lemma_chart_end(stars: Seq<Point>, limit: int, taken: Set<Point>, sizes: Seq<usize>)
    requires
        charted_so_far(stars, limit, taken, sizes),
        forall|i: int| 0 <= i < stars.len() ==> taken.contains(#[trigger] stars[i]),
    ensures
        charted(stars, limit, Set::empty(), sizes),
{
    reveal(charted_so_far);
    assert(charted(stars, limit, taken, Seq::<usize>::empty()));
    assert(sizes + Seq::<usize>::empty() =~= sizes);
}

/// Not greater, on `usize`.
pub open spec fn le_usize() -> spec_fn(usize, usize) -> bool {
    |a: usize, b: usize| a <= b
}

/// The product of the three greatest of `sorted`, which are in ascending
/// order; of all of them where they are fewer.
pub open spec fn greatest_three(sorted: Seq<usize>) -> int {
    let n = sorted.len() as int;
    if n == 0 {
        1
    } else if n == 1 {
        sorted[0] as int
    } else if n == 2 {
        sorted[1] * sorted[0]
    } else {
        sorted[n - 1] * sorted[n - 2] * sorted[n - 3]
    }
}

/// Puts `x` into `v`, which is in ascending order, at its place.
fn put_in_order(v: &mut Vec<usize>, x: usize)
    requires
        sorted_by(old(v)@, le_usize()),
    ensures
        sorted_by(final(v)@, le_usize()),
        final(v)@.to_multiset() == old(v)@.to_multiset().insert(x),
        final(v)@.len() == old(v)@.len() + 1,
        forall|i: int|
            0 <= i < final(v)@.len() ==> #[trigger] final(v)@[i] == x || old(v)@.contains(
                final(v)@[i],
            ),
{
    let mut at: usize = 0;
    while at < v.len() && v[at] <= x
        invariant
            at <= v.len(),
            v@ == old(v)@,
            forall|j: int| 0 <= j < at ==> v@[j] <= x,
        decreases v.len() - at,
    {
        at += 1;
    }
    let ghost before = v@;
    v.insert(at, x);
    proof {
        to_multiset_insert(before, at as int, x);
        assert forall|i: int, j: int| 0 <= i < j < v@.len() implies (le_usize())(v@[i], v@[j]) by {
            if j < at {
                assert((le_usize())(before[i], before[j]));
            } else if j == at {
            } else if i < at {
                assert((le_usize())(before[i], before[j - 1]));
            } else if i == at {
                assert((le_usize())(before[at as int], before[j - 1]));
            } else {
                assert((le_usize())(before[i - 1], before[j - 1]));
            }
        }
        assert forall|i: int| 0 <= i < v@.len() implies #[trigger] v@[i] == x || before.contains(
            v@[i],
        ) by {
            if i < at {
                assert(before[i] == v@[i]);
            } else if i > at {
                assert(before[i - 1] == v@[i]);
            }
        }
    }
}

/// The sizes can be multiplied: no constellation is greater than
/// `6 * (n + 1)` for `n` stars, and three times that many fit.
pub open spec fn sky_fits(stars: Seq<Point>) -> bool {
    &&& forall|i: int| 0 <= i < stars.len() ==> stars_fit(stars, #[trigger] stars[i])
    &&& (6 * (stars.len() + 1)) * (6 * (stars.len() + 1)) * (6 * (stars.len() + 1)) <= usize::MAX
}

/// The first of `stars` that is not in `seen`, if there is one.
fn first_unseen(stars: &Vec<Point>, seen: &PointMap<bool>) -> (r: Option<Point>)
    ensures
        match r {
            Some(start) => first_free(stars@, seen@.dom(), start),
            None => forall|i: int| 0 <= i < stars@.len() ==> seen@.contains_key(#[trigger] stars@[i]),
        },
{
    let mut at: usize = 0;
    while at < stars.len() && seen.contains_key(stars[at])
        invariant
            at <= stars.len(),
            forall|j: int| 0 <= j < at ==> seen@.contains_key(#[trigger] stars@[j]),
        decreases stars.len() - at,
    {
        at += 1;
    }
    if at == stars.len() {
        None
    } else {
        proof {
            assert(stars@[at as int] == stars@[at as int]);
        }
        Some(stars[at])
    }
}

/// The product of the sizes of the three greatest constellations of the
/// sky drawn in `input`, where stars less than six apart belong together.
pub fn part3(input: &str) -> (r: usize)
    requires
        is_plain(input@),
        sky_drawn(lines(input@)),
        sky_fits(stars_of(lines(input@))),
    ensures
        exists|sizes: Seq<usize>|
            #[trigger] charted(stars_of(lines(input@)), 6, Set::empty(), sizes) && r
                == greatest_three(sizes.sort_by(le_usize())),
{
    let stars = parse(input);
    let ghost sky = stars_of(lines(input@));
    let mut seen: PointMap<bool> = PointMap::new();
    let mut constellation_sizes: Vec<usize> = Vec::new();
    let mut in_order: Vec<usize> = Vec::new();
    let ghost bound = 6 * (sky.len() + 1);
    proof {
        assert(seen@.dom() =~= Set::<Point>::empty());
        lemma_points_finite();
        lemma_chart_begin(sky, 6);
        assert(constellation_sizes@ =~= Seq::<usize>::empty());
    }
    loop
        invariant
            sky == stars@,
            sky_fits(sky),
            bound == 6 * (sky.len() + 1),
            all_points().finite(),
            sorted_by(in_order@, le_usize()),
            in_order@.to_multiset() == constellation_sizes@.to_multiset(),
            forall|i: int| 0 <= i < in_order@.len() ==> 1 <= #[trigger] in_order@[i] <= bound,
            charted_so_far(sky, 6, seen@.dom(), constellation_sizes@),
        ensures
            sorted_by(in_order@, le_usize()),
            in_order@.to_multiset() == constellation_sizes@.to_multiset(),
            forall|i: int| 0 <= i < in_order@.len() ==> 1 <= #[trigger] in_order@[i] <= bound,
            charted(sky, 6, Set::empty(), constellation_sizes@),
        decreases all_points().difference(seen@.dom()).len(),
    {
        // try to start a new constellation
        let start = match first_unseen(&stars, &seen) {
            Some(start) => start,
            None => {
                proof {
                    lemma_chart_end(sky, 6, seen@.dom(), constellation_sizes@);
                }
                break ;
            },
        };
        let ghost taken = seen@.dom();
        let ghost held = constellation_sizes@;
        proof {
            let at = choose|i: int| 0 <= i < sky.len() && #[trigger] sky[i] == start;
            assert(stars_fit(sky, sky[at]));
        }
        let (weight, count) = constellation(&stars, start, &mut seen, 6);
        proof {
            assert(1 <= weight + count <= bound) by (nonlinear_arith)
                requires
                    0 <= weight <= (count - 1) * 5,
                    1 <= count <= sky.len() + 1,
                    bound == 6 * (sky.len() + 1),
            ;
        }
        let size = weight + count;
        constellation_sizes.push(size);
        let ghost sorted_before = in_order@;
        put_in_order(&mut in_order, size);
        proof {
            vstd::seq_lib::to_multiset_build(held, size);
            lemma_chart_step(
                sky,
                6,
                taken,
                held,
                start,
                weight as int,
                count as int,
                seen@.dom(),
                size,
            );
            assert forall|i: int| 0 <= i < in_order@.len() implies 1 <= #[trigger] in_order@[i]
                <= bound by {
                if in_order@[i] != size {
                    let j = choose|j: int| 0 <= j < sorted_before.len() && sorted_before[j]
                        == in_order@[i];
                    assert(1 <= sorted_before[j] <= bound);
                }
            }
        }
    }
    let n = in_order.len();
    proof {
        assert(total_ordering(le_usize()));
        constellation_sizes@.lemma_sort_by_ensures(le_usize());
        lemma_sorted_unique(in_order@, constellation_sizes@.sort_by(le_usize()), le_usize());
        assert(bound * bound * bound <= usize::MAX);
        assert(bound * bound <= bound * bound * bound) by (nonlinear_arith)
            requires
                bound >= 1,
        ;
    }
    if n == 0 {
        1
    } else if n == 1 {
        in_order[0]
    } else if n == 2 {
        proof {
            assert(in_order@[1] * in_order@[0] <= bound * bound) by (nonlinear_arith)
                requires
                    1 <= in_order@[1] <= bound,
                    1 <= in_order@[0] <= bound,
            ;
        }
        in_order[1] * in_order[0]
    } else {
        proof {
            let a = in_order@[n - 1] as int;
            let b = in_order@[n - 2] as int;
            let c = in_order@[n - 3] as int;
            assert(a * b <= bound * bound && a * b * c <= bound * bound * bound) by (nonlinear_arith)
                requires
                    1 <= a <= bound,
                    1 <= b <= bound,
                    1 <= c <= bound,
            ;
        }
        in_order[n - 1] * in_order[n - 2] * in_order[n - 3]
    }
}

} // verus!
