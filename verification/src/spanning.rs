//! Why a constellation that grew nearest-first is tied as short as its
//! stars can be tied together at all.

use crate::grid::Point;
use crate::quest17::{
    free_before, gap, is_constellation, is_grown, joined_nearest, taken_with, ties,
};
use vstd::prelude::*;

verus! {

/// The tie `t` ties the stars at the places `a` and `b`, either way round.
pub open spec fn ties_pair(t: (int, int), a: int, b: int) -> bool {
    t == (a, b) || t == (b, a)
}

/// One of the ties `ts` ties the stars at the places `a` and `b`.
pub open spec fn tied(ts: Seq<(int, int)>, a: int, b: int) -> bool {
    exists|i: int| 0 <= i < ts.len() && ties_pair(#[trigger] ts[i], a, b)
}

/// `w` leads from star to star along the ties `ts`.
pub open spec fn is_way(ts: Seq<(int, int)>, w: Seq<int>) -> bool {
    w.len() >= 1 && forall|i: int| 0 <= i < w.len() - 1 ==> tied(ts, #[trigger] w[i], w[i + 1])
}

/// Some way along the ties `ts` leads from the star at `a` to that at `b`.
pub open spec fn linked(ts: Seq<(int, int)>, a: int, b: int) -> bool {
    exists|w: Seq<int>| #[trigger] is_way(ts, w) && w[0] == a && w.last() == b
}

/// The ties `ts` tie the stars at the places from zero to `n` into a tree:
/// there are `n` of them, between those stars, and a way leads from the
/// first star to each.
pub open spec fn spans(ts: Seq<(int, int)>, n: int) -> bool {
    &&& ts.len() == n
    &&& forall|i: int|
        0 <= i < ts.len() ==> 0 <= (#[trigger] ts[i]).0 <= n && 0 <= ts[i].1 <= n
    &&& forall|v: int| 0 <= v <= n ==> #[trigger] linked(ts, 0, v)
}

/// The length of the first `m` of the ties `ts` between the stars `joined`.
pub open spec fn length(joined: Seq<Point>, ts: Seq<(int, int)>, m: int) -> int
    decreases m,
{
    if m <= 0 {
        0
    } else {
        length(joined, ts, m - 1) + gap(joined[ts[m - 1].0], joined[ts[m - 1].1])
    }
}

/// The ties of a constellation whose stars are tied as `parents` says.
pub open spec fn grown_ties(parents: Seq<int>) -> Seq<(int, int)> {
    Seq::new((parents.len() - 1) as nat, |i: int| (i + 1, parents[i + 1]))
}

/// Every star joined by a tie that is no longer than any tie between a
/// star that joined no earlier and one that joined before.
#[verifier::opaque]
pub open spec fn shortest_across(joined: Seq<Point>, parents: Seq<int>) -> bool {
    forall|k: int, m: int, j: int|
        1 <= k <= m < joined.len() && 0 <= j < k ==> gap(
            #[trigger] joined[k],
            joined[parents[k]],
        ) <= gap(#[trigger] joined[m], #[trigger] joined[j])
}

/// `parents` gives each star but the first one that joined before it.
pub open spec fn tied_back(parents: Seq<int>) -> bool {
    forall|k: int| 1 <= k < parents.len() ==> 0 <= #[trigger] parents[k] < k
}

/// A way that is followed by one more tie is a way to the end of that tie.
pub proof fn lemma_link_step(ts: Seq<(int, int)>, a: int, b: int, c: int)
    requires
        linked(ts, a, b),
        tied(ts, b, c) || tied(ts, c, b),
    ensures
        linked(ts, a, c),
{
    let w = choose|w: Seq<int>| #[trigger] is_way(ts, w) && w[0] == a && w.last() == b;
    let longer = w.push(c);
    if tied(ts, c, b) {
        let i = choose|i: int| 0 <= i < ts.len() && ties_pair(#[trigger] ts[i], c, b);
        assert(ties_pair(ts[i], b, c));
    }
    assert forall|i: int| 0 <= i < longer.len() - 1 implies tied(
        ts,
        #[trigger] longer[i],
        longer[i + 1],
    ) by {
        if i < w.len() - 1 {
            assert(longer[i] == w[i] && longer[i + 1] == w[i + 1]);
        }
    }
    assert(is_way(ts, longer) && longer[0] == a && longer.last() == c);
}

/// Every star is linked to itself.
pub proof fn lemma_link_self(ts: Seq<(int, int)>, a: int)
    ensures
        linked(ts, a, a),
{
    assert(is_way(ts, seq![a]) && seq![a][0] == a && seq![a].last() == a);
}

/// Where the first `k` ties are those by which the stars after the first
/// joined, a way leads from the first star to each of the first `k + 1`.
pub proof fn lemma_grown_linked(ts: Seq<(int, int)>, parents: Seq<int>, k: int, j: int)
    requires
        tied_back(parents),
        0 <= k <= ts.len(),
        k < parents.len(),
        forall|i: int| 0 <= i < k ==> #[trigger] ts[i] == (i + 1, parents[i + 1]),
        0 <= j <= k,
    ensures
        linked(ts, 0, j),
    decreases j,
{
    if j == 0 {
        lemma_link_self(ts, 0);
    } else {
        assert(0 <= parents[j] < j);
        lemma_grown_linked(ts, parents, k, parents[j]);
        assert(ties_pair(ts[j - 1], j, parents[j]));
        assert(tied(ts, j, parents[j]));
        lemma_link_step(ts, 0, parents[j], j);
    }
}

/// The ties by which stars joined, each to one that joined before, tie
/// them into a tree.
pub proof fn lemma_grown_spans(parents: Seq<int>)
    requires
        parents.len() >= 1,
        tied_back(parents),
    ensures
        spans(grown_ties(parents), parents.len() - 1),
{
    let ts = grown_ties(parents);
    assert forall|v: int| 0 <= v <= parents.len() - 1 implies #[trigger] linked(ts, 0, v) by {
        lemma_grown_linked(ts, parents, parents.len() - 1, v);
    }
}

/// The length of the ties by which stars joined is the sum of their ties.
pub proof fn lemma_grown_length(joined: Seq<Point>, parents: Seq<int>, m: int)
    requires
        parents.len() == joined.len(),
        1 <= m <= joined.len(),
    ensures
        length(joined, grown_ties(parents), m - 1) == ties(joined, parents, m as nat),
    decreases m,
{
    if m > 1 {
        lemma_grown_length(joined, parents, m - 1);
        crate::grid::lemma_manhattan_distance(joined[m - 1], joined[parents[m - 1]]);
        assert(grown_ties(parents)[m - 2] == (m - 1, parents[m - 1]));
    }
}

/// Putting another tie in the place of one changes the length by the
/// difference of the two.
pub proof fn lemma_length_update(
    joined: Seq<Point>,
    ts: Seq<(int, int)>,
    i: int,
    t: (int, int),
    m: int,
)
    requires
        0 <= i < ts.len(),
        0 <= m <= ts.len(),
    ensures
        length(joined, ts.update(i, t), m) == length(joined, ts, m) + if i < m {
            gap(joined[t.0], joined[t.1]) - gap(joined[ts[i].0], joined[ts[i].1])
        } else {
            0
        },
    decreases m,
{
    if m > 0 {
        lemma_length_update(joined, ts, i, t, m - 1);
    }
}

/// On a way that begins among the first stars and ends after them, the
/// last place among the first stars.
pub proof fn lemma_last_inside(w: Seq<int>, k: int, hi: int) -> (t: int)
    requires
        0 <= hi < w.len(),
        w[0] <= k,
        forall|i: int| hi < i < w.len() ==> #[trigger] w[i] > k,
    ensures
        0 <= t <= hi,
        w[t] <= k,
        forall|i: int| t < i < w.len() ==> #[trigger] w[i] > k,
    decreases hi,
{
    if w[hi] <= k {
        hi
    } else {
        lemma_last_inside(w, k, hi - 1)
    }
}

/// The ties `ts` with `tie` at the place `k`, and the tie that was there
/// at the place `at`.
pub open spec fn swapped(ts: Seq<(int, int)>, at: int, k: int, tie: (int, int)) -> Seq<(int, int)> {
    ts.update(at, ts[k]).update(k, tie)
}

/// Swapping a tie in changes the length by the difference to the tie that
/// is lost.
pub proof fn lemma_swapped_length(
    joined: Seq<Point>,
    ts: Seq<(int, int)>,
    at: int,
    k: int,
    tie: (int, int),
)
    requires
        0 <= k <= at < ts.len(),
    ensures
        length(joined, swapped(ts, at, k, tie), ts.len() as int) == length(
            joined,
            ts,
            ts.len() as int,
        ) + gap(joined[tie.0], joined[tie.1]) - gap(joined[ts[at].0], joined[ts[at].1]),
{
    let moved = ts.update(at, ts[k]);
    lemma_length_update(joined, ts, at, ts[k], ts.len() as int);
    lemma_length_update(joined, moved, k, tie, ts.len() as int);
    assert(moved[k] == ts[k]);
}

/// Swapping a tie in keeps every tie but the one that is lost.
pub proof fn lemma_swapped_keeps(
    ts: Seq<(int, int)>,
    at: int,
    k: int,
    tie: (int, int),
    y: int,
    x: int,
    a: int,
    b: int,
)
    requires
        0 <= k <= at < ts.len(),
        ties_pair(ts[at], y, x),
        tied(ts, a, b),
        !ties_pair((y, x), a, b),
    ensures
        tied(swapped(ts, at, k, tie), a, b),
{
    let ts2 = swapped(ts, at, k, tie);
    let i = choose|i: int| 0 <= i < ts.len() && ties_pair(#[trigger] ts[i], a, b);
    if i == k {
        assert(ts2[at] == ts[k]);
        assert(ties_pair(ts2[at], a, b));
    } else {
        assert(ts2[i] == ts[i]);
        assert(ties_pair(ts2[i], a, b));
    }
}

/// Swapping in the tie by which the next star joined, for a tie on the way
/// to that star that leaves the stars that joined before it, leaves a tree.
pub proof fn lemma_swapped_spans(
    parents: Seq<int>,
    ts: Seq<(int, int)>,
    at: int,
    k: int,
    w: Seq<int>,
    t: int,
)
    requires
        tied_back(parents),
        spans(ts, parents.len() - 1),
        0 <= k <= at < ts.len(),
        forall|i: int| 0 <= i < k ==> #[trigger] ts[i] == (i + 1, parents[i + 1]),
        is_way(ts, w),
        w[0] == 0,
        w.last() == k + 1,
        0 <= t < w.len() - 1,
        w[t] <= k,
        forall|i: int| t < i < w.len() ==> #[trigger] w[i] > k,
        ties_pair(ts[at], w[t], w[t + 1]),
    ensures
        spans(swapped(ts, at, k, (k + 1, parents[k + 1])), parents.len() - 1),
        forall|i: int|
            0 <= i < k + 1 ==> #[trigger] swapped(ts, at, k, (k + 1, parents[k + 1]))[i] == (
                i + 1,
                parents[i + 1],
            ),
{
    let n = parents.len() - 1;
    let next = k + 1;
    let tie = (next, parents[next]);
    let ts2 = swapped(ts, at, k, tie);
    let y = w[t];
    let x = w[t + 1];
    assert(0 <= parents[next] < next);
    assert(0 <= ts[at].0 <= n && 0 <= ts[at].1 <= n);
    assert forall|i: int| 0 <= i < next implies #[trigger] ts2[i] == (i + 1, parents[i + 1]) by {
        if i < k {
            assert(ts2[i] == ts[i]);
        }
    }
    assert forall|a: int, b: int| #[trigger] tied(ts, a, b) && !ties_pair((y, x), a, b) implies tied(
        ts2,
        a,
        b,
    ) by {
        lemma_swapped_keeps(ts, at, k, tie, y, x, a, b);
    }
    lemma_grown_linked(ts2, parents, next, next);
    lemma_way_back(ts, ts2, w, k, t, y, x, t + 1);
    lemma_grown_linked(ts2, parents, next, y);
    assert forall|v: int| 0 <= v <= n implies #[trigger] linked(ts2, 0, v) by {
        assert(linked(ts, 0, v));
        let u = choose|u: Seq<int>| #[trigger] is_way(ts, u) && u[0] == 0 && u.last() == v;
        lemma_way_kept(ts, ts2, u, y, x, u.len() - 1);
    }
    assert forall|i: int| 0 <= i < ts2.len() implies 0 <= (#[trigger] ts2[i]).0 <= n && 0
        <= ts2[i].1 <= n by {
        if i == k {
        } else if i == at {
            assert(ts2[i] == ts[k]);
            assert(0 <= ts[k].0 <= n && 0 <= ts[k].1 <= n);
        } else {
            assert(ts2[i] == ts[i]);
        }
    }
}

/// A tree of ties whose first `k` ties are those by which the first stars
/// joined is no shorter than the ties by which all stars joined.
pub proof fn lemma_exchange(joined: Seq<Point>, parents: Seq<int>, ts: Seq<(int, int)>, k: int)
    requires
        joined.len() >= 1,
        parents.len() == joined.len(),
        tied_back(parents),
        shortest_across(joined, parents),
        spans(ts, joined.len() - 1),
        0 <= k <= joined.len() - 1,
        forall|i: int| 0 <= i < k ==> #[trigger] ts[i] == (i + 1, parents[i + 1]),
    ensures
        length(joined, grown_ties(parents), joined.len() - 1) <= length(
            joined,
            ts,
            joined.len() - 1,
        ),
    decreases joined.len() - k,
{
    let n = joined.len() - 1;
    if k == n {
        assert(ts =~= grown_ties(parents));
    } else {
        let next = k + 1;
        let tie = (next, parents[next]);
        assert(linked(ts, 0, next));
        let w = choose|w: Seq<int>| #[trigger] is_way(ts, w) && w[0] == 0 && w.last() == next;
        let t = lemma_last_inside(w, k, w.len() - 1);
        let y = w[t];
        let x = w[t + 1];
        assert(tied(ts, w[t], w[t + 1]));
        let at = choose|i: int| 0 <= i < ts.len() && ties_pair(#[trigger] ts[i], y, x);
        assert(at >= k) by {
            if at < k {
                assert(ts[at] == (at + 1, parents[at + 1]));
                assert(0 <= parents[at + 1] < at + 1);
            }
        }
        assert(0 <= ts[at].0 <= n && 0 <= ts[at].1 <= n);
        let ts2 = swapped(ts, at, k, tie);
        lemma_swapped_length(joined, ts, at, k, tie);
        lemma_across(joined, parents, next, x, y);
        crate::grid::lemma_manhattan_distance(joined[x], joined[y]);
        lemma_swapped_spans(parents, ts, at, k, w, t);
        lemma_exchange(joined, parents, ts2, next);
    }
}

/// What `shortest_across` says of the star at `k`, one at `m` that joined
/// no earlier, and one at `j` that joined before.
pub proof fn lemma_across(joined: Seq<Point>, parents: Seq<int>, k: int, m: int, j: int)
    requires
        shortest_across(joined, parents),
        1 <= k <= m < joined.len(),
        0 <= j < k,
    ensures
        gap(joined[k], joined[parents[k]]) <= gap(joined[m], joined[j]),
{
    reveal(shortest_across);
}

/// The stars on a way behind its last place among the first stars are
/// linked to the first star by the ties that are kept, once the end of the
/// way is.
pub proof fn lemma_way_back(
    ts: Seq<(int, int)>,
    ts2: Seq<(int, int)>,
    w: Seq<int>,
    k: int,
    t: int,
    y: int,
    x: int,
    i: int,
)
    requires
        is_way(ts, w),
        0 <= t < i < w.len(),
        y <= k,
        forall|i: int| t < i < w.len() ==> #[trigger] w[i] > k,
        forall|a: int, b: int| #[trigger] tied(ts, a, b) && !ties_pair((y, x), a, b) ==> tied(ts2, a, b),
        linked(ts2, 0, w.last()),
    ensures
        linked(ts2, 0, w[i]),
    decreases w.len() - i,
{
    if i < w.len() - 1 {
        lemma_way_back(ts, ts2, w, k, t, y, x, i + 1);
        assert(tied(ts, w[i], w[i + 1]));
        assert(w[i] > k && w[i + 1] > k);
        assert(!ties_pair((y, x), w[i], w[i + 1]));
        assert(tied(ts2, w[i], w[i + 1]));
        lemma_link_step(ts2, 0, w[i + 1], w[i]);
    }
}

/// Every star on a way along the old ties is linked to the first star by
/// the ties that are kept, where both ends of the tie taken out are.
pub proof fn lemma_way_kept(
    ts: Seq<(int, int)>,
    ts2: Seq<(int, int)>,
    u: Seq<int>,
    y: int,
    x: int,
    i: int,
)
    requires
        is_way(ts, u),
        u[0] == 0,
        0 <= i < u.len(),
        forall|a: int, b: int| #[trigger] tied(ts, a, b) && !ties_pair((y, x), a, b) ==> tied(ts2, a, b),
        linked(ts2, 0, x),
        linked(ts2, 0, y),
    ensures
        linked(ts2, 0, u[i]),
    decreases i,
{
    if i == 0 {
        lemma_link_self(ts2, 0);
    } else {
        lemma_way_kept(ts, ts2, u, y, x, i - 1);
        assert(tied(ts, u[i - 1], u[i]));
        if ties_pair((y, x), u[i - 1], u[i]) {
        } else {
            assert(tied(ts2, u[i - 1], u[i]));
            lemma_link_step(ts2, 0, u[i - 1], u[i]);
        }
    }
}

/// In a constellation every star joined by a tie no longer than any tie
/// between a star that joined no earlier and one that joined before.
pub proof fn lemma_shortest_across(
    stars: Seq<Point>,
    taken: Set<Point>,
    start: Point,
    limit: int,
    joined: Seq<Point>,
    parents: Seq<int>,
)
    requires
        is_constellation(stars, taken, start, limit, joined, parents),
    ensures
        shortest_across(joined, parents),
        tied_back(parents),
{
    reveal(shortest_across);
    assert forall|k: int| 1 <= k < parents.len() implies 0 <= #[trigger] parents[k] < k by {
        assert(stars.contains(joined[k]));
    }
    assert forall|k: int, m: int, j: int| 1 <= k <= m < joined.len() && 0 <= j < k implies gap(
        #[trigger] joined[k],
        joined[parents[k]],
    ) <= gap(#[trigger] joined[m], #[trigger] joined[j]) by {
        assert(joined_nearest(stars, taken, joined, parents, k));
        assert(stars.contains(joined[m]));
        let i = choose|i: int| 0 <= i < stars.len() && stars[i] == joined[m];
        assert(!taken.contains(joined[m]));
        assert(free_before(taken, joined, k, stars[i]));
    }
}

/// The stars `joined`, tied as `parents` says, are tied as short as can
/// be: no tree of ties between them, of whatever length each, is shorter
/// in all.
pub open spec fn tied_shortest(joined: Seq<Point>, parents: Seq<int>) -> bool {
    forall|other: Seq<(int, int)>| #[trigger]
        spans(other, joined.len() - 1) ==> ties(joined, parents, joined.len()) <= length(
            joined,
            other,
            joined.len() - 1,
        )
}

/// The ties of a constellation are the shortest by which its stars can be
/// tied together: no tree of ties between them, of whatever length each,
/// is shorter in all.
pub proof fn lemma_ties_least(
    stars: Seq<Point>,
    taken: Set<Point>,
    start: Point,
    limit: int,
    joined: Seq<Point>,
    parents: Seq<int>,
    other: Seq<(int, int)>,
)
    requires
        is_constellation(stars, taken, start, limit, joined, parents),
        spans(other, joined.len() - 1),
    ensures
        ties(joined, parents, joined.len()) <= length(joined, other, joined.len() - 1),
{
    lemma_shortest_across(stars, taken, start, limit, joined, parents);
    lemma_grown_length(joined, parents, joined.len() as int);
    lemma_exchange(joined, parents, other, 0);
}

/// A constellation is tied as short as can be.
pub proof fn lemma_tied_shortest(
    stars: Seq<Point>,
    taken: Set<Point>,
    start: Point,
    limit: int,
    joined: Seq<Point>,
    parents: Seq<int>,
)
    requires
        is_constellation(stars, taken, start, limit, joined, parents),
    ensures
        tied_shortest(joined, parents),
{
    assert forall|other: Seq<(int, int)>| #[trigger]
        spans(other, joined.len() - 1) implies ties(joined, parents, joined.len()) <= length(
        joined,
        other,
        joined.len() - 1,
    ) by {
        lemma_ties_least(stars, taken, start, limit, joined, parents, other);
    }
}

/// Tied to other stars that joined before them, in the order in which
/// they joined, the stars of a constellation are tied no shorter.
pub proof fn lemma_ties_least_in_order(
    stars: Seq<Point>,
    taken: Set<Point>,
    start: Point,
    limit: int,
    joined: Seq<Point>,
    parents: Seq<int>,
    others: Seq<int>,
)
    requires
        is_constellation(stars, taken, start, limit, joined, parents),
        others.len() == joined.len(),
        tied_back(others),
    ensures
        ties(joined, parents, joined.len()) <= ties(joined, others, joined.len()),
{
    lemma_grown_spans(others);
    lemma_grown_length(joined, others, joined.len() as int);
    lemma_ties_least(stars, taken, start, limit, joined, parents, grown_ties(others));
}

/// The place at which the star `p` joined.
pub open spec fn place_of(joined: Seq<Point>, p: Point) -> int {
    choose|i: int| 0 <= i < joined.len() && joined[i] == p
}

/// The ties of the stars `others`, tied as `parents` says, between the
/// places at which the same stars are among `joined`.
pub open spec fn same_ties(joined: Seq<Point>, others: Seq<Point>, parents: Seq<int>) -> Seq<
    (int, int),
> {
    Seq::new(
        (others.len() - 1) as nat,
        |i: int| (place_of(joined, others[i + 1]), place_of(joined, others[parents[i + 1]])),
    )
}

/// The stars `others` are the stars `joined`, in whatever order.
pub open spec fn same_stars(joined: Seq<Point>, others: Seq<Point>) -> bool {
    &&& others.len() == joined.len()
    &&& forall|i: int| 0 <= i < others.len() ==> joined.contains(#[trigger] others[i])
    &&& forall|i: int| 0 <= i < joined.len() ==> others.contains(#[trigger] joined[i])
}

/// A way can be gone back.
pub proof fn lemma_linked_back(ts: Seq<(int, int)>, a: int, b: int)
    requires
        linked(ts, a, b),
    ensures
        linked(ts, b, a),
{
    let w = choose|w: Seq<int>| #[trigger] is_way(ts, w) && w[0] == a && w.last() == b;
    lemma_link_self(ts, b);
    lemma_way_gone_back(ts, w, 0);
}

/// From the end of a way a way leads to each of its stars.
pub proof fn lemma_way_gone_back(ts: Seq<(int, int)>, w: Seq<int>, i: int)
    requires
        is_way(ts, w),
        0 <= i < w.len(),
    ensures
        linked(ts, w.last(), w[i]),
    decreases w.len() - i,
{
    if i == w.len() - 1 {
        lemma_link_self(ts, w.last());
    } else {
        lemma_way_gone_back(ts, w, i + 1);
        assert(tied(ts, w[i], w[i + 1]));
        lemma_link_step(ts, w.last(), w[i + 1], w[i]);
    }
}

/// From where a way leads to the start of another, a way leads to each
/// star of that other.
pub proof fn lemma_way_gone_on(ts: Seq<(int, int)>, a: int, w: Seq<int>, i: int)
    requires
        is_way(ts, w),
        linked(ts, a, w[0]),
        0 <= i < w.len(),
    ensures
        linked(ts, a, w[i]),
    decreases i,
{
    if i > 0 {
        lemma_way_gone_on(ts, a, w, i - 1);
        assert(tied(ts, w[i - 1], w[i]));
        lemma_link_step(ts, a, w[i - 1], w[i]);
    }
}

/// Two ways, one after the other, are a way.
pub proof fn lemma_linked_on(ts: Seq<(int, int)>, a: int, b: int, c: int)
    requires
        linked(ts, a, b),
        linked(ts, b, c),
    ensures
        linked(ts, a, c),
{
    let w = choose|w: Seq<int>| #[trigger] is_way(ts, w) && w[0] == b && w.last() == c;
    lemma_way_gone_on(ts, a, w, w.len() - 1);
}

/// The same ties between the same stars are as long.
pub proof fn lemma_same_length(
    joined: Seq<Point>,
    others: Seq<Point>,
    parents: Seq<int>,
    m: int,
)
    requires
        same_stars(joined, others),
        parents.len() == others.len(),
        tied_back(parents),
        1 <= m <= others.len(),
    ensures
        length(joined, same_ties(joined, others, parents), m - 1) == ties(others, parents, m as nat),
    decreases m,
{
    if m > 1 {
        lemma_same_length(joined, others, parents, m - 1);
        let a = others[m - 1];
        let b = others[parents[m - 1]];
        assert(0 <= parents[m - 1] < m - 1);
        assert(joined.contains(a) && joined.contains(b));
        crate::grid::lemma_manhattan_distance(a, b);
        assert(same_ties(joined, others, parents)[m - 2] == (
            place_of(joined, a),
            place_of(joined, b),
        ));
    }
}

/// Through the same ties a way leads from the first of the other stars to
/// each of them.
pub proof fn lemma_same_linked(joined: Seq<Point>, others: Seq<Point>, parents: Seq<int>, j: int)
    requires
        same_stars(joined, others),
        parents.len() == others.len(),
        tied_back(parents),
        0 <= j < others.len(),
    ensures
        linked(
            same_ties(joined, others, parents),
            place_of(joined, others[0]),
            place_of(joined, others[j]),
        ),
    decreases j,
{
    let ts = same_ties(joined, others, parents);
    if j == 0 {
        lemma_link_self(ts, place_of(joined, others[0]));
    } else {
        assert(0 <= parents[j] < j);
        lemma_same_linked(joined, others, parents, parents[j]);
        assert(ties_pair(
            ts[j - 1],
            place_of(joined, others[j]),
            place_of(joined, others[parents[j]]),
        ));
        assert(tied(ts, place_of(joined, others[j]), place_of(joined, others[parents[j]])));
        lemma_link_step(
            ts,
            place_of(joined, others[0]),
            place_of(joined, others[parents[j]]),
            place_of(joined, others[j]),
        );
    }
}

/// The ties of the same stars in another order tie them into a tree.
pub proof fn lemma_same_spans(joined: Seq<Point>, others: Seq<Point>, parents: Seq<int>)
    requires
        joined.len() >= 1,
        joined.no_duplicates(),
        same_stars(joined, others),
        parents.len() == others.len(),
        tied_back(parents),
    ensures
        spans(same_ties(joined, others, parents), joined.len() - 1),
{
    let ts = same_ties(joined, others, parents);
    let n = joined.len() - 1;
    let root = place_of(joined, others[0]);
    assert forall|i: int| 0 <= i < ts.len() implies 0 <= (#[trigger] ts[i]).0 <= n && 0
        <= ts[i].1 <= n by {
        assert(0 <= parents[i + 1] < i + 1);
        assert(joined.contains(others[i + 1]));
        assert(joined.contains(others[parents[i + 1]]));
    }
    assert forall|v: int| 0 <= v <= n implies #[trigger] linked(ts, 0, v) by {
        assert(others.contains(joined[0]));
        assert(others.contains(joined[v]));
        let a = choose|a: int| 0 <= a < others.len() && others[a] == joined[0];
        let b = choose|b: int| 0 <= b < others.len() && others[b] == joined[v];
        assert(joined.contains(joined[0]) && joined.contains(joined[v]));
        assert(place_of(joined, others[a]) == 0);
        assert(place_of(joined, others[b]) == v);
        lemma_same_linked(joined, others, parents, a);
        lemma_same_linked(joined, others, parents, b);
        lemma_linked_back(ts, root, 0);
        lemma_linked_on(ts, 0, root, v);
    }
}

/// Two constellations of the same stars are tied as long: the length does
/// not depend on the star from which a constellation grew, nor on which of
/// two stars that were as near joined first.
pub proof fn lemma_same_stars_same_ties(
    stars: Seq<Point>,
    taken: Set<Point>,
    start: Point,
    limit: int,
    joined: Seq<Point>,
    parents: Seq<int>,
    stars2: Seq<Point>,
    taken2: Set<Point>,
    start2: Point,
    limit2: int,
    joined2: Seq<Point>,
    parents2: Seq<int>,
)
    requires
        is_constellation(stars, taken, start, limit, joined, parents),
        is_constellation(stars2, taken2, start2, limit2, joined2, parents2),
        same_stars(joined, joined2),
    ensures
        ties(joined, parents, joined.len()) == ties(joined2, parents2, joined2.len()),
{
    lemma_shortest_across(stars, taken, start, limit, joined, parents);
    lemma_shortest_across(stars2, taken2, start2, limit2, joined2, parents2);
    lemma_same_spans(joined, joined2, parents2);
    lemma_same_length(joined, joined2, parents2, joined2.len() as int);
    lemma_ties_least(
        stars,
        taken,
        start,
        limit,
        joined,
        parents,
        same_ties(joined, joined2, parents2),
    );
    assert(same_stars(joined2, joined));
    lemma_same_spans(joined2, joined, parents);
    lemma_same_length(joined2, joined, parents, joined.len() as int);
    lemma_ties_least(
        stars2,
        taken2,
        start2,
        limit2,
        joined2,
        parents2,
        same_ties(joined2, joined, parents),
    );
}

/// In a sky whose stars are all less than `limit` apart, where none was
/// taken before, the constellation of any star holds every star, and from
/// whichever star it grew, it has as many stars and is tied as long.
pub proof fn lemma_whole_sky(
    stars: Seq<Point>,
    limit: int,
    start: Point,
    weight: int,
    count: int,
    after: Set<Point>,
    start2: Point,
    weight2: int,
    count2: int,
    after2: Set<Point>,
)
    requires
        is_grown(stars, Set::empty(), start, limit, weight, count, after),
        is_grown(stars, Set::empty(), start2, limit, weight2, count2, after2),
        stars.contains(start),
        stars.contains(start2),
        forall|i: int, j: int|
            0 <= i < stars.len() && 0 <= j < stars.len() ==> gap(
                #[trigger] stars[i],
                #[trigger] stars[j],
            ) < limit,
    ensures
        weight == weight2,
        count == count2,
        after == stars.to_set(),
        after2 == stars.to_set(),
{
    let taken = Set::<Point>::empty();
    let (joined, parents) = choose|joined: Seq<Point>, parents: Seq<int>|
        {
            &&& #[trigger] is_constellation(stars, taken, start, limit, joined, parents)
            &&& tied_shortest(joined, parents)
            &&& weight == ties(joined, parents, joined.len())
            &&& count == joined.len()
            &&& after == taken_with(taken, joined)
        };
    let (joined2, parents2) = choose|joined2: Seq<Point>, parents2: Seq<int>|
        {
            &&& #[trigger] is_constellation(stars, taken, start2, limit, joined2, parents2)
            &&& tied_shortest(joined2, parents2)
            &&& weight2 == ties(joined2, parents2, joined2.len())
            &&& count2 == joined2.len()
            &&& after2 == taken_with(taken, joined2)
        };
    lemma_holds_all(stars, limit, start, joined, parents);
    lemma_holds_all(stars, limit, start2, joined2, parents2);
    assert(after =~= stars.to_set());
    assert(after2 =~= stars.to_set());
    joined.unique_seq_to_set();
    joined2.unique_seq_to_set();
    assert(joined.to_set() =~= joined2.to_set());
    assert forall|i: int| 0 <= i < joined2.len() implies joined.contains(#[trigger] joined2[i]) by {
        assert(joined2.contains(joined2[i]));
    }
    assert forall|i: int| 0 <= i < joined.len() implies joined2.contains(#[trigger] joined[i]) by {
        assert(joined.contains(joined[i]));
    }
    lemma_same_stars_same_ties(
        stars,
        taken,
        start,
        limit,
        joined,
        parents,
        stars,
        taken,
        start2,
        limit,
        joined2,
        parents2,
    );
}

/// In a sky whose stars are all less than `limit` apart, where none was
/// taken before, the stars of a constellation are the stars of the sky.
pub proof fn lemma_holds_all(
    stars: Seq<Point>,
    limit: int,
    start: Point,
    joined: Seq<Point>,
    parents: Seq<int>,
)
    requires
        is_constellation(stars, Set::empty(), start, limit, joined, parents),
        stars.contains(start),
        forall|i: int, j: int|
            0 <= i < stars.len() && 0 <= j < stars.len() ==> gap(
                #[trigger] stars[i],
                #[trigger] stars[j],
            ) < limit,
    ensures
        forall|p: Point| joined.contains(p) <==> stars.contains(p),
{
    let s = choose|s: int| 0 <= s < stars.len() && stars[s] == start;
    assert forall|p: Point| joined.contains(p) <==> stars.contains(p) by {
        if joined.contains(p) {
            let k = choose|k: int| 0 <= k < joined.len() && joined[k] == p;
            if k > 0 {
                assert(stars.contains(joined[k]));
            }
        }
        if stars.contains(p) {
            let i = choose|i: int| 0 <= i < stars.len() && stars[i] == p;
            assert(gap(stars[i], stars[s]) < limit);
            assert(joined[0] == start);
            assert(joined.contains(stars[i]));
        }
    }
}

} // verus!
