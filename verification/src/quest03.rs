//! A field to be dug, layer by layer: a block can be dug one layer deeper
//! only where all blocks around it are dug as deep.

use crate::grid::Point;
use crate::point_map::PointMap;
use crate::chart::{cells, find_cells, fits};
use crate::text::{chars_of, lines, split_lines};
use vstd::prelude::*;

verus! {

/// The four ways to a block next to a block.
pub const DELTAS: [(i32, i32); 4] = [(0, -1), (-1, 0), (1, 0), (0, 1)];

/// The eight ways to a block around a block.
pub const DELTAS_WITH_DIAGONALS: [(i32, i32); 8] = [
    (-1, -1),
    (0, -1),
    (1, -1),
    (-1, 0),
    (1, 0),
    (-1, 1),
    (0, 1),
    (1, 1),
];

/// Every block of `blocks` has its neighbours by `deltas` within `i32`.
pub open spec fn neighbours_fit(blocks: Seq<Point>, deltas: Seq<(i32, i32)>) -> bool {
    forall|i: int, k: int|
        0 <= i < blocks.len() && 0 <= k < deltas.len() ==> (#[trigger] blocks[i]).can_offset(
            (#[trigger] deltas[k]).0 as int,
            deltas[k].1 as int,
        )
}

/// Around `p` the first `n` neighbours by `deltas` are all among `blocks`.
pub open spec fn enclosed(blocks: Seq<Point>, deltas: Seq<(i32, i32)>, p: Point, n: nat) -> bool
    decreases n,
{
    n == 0 || (enclosed(blocks, deltas, p, (n - 1) as nat) && blocks.contains(
        p.offset(deltas[n - 1].0 as int, deltas[n - 1].1 as int),
    ))
}

/// Those of the first `n` blocks of `blocks` that can be dug one layer
/// deeper: all their neighbours by `deltas` are among `blocks`.
pub open spec fn deeper(blocks: Seq<Point>, deltas: Seq<(i32, i32)>, n: nat) -> Seq<Point>
    decreases n,
{
    if n == 0 {
        Seq::empty()
    } else {
        let before = deeper(blocks, deltas, (n - 1) as nat);
        if enclosed(blocks, deltas, blocks[n - 1], deltas.len()) {
            before.push(blocks[n - 1])
        } else {
            before
        }
    }
}

/// The blocks that are dug in layer `k`, counted from zero: all of them in
/// the first layer, and then those of the layer above that can be dug
/// deeper.
pub open spec fn layer(blocks: Seq<Point>, deltas: Seq<(i32, i32)>, k: nat) -> Seq<Point>
    decreases k,
{
    if k == 0 {
        blocks
    } else {
        deeper(layer(blocks, deltas, (k - 1) as nat), deltas, layer(
            blocks,
            deltas,
            (k - 1) as nat,
        ).len())
    }
}

/// The blocks dug in the first `n` layers.
pub open spec fn dug(blocks: Seq<Point>, deltas: Seq<(i32, i32)>, n: nat) -> nat
    decreases n,
{
    if n == 0 {
        0
    } else {
        dug(blocks, deltas, (n - 1) as nat) + layer(blocks, deltas, (n - 1) as nat).len()
    }
}

/// Layer `k` is the first in which nothing is dug.
pub open spec fn bottom(blocks: Seq<Point>, deltas: Seq<(i32, i32)>, k: nat) -> bool {
    &&& layer(blocks, deltas, k).len() == 0
    &&& forall|j: nat| j < k ==> (#[trigger] layer(blocks, deltas, j)).len() > 0
}

/// The first layer in which nothing is dug.
pub open spec fn depth(blocks: Seq<Point>, deltas: Seq<(i32, i32)>) -> nat {
    choose|k: nat| bottom(blocks, deltas, k)
}

/// What is dug deeper was among the blocks dug.
pub proof fn lemma_deeper_among(blocks: Seq<Point>, deltas: Seq<(i32, i32)>, n: nat, i: int)
    requires
        n <= blocks.len(),
        0 <= i < deeper(blocks, deltas, n).len(),
    ensures
        blocks.contains(deeper(blocks, deltas, n)[i]),
        deeper(blocks, deltas, n).len() <= n,
    decreases n,
{
    let before = deeper(blocks, deltas, (n - 1) as nat);
    if i < before.len() {
        lemma_deeper_among(blocks, deltas, (n - 1) as nat, i);
    } else {
        assert(blocks[n - 1] == deeper(blocks, deltas, n)[i]);
        if before.len() > 0 {
            lemma_deeper_among(blocks, deltas, (n - 1) as nat, 0);
        }
    }
}

/// The blocks of every layer are among the blocks of the first.
pub proof fn lemma_layer_among(blocks: Seq<Point>, deltas: Seq<(i32, i32)>, k: nat, i: int)
    requires
        0 <= i < layer(blocks, deltas, k).len(),
    ensures
        blocks.contains(layer(blocks, deltas, k)[i]),
    decreases k,
{
    if k > 0 {
        let above = layer(blocks, deltas, (k - 1) as nat);
        lemma_deeper_among(above, deltas, above.len(), i);
        let p = layer(blocks, deltas, k)[i];
        let j = choose|j: int| 0 <= j < above.len() && above[j] == p;
        lemma_layer_among(blocks, deltas, (k - 1) as nat, j);
    }
}

/// The digging goes down to the bottom at layer `k`, and can be counted.
pub open spec fn digs_down(blocks: Seq<Point>, deltas: Seq<(i32, i32)>, k: nat) -> bool {
    &&& bottom(blocks, deltas, k)
    &&& dug(blocks, deltas, k) <= u32::MAX
    &&& neighbours_fit(blocks, deltas)
}

/// The blocks that can be dug in all from the field drawn in `input`,
/// where `#` is a block to dig: a block is dug one layer deeper where all
/// its neighbours by `deltas` are dug as deep.
pub fn solve(input: &str, deltas: &[(i32, i32)]) -> (r: u32)
    requires
        fits(lines(input@)),
        exists|k: nat| digs_down(cells(lines(input@), '#', lines(input@).len()), deltas@, k),
    ensures
        r == dug(
            cells(lines(input@), '#', lines(input@).len()),
            deltas@,
            depth(cells(lines(input@), '#', lines(input@).len()), deltas@),
        ),
{
    let text = chars_of(input);
    let rows = split_lines(&text);
    let ghost blocks = cells(lines(input@), '#', lines(input@).len());
    let ghost last = choose|k: nat| digs_down(blocks, deltas@, k);
    // we can always excavate the entire first layer
    let mut excavations = find_cells(&rows, '#');
    let mut count: u32 = 0;
    let ghost mut k: nat = 0;

    // keep digging until we can't dig any more
    while excavations.len() > 0
        invariant
            blocks == cells(lines(input@), '#', lines(input@).len()),
            digs_down(blocks, deltas@, last),
            k <= last,
            excavations@ == layer(blocks, deltas@, k),
            count == dug(blocks, deltas@, k),
            forall|j: nat| j < k ==> (#[trigger] layer(blocks, deltas@, j)).len() > 0,
        decreases last - k,
    {
        let ghost here = excavations@;
        proof {
            if k == last {
                assert(layer(blocks, deltas@, last).len() == 0);
            }
            lemma_dug_grows(blocks, deltas@, k + 1, last);
        }
        count += excavations.len() as u32;

        let mut dug_here: PointMap<bool> = PointMap::new();
        let mut i: usize = 0;
        while i < excavations.len()
            invariant
                i <= excavations.len(),
                here == excavations@,
                forall|p: Point|
                    dug_here@.contains_key(p) <==> exists|j: int|
                        0 <= j < i && #[trigger] here[j] == p,
            decreases excavations.len() - i,
        {
            dug_here.insert(excavations[i], true);
            proof {
                assert forall|p: Point| dug_here@.contains_key(p) implies exists|j: int|
                    0 <= j < i + 1 && #[trigger] here[j] == p by {
                    if p == here[i as int] {
                    } else {
                        let j = choose|j: int| 0 <= j < i && #[trigger] here[j] == p;
                        assert(here[j] == p);
                    }
                }
            }
            i += 1;
        }
        proof {
            assert forall|p: Point| dug_here@.contains_key(p) <==> here.contains(p) by {
                if here.contains(p) {
                    let j = choose|j: int| 0 <= j < here.len() && here[j] == p;
                    assert(here[j] == p);
                }
            }
        }

        let mut new_excavations: Vec<Point> = Vec::new();
        let mut i: usize = 0;
        while i < excavations.len()
            invariant
                i <= excavations.len(),
                here == excavations@,
                here == layer(blocks, deltas@, k),
                neighbours_fit(blocks, deltas@),
                forall|p: Point| dug_here@.contains_key(p) <==> here.contains(p),
                new_excavations@ == deeper(here, deltas@, i as nat),
            decreases excavations.len() - i,
        {
            let p = excavations[i];
            proof {
                lemma_layer_among(blocks, deltas@, k, i as int);
                let at = choose|at: int| 0 <= at < blocks.len() && blocks[at] == p;
                assert(blocks[at] == p);
            }
            // we can excavate this square if every adjacent square is the same depth
            let mut all_dug = true;
            let mut n: usize = 0;
            while n < deltas.len()
                invariant
                    n <= deltas.len(),
                    forall|j: int|
                        0 <= j < deltas@.len() ==> p.can_offset(
                            (#[trigger] deltas@[j]).0 as int,
                            deltas@[j].1 as int,
                        ),
                    forall|q: Point| dug_here@.contains_key(q) <==> here.contains(q),
                    all_dug == enclosed(here, deltas@, p, n as nat),
                decreases deltas.len() - n,
            {
                let d = deltas[n];
                let q = Point::new(p.x + d.0, p.y + d.1);
                if !dug_here.contains_key(q) {
                    all_dug = false;
                }
                n += 1;
            }
            if all_dug {
                new_excavations.push(p);
            }
            i += 1;
        }
        excavations = new_excavations;
        proof {
            k = k + 1;
        }
    }
    proof {
        assert(bottom(blocks, deltas@, k));
        let d = depth(blocks, deltas@);
        assert(bottom(blocks, deltas@, d));
        if d < k {
            assert(layer(blocks, deltas@, d).len() > 0);
        }
        if k < d {
            assert(layer(blocks, deltas@, k).len() > 0);
        }
    }
    count
}

/// What is dug in more layers is no less.
pub proof fn lemma_dug_grows(blocks: Seq<Point>, deltas: Seq<(i32, i32)>, m: nat, n: nat)
    requires
        m <= n,
    ensures
        dug(blocks, deltas, m) <= dug(blocks, deltas, n),
    decreases n,
{
    if m < n {
        lemma_dug_grows(blocks, deltas, m, (n - 1) as nat);
    }
}

} // verus!
