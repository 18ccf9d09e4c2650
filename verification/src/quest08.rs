//! A shrine built of blocks, one layer at a time: how many blocks are
//! missing when the supply runs out in the middle of a layer.

use crate::text::{chars_of, parse_u32, parse_u64, spec_parse_u32, spec_parse_u64, trim, trimmed};
use vstd::prelude::*;

verus! {

/// `n` is the least number of layers, at least one, whose `n * n` blocks
/// are no fewer than `target`.
pub open spec fn is_side(n: int, target: int) -> bool {
    &&& n >= 1
    &&& n * n >= target
    &&& n == 1 || (n - 1) * (n - 1) < target
}

/// The least number of layers, at least one, that hold `target` blocks.
pub open spec fn side(target: int) -> int {
    choose|n: int| is_side(n, target)
}

/// Only one number of layers is the least that holds `target` blocks.
pub proof fn lemma_side_unique(n: int, target: int)
    requires
        is_side(n, target),
    ensures
        side(target) == n,
{
    let m = side(target);
    if m < n {
        assert(m * m <= (n - 1) * (n - 1)) by (nonlinear_arith)
            requires
                1 <= m <= n - 1,
        ;
    }
    if n < m {
        assert(n * n <= (m - 1) * (m - 1)) by (nonlinear_arith)
            requires
                1 <= n <= m - 1,
        ;
    }
}

/// The blocks missing to finish the last layer of a plain pyramid of
/// `target` blocks, times the width of that layer.
pub open spec fn missing_by_width(target: int) -> int {
    (side(target) * side(target) - target) * (2 * side(target) - 1)
}

/// Whether the pyramid for `target` blocks can be counted in `u32`.
pub open spec fn pyramid_fits(target: int) -> bool {
    side(target) * side(target) <= u32::MAX && missing_by_width(target) <= u32::MAX
}

/// The blocks missing to finish the pyramid for `target` blocks, times the
/// width of its base.
pub fn pyramid(target: u32) -> (r: u32)
    requires
        pyramid_fits(target as int),
    ensures
        r == missing_by_width(target as int),
{
    let mut width: u32 = 1;
    let mut blocks: u32 = 1;
    let ghost mut n: int = 1;
    proof {
        assert(exists|m: int| is_side(m, target as int)) by {
            assert(target >= 1 ==> target * target >= target) by (nonlinear_arith);
            lemma_side_exists(target as int, target as int);
        }
    }
    while blocks < target
        invariant
            n >= 1,
            width == 2 * n - 1,
            blocks == n * n,
            n == 1 || (n - 1) * (n - 1) < target,
            is_side(side(target as int), target as int),
            pyramid_fits(target as int),
            n <= side(target as int),
        decreases side(target as int) - n,
    {
        proof {
            let m = side(target as int);
            if m <= n {
                assert(m * m <= n * n) by (nonlinear_arith)
                    requires
                        1 <= m <= n,
                ;
            }
            assert((n + 1) * (n + 1) <= m * m) by (nonlinear_arith)
                requires
                    1 <= n + 1 <= m,
            ;
            assert((n + 1) * (n + 1) == n * n + 2 * n + 1) by (nonlinear_arith);
            n = n + 1;
        }
        // add a new layer to the bottom
        width += 2;
        blocks += width;
    }
    proof {
        lemma_side_unique(n, target as int);
    }
    (blocks - target) * width
}

/// Some number of layers is the least that holds `target` blocks.
pub proof fn lemma_side_exists(target: int, bound: int)
    requires
        bound >= 1 ==> bound * bound >= target,
        bound < 1 ==> target <= 1,
    ensures
        exists|n: int| is_side(n, target),
    decreases bound,
{
    if bound <= 1 {
        assert(is_side(1, target));
    } else if (bound - 1) * (bound - 1) < target {
        assert(is_side(bound, target));
    } else {
        lemma_side_exists(target, bound - 1);
    }
}

/// The blocks missing to finish the pyramid for the blocks that `input`
/// counts, times the width of its base.
pub fn part1(input: &str) -> (r: u32)
    requires
        spec_parse_u32(trimmed(input@)) matches Some(target) && pyramid_fits(target as int),
    ensures
        spec_parse_u32(trimmed(input@)) matches Some(target) && r == missing_by_width(
            target as int,
        ),
{
    let text = chars_of(input);
    let word = trim(text.as_slice());
    match parse_u32(word.as_slice()) {
        Some(target) => pyramid(target),
        None => 0,
    }
}

/// The thickness of layer `k` of a shrine: one for the top, and for each
/// further layer that of the layer above times `priests`, modulo `acolytes`.
pub open spec fn thickness(priests: int, acolytes: int, k: nat) -> int
    decreases k,
{
    if k == 0 {
        1
    } else {
        (thickness(priests, acolytes, (k - 1) as nat) * priests) % acolytes
    }
}

/// The blocks in the first `k` layers below the top of a shrine: layer `k`
/// is `2 * k + 1` wide and as thick as `thickness` says.
pub open spec fn blocks(priests: int, acolytes: int, k: nat) -> int
    decreases k,
{
    if k == 0 {
        1
    } else {
        blocks(priests, acolytes, (k - 1) as nat) + (2 * k + 1) * thickness(priests, acolytes, k)
    }
}

/// Layer `k` is the first with which the shrine holds `available` blocks.
pub open spec fn completes(priests: int, acolytes: int, available: int, k: nat) -> bool {
    &&& blocks(priests, acolytes, k) >= available
    &&& forall|j: nat| j < k ==> #[trigger] blocks(priests, acolytes, j) < available
}

/// Every number computed for the layers up to `k` can be held in `u32`.
pub open spec fn layers_fit(priests: int, acolytes: int, k: nat) -> bool {
    forall|j: nat|
        1 <= j <= k ==> {
            &&& thickness(priests, acolytes, (j - 1) as nat) * priests <= u32::MAX
            &&& 2 * j + 1 <= u32::MAX
            &&& (2 * j + 1) * thickness(priests, acolytes, j) <= u32::MAX
            &&& #[trigger] blocks(priests, acolytes, j) <= u32::MAX
        }
}

/// The first layer with which the shrine holds `available` blocks.
pub open spec fn final_layer(priests: int, acolytes: int, available: int) -> nat {
    choose|k: nat| completes(priests, acolytes, available, k)
}

/// The blocks missing when the shrine is complete at layer `k`, times the
/// width of that layer.
pub open spec fn missing_at(priests: int, acolytes: int, available: int, k: nat) -> int {
    (blocks(priests, acolytes, k) - available) * (2 * k + 1)
}

/// The shrine is complete at layer `k`, and all of it can be counted in `u32`.
pub open spec fn builds(priests: int, acolytes: int, available: int, k: nat) -> bool {
    &&& completes(priests, acolytes, available, k)
    &&& layers_fit(priests, acolytes, k)
    &&& missing_at(priests, acolytes, available, k) <= u32::MAX
}

/// Calculates the number of additional blocks needed once exceeding the available count
/// multiplied by the width of the base of the structure at that point
pub fn additional_blocks(priests: u32, acolytes: u32, available: u32) -> (r: u32)
    requires
        acolytes > 0,
        exists|k: nat| builds(priests as int, acolytes as int, available as int, k),
    ensures
        r == missing_at(
            priests as int,
            acolytes as int,
            available as int,
            final_layer(priests as int, acolytes as int, available as int),
        ),
{
    let ghost p = priests as int;
    let ghost a = acolytes as int;
    let ghost last = choose|k: nat| builds(p, a, available as int, k);
    let ghost mut j: nat = 0;
    let mut thickness: u32 = 1;
    let mut width: u32 = 1;
    let mut blocks: u32 = 1;

    while blocks < available
        invariant
            p == priests,
            a == acolytes,
            a > 0,
            builds(p, a, available as int, last),
            j <= last,
            thickness == self::thickness(p, a, j),
            width == 2 * j + 1,
            blocks == self::blocks(p, a, j),
            forall|i: nat| i < j ==> #[trigger] self::blocks(p, a, i) < available,
        decreases last - j,
    {
        proof {
            let next = (j + 1) as nat;
            assert(self::blocks(p, a, next) <= u32::MAX);
            assert((next - 1) as nat == j);
            j = next;
        }
        thickness = (thickness * priests) % acolytes;

        // add a new layer
        width += 2;
        blocks += width * thickness;
    }
    proof {
        if j < last {
            assert(self::blocks(p, a, j) < available);
        }
        assert(completes(p, a, available as int, j));
        lemma_completes_unique(p, a, available as int, j, final_layer(p, a, available as int));
    }
    (blocks - available) * width
}

/// The blocks missing to finish the shrine of 20240000 blocks, with the
/// priests that `input` counts and 1111 acolytes, times the width of its
/// base.
pub fn part2(input: &str) -> (r: u32)
    requires
        spec_parse_u32(trimmed(input@)) matches Some(priests) && exists|k: nat|
            builds(priests as int, 1111, 20240000, k),
    ensures
        spec_parse_u32(trimmed(input@)) matches Some(priests) && r == missing_at(
            priests as int,
            1111,
            20240000,
            final_layer(priests as int, 1111, 20240000),
        ),
{
    // each time you add a new layer, the number of blocks added in each
    // "column" is equal to the thickness of that layer, so the number of
    // additional blocks is the width of the base times that thickness
    let text = chars_of(input);
    let word = trim(text.as_slice());
    match parse_u32(word.as_slice()) {
        Some(priests) => additional_blocks(priests, 1111, 20240000),
        None => 0,
    }
}

/// Only one layer is the first with which the shrine holds `available` blocks.
pub proof fn lemma_completes_unique(priests: int, acolytes: int, available: int, j: nat, k: nat)
    requires
        completes(priests, acolytes, available, j),
        completes(priests, acolytes, available, k),
    ensures
        j == k,
{
    if j < k {
        assert(blocks(priests, acolytes, j) < available);
    }
    if k < j {
        assert(blocks(priests, acolytes, k) < available);
    }
}

/// The thickness of layer `k` of a hollowed shrine: one for the top, and
/// for each further layer that of the layer above times `priests`, modulo
/// `acolytes`, plus `acolytes`.
pub open spec fn thickness2(priests: int, acolytes: int, k: nat) -> int
    decreases k,
{
    if k == 0 {
        1
    } else {
        (thickness2(priests, acolytes, (k - 1) as nat) * priests) % acolytes + acolytes
    }
}

/// The heights of the columns of a shrine of `k` layers below its top, from
/// left to right: a new layer raises every column by its thickness and adds
/// a column of that height at each side.
pub open spec fn columns(priests: int, acolytes: int, k: nat) -> Seq<int>
    decreases k,
{
    if k == 0 {
        seq![1int]
    } else {
        let t = thickness2(priests, acolytes, k);
        let raised = Seq::new(
            columns(priests, acolytes, (k - 1) as nat).len(),
            |i: int| columns(priests, acolytes, (k - 1) as nat)[i] + t,
        );
        seq![t] + raised + seq![t]
    }
}

/// The sum of the first `n` heights of `heights`.
pub open spec fn sum_first(heights: Seq<int>, n: nat) -> int
    decreases n,
{
    if n == 0 {
        0
    } else {
        sum_first(heights, (n - 1) as nat) + heights[n - 1]
    }
}

/// The blocks taken out of a column of height `height` of a shrine that is
/// `width` wide.
pub open spec fn hollow(width: int, height: int, priests: int, acolytes: int) -> int {
    (width * height * priests) % acolytes
}

/// The blocks taken out of the first `n` columns but the very first.
pub open spec fn hollowed_first(
    heights: Seq<int>,
    width: int,
    priests: int,
    acolytes: int,
    n: nat,
) -> int
    decreases n,
{
    if n <= 1 {
        0
    } else {
        hollowed_first(heights, width, priests, acolytes, (n - 1) as nat) + hollow(
            width,
            heights[n - 1],
            priests,
            acolytes,
        )
    }
}

/// The blocks in a hollowed shrine of `k` layers below its top: its columns,
/// less what is taken out of every column but the outer two.
pub open spec fn blocks2(priests: int, acolytes: int, k: nat) -> int {
    if k == 0 {
        1
    } else {
        let heights = columns(priests, acolytes, k);
        sum_first(heights, heights.len()) - hollowed_first(
            heights,
            2 * k as int + 1,
            priests,
            acolytes,
            (heights.len() - 1) as nat,
        )
    }
}

/// Layer `k` is the first with which the hollowed shrine holds `available`
/// blocks.
pub open spec fn completes2(priests: int, acolytes: int, available: int, k: nat) -> bool {
    &&& blocks2(priests, acolytes, k) >= available
    &&& forall|j: nat| j < k ==> #[trigger] blocks2(priests, acolytes, j) < available
}

/// The first layer with which the hollowed shrine holds `available` blocks.
pub open spec fn final_layer2(priests: int, acolytes: int, available: int) -> nat {
    choose|k: nat| completes2(priests, acolytes, available, k)
}

/// Every number computed for layer `j` can be held in `u64`, and no more
/// blocks are taken out than are there.
pub open spec fn layer_fits2(priests: int, acolytes: int, j: nat) -> bool {
    let heights = columns(priests, acolytes, j);
    &&& thickness2(priests, acolytes, (j - 1) as nat) * priests <= u64::MAX
    &&& thickness2(priests, acolytes, j) <= u64::MAX
    &&& 2 * j + 1 <= u64::MAX
    &&& forall|i: int| 0 <= i < heights.len() ==> 0 <= #[trigger] heights[i] <= u64::MAX
    &&& forall|n: nat| n <= heights.len() ==> 0 <= #[trigger] sum_first(heights, n) <= u64::MAX
    &&& forall|i: int|
        1 <= i < heights.len() - 1 ==> (2 * j + 1) * #[trigger] heights[i] * priests <= u64::MAX
    &&& forall|n: nat|
        n <= heights.len() - 1 ==> #[trigger] hollowed_first(
            heights,
            2 * j as int + 1,
            priests,
            acolytes,
            n,
        ) <= sum_first(heights, heights.len())
}

/// The hollowed shrine is complete at layer `k`, and all of it can be
/// counted in `u64`.
pub open spec fn builds2(priests: int, acolytes: int, available: int, k: nat) -> bool {
    &&& completes2(priests, acolytes, available, k)
    &&& forall|j: nat| 1 <= j <= k ==> #[trigger] layer_fits2(priests, acolytes, j)
}

/// The columns of a shrine of `k` layers below its top are `2 * k + 1`.
pub proof fn lemma_columns_len(priests: int, acolytes: int, k: nat)
    ensures
        columns(priests, acolytes, k).len() == 2 * k + 1,
    decreases k,
{
    if k > 0 {
        lemma_columns_len(priests, acolytes, (k - 1) as nat);
    }
}

/// The heights held in `cols` as mathematical integers.
pub open spec fn heights_of(cols: Seq<u64>) -> Seq<int> {
    Seq::new(cols.len(), |i: int| cols[i] as int)
}

/// Similar to part 2, but now blocks are removed from the columns to make space for attendees.
/// The thickness calculation is also modified.
///
/// The answer is only the number of additional blocks, not multiplied by the width of the base
pub fn additional_blocks_2(priests: u64, acolytes: u64, available: u64) -> (r: u64)
    requires
        acolytes > 0,
        exists|k: nat| builds2(priests as int, acolytes as int, available as int, k),
    ensures
        r == blocks2(
            priests as int,
            acolytes as int,
            final_layer2(priests as int, acolytes as int, available as int),
        ) - available,
{
    let ghost p = priests as int;
    let ghost a = acolytes as int;
    let ghost last = choose|k: nat| builds2(p, a, available as int, k);
    let ghost mut j: nat = 0;
    let mut thickness: u64 = 1;
    let mut width: u64 = 1;
    let mut blocks: u64 = 1;
    let mut cols: Vec<u64> = Vec::new();
    cols.push(1);
    proof {
        assert(heights_of(cols@) =~= columns(p, a, 0));
    }

    while blocks < available
        invariant
            p == priests,
            a == acolytes,
            a > 0,
            builds2(p, a, available as int, last),
            j <= last,
            thickness == thickness2(p, a, j),
            width == 2 * j + 1,
            blocks == blocks2(p, a, j),
            heights_of(cols@) == columns(p, a, j),
            forall|i: nat| i < j ==> #[trigger] blocks2(p, a, i) < available,
        decreases last - j,
    {
        let ghost above = columns(p, a, j);
        let ghost next = (j + 1) as nat;
        let ghost heights = columns(p, a, next);
        proof {
            assert(layer_fits2(p, a, next));
            assert((next - 1) as nat == j);
            lemma_columns_len(p, a, j);
            lemma_columns_len(p, a, next);
            assert(cols@.len() == heights_of(cols@).len());
        }
        thickness = ((thickness * priests) % acolytes) + acolytes;

        // add a new layer, which raises all existing columns
        width += 2;
        let mut i: usize = 0;
        while i < cols.len()
            invariant
                i <= cols.len(),
                cols@.len() == above.len(),
                above.len() == 2 * j + 1,
                heights.len() == above.len() + 2,
                thickness == thickness2(p, a, next),
                next == j + 1,
                heights == columns(p, a, next),
                above == columns(p, a, j),
                forall|n: int| 0 <= n < heights.len() ==> 0 <= #[trigger] heights[n] <= u64::MAX,
                forall|n: int| 0 <= n < i ==> cols@[n] as int == above[n] + thickness,
                forall|n: int| i <= n < cols@.len() ==> cols@[n] as int == above[n],
            decreases cols.len() - i,
        {
            proof {
                assert(heights[i + 1] == above[i as int] + thickness);
            }
            let raised = cols[i] + thickness;
            cols[i] = raised;
            i += 1;
        }
        cols.insert(0, thickness);
        cols.push(thickness);
        proof {
            assert forall|n: int| 0 <= n < heights.len() implies heights_of(cols@)[n]
                == heights[n] by {
                if 1 <= n < heights.len() - 1 {
                    assert(heights[n] == above[n - 1] + thickness);
                }
            }
            assert(heights_of(cols@) =~= heights);
        }

        let mut sum: u64 = 0;
        let mut n: usize = 0;
        while n < cols.len()
            invariant
                n <= cols.len(),
                heights_of(cols@) == heights,
                sum == sum_first(heights, n as nat),
                forall|m: nat| m <= heights.len() ==> 0 <= #[trigger] sum_first(heights, m) <= u64::MAX,
            decreases cols.len() - n,
        {
            proof {
                assert(sum_first(heights, (n + 1) as nat) == sum_first(heights, n as nat)
                    + heights[n as int]);
                assert(heights[n as int] == cols@[n as int]);
            }
            sum += cols[n];
            n += 1;
        }
        blocks = sum;

        // remove blocks from inner columns to make space for attendees
        let inner: usize = cols.len() - 1;
        let mut n: usize = 1;
        while n < inner
            invariant
                1 <= n <= inner,
                inner == cols.len() - 1,
                a > 0,
                a == acolytes,
                p == priests,
                width == 2 * next + 1,
                heights_of(cols@) == heights,
                blocks == sum_first(heights, heights.len()) - hollowed_first(
                    heights,
                    width as int,
                    p,
                    a,
                    n as nat,
                ),
                forall|i: int|
                    1 <= i < heights.len() - 1 ==> width * #[trigger] heights[i] * p <= u64::MAX,
                forall|i: int| 0 <= i < heights.len() ==> 0 <= #[trigger] heights[i] <= u64::MAX,
                forall|m: nat|
                    m <= heights.len() - 1 ==> #[trigger] hollowed_first(
                        heights,
                        width as int,
                        p,
                        a,
                        m,
                    ) <= sum_first(heights, heights.len()),
            decreases inner - n,
        {
            proof {
                let h = heights[n as int];
                assert(h == cols@[n as int]);
                assert(width * h * p <= u64::MAX);
                assert(0 <= width * h <= width * h * p || p == 0) by (nonlinear_arith)
                    requires
                        width >= 0,
                        h >= 0,
                        p >= 0,
                ;
                assert(p == 0 ==> width * h * p == 0) by (nonlinear_arith);
                assert(hollowed_first(heights, width as int, p, a, (n + 1) as nat)
                    == hollowed_first(heights, width as int, p, a, n as nat) + hollow(
                    width as int,
                    h,
                    p,
                    a,
                ));
            }
            let taken = remove_from(width, cols[n], priests, acolytes);
            blocks -= taken;
            n += 1;
        }
        proof {
            j = next;
        }
    }
    proof {
        if j < last {
            assert(blocks2(p, a, j) < available);
        }
        assert(completes2(p, a, available as int, j));
        let k = final_layer2(p, a, available as int);
        if j < k {
            assert(blocks2(p, a, j) < available);
        }
        if k < j {
            assert(blocks2(p, a, k) < available);
        }
    }
    blocks - available
}

/// The blocks to take out of a column of height `height` of a shrine that
/// is `width` wide.
fn remove_from(width: u64, height: u64, priests: u64, acolytes: u64) -> (r: u64)
    requires
        acolytes > 0,
        width * height * priests <= u64::MAX,
        priests > 0 ==> width * height <= u64::MAX,
    ensures
        r == hollow(width as int, height as int, priests as int, acolytes as int),
{
    if priests == 0 {
        assert(width * height * 0 == 0) by (nonlinear_arith);
        0
    } else {
        (width * height * priests) % acolytes
    }
}

/// The blocks missing to finish the hollowed shrine of 202400000 blocks,
/// with the priests that `input` counts and ten acolytes.
pub fn part3(input: &str) -> (r: u64)
    requires
        spec_parse_u64(trimmed(input@)) matches Some(priests) && exists|k: nat|
            builds2(priests as int, 10, 202400000, k),
    ensures
        spec_parse_u64(trimmed(input@)) matches Some(priests) && r == blocks2(
            priests as int,
            10,
            final_layer2(priests as int, 10, 202400000),
        ) - 202400000,
{
    let text = chars_of(input);
    let word = trim(text.as_slice());
    match parse_u64(word.as_slice()) {
        Some(priests) => additional_blocks_2(priests, 10, 202400000),
        None => 0,
    }
}

} // verus!
