//! Nails to be struck level: how many strikes it takes to bring all of
//! them to one height.

use crate::grid::rows_view;
use crate::text::{
    chars_of, lines, parse_i32, parse_u32, spec_parse_i32, spec_parse_u32, split_lines,
};
use vstd::prelude::*;
use vstd::relations::{sorted_by, total_ordering};
use vstd::seq_lib::lemma_sorted_unique;

verus! {

/// Every line of `rows` writes a `u32`.
pub open spec fn all_u32(rows: Seq<Seq<char>>) -> bool {
    forall|i: int| 0 <= i < rows.len() ==> spec_parse_u32(#[trigger] rows[i]) is Some
}

/// The heights that the lines of `rows` write.
pub open spec fn heights_u32(rows: Seq<Seq<char>>) -> Seq<int> {
    Seq::new(rows.len(), |i: int| spec_parse_u32(rows[i]).unwrap() as int)
}

/// Every line of `rows` writes an `i32`.
pub open spec fn all_i32(rows: Seq<Seq<char>>) -> bool {
    forall|i: int| 0 <= i < rows.len() ==> spec_parse_i32(#[trigger] rows[i]) is Some
}

/// The heights that the lines of `rows` write.
pub open spec fn heights_i32(rows: Seq<Seq<char>>) -> Seq<i32> {
    Seq::new(rows.len(), |i: int| spec_parse_i32(rows[i]).unwrap())
}

/// `m` is one of `s`, and none of `s` is less.
pub open spec fn is_least(s: Seq<int>, m: int) -> bool {
    s.contains(m) && forall|i: int| 0 <= i < s.len() ==> m <= #[trigger] s[i]
}

/// The least of `s`, which is not empty.
pub open spec fn least(s: Seq<int>) -> int
    recommends
        s.len() > 0,
{
    choose|m: int| is_least(s, m)
}

/// How far the first `n` heights of `s` are from `level`, summed up.
pub open spec fn gaps(s: Seq<int>, level: int, n: nat) -> int
    decreases n,
{
    if n == 0 {
        0
    } else {
        gaps(s, level, (n - 1) as nat) + vstd::math::abs(s[n - 1] - level)
    }
}

/// How far the heights `s` are from the least of them, summed up.
pub open spec fn strikes_to_least(s: Seq<int>) -> int {
    gaps(s, least(s), s.len())
}

/// The sum of the gaps never shrinks as more heights are counted.
pub proof fn lemma_gaps_grow(s: Seq<int>, level: int, m: nat, n: nat)
    requires
        m <= n,
    ensures
        0 <= gaps(s, level, m) <= gaps(s, level, n),
    decreases n,
{
    if n > 0 {
        if m < n {
            lemma_gaps_grow(s, level, m, (n - 1) as nat);
        } else {
            lemma_gaps_grow(s, level, (n - 1) as nat, (n - 1) as nat);
        }
    }
}

/// The strikes it takes to bring every nail down to the lowest: one strike
/// lowers one nail by one.
pub fn downward_strikes(input: &str) -> (r: u32)
    requires
        lines(input@).len() > 0,
        all_u32(lines(input@)),
        strikes_to_least(heights_u32(lines(input@))) <= u32::MAX,
    ensures
        r == strikes_to_least(heights_u32(lines(input@))),
{
    let text = chars_of(input);
    let rows = split_lines(&text);
    let ghost listed = lines(text@);
    let ghost heights = heights_u32(listed);
    let mut targets: Vec<u32> = Vec::new();
    let mut i: usize = 0;
    while i < rows.len()
        invariant
            i <= rows.len(),
            listed == rows_view(rows@),
            all_u32(listed),
            heights == heights_u32(listed),
            targets@.len() == i,
            forall|j: int| 0 <= j < i ==> #[trigger] targets@[j] as int == heights[j],
        decreases rows.len() - i,
    {
        assert(listed[i as int] == rows@[i as int]@);
        match parse_u32(rows[i].as_slice()) {
            Some(t) => targets.push(t),
            None => {},
        }
        i += 1;
    }
    let mut min: u32 = targets[0];
    let mut i: usize = 1;
    while i < targets.len()
        invariant
            1 <= i <= targets.len(),
            targets@.len() == heights.len(),
            forall|j: int| 0 <= j < targets@.len() ==> #[trigger] targets@[j] as int == heights[j],
            forall|j: int| 0 <= j < i ==> min <= #[trigger] heights[j],
            heights.contains(min as int),
        decreases targets.len() - i,
    {
        if targets[i] < min {
            min = targets[i];
            assert(heights[i as int] == min);
        }
        i += 1;
    }
    proof {
        assert(is_least(heights, min as int));
        let m = least(heights);
        assert(is_least(heights, m));
        let k = choose|k: int| 0 <= k < heights.len() && heights[k] == m;
        let l = choose|l: int| 0 <= l < heights.len() && heights[l] == min;
        assert(m <= heights[l] && min <= heights[k]);
    }
    let mut total: u32 = 0;
    let mut i: usize = 0;
    while i < targets.len()
        invariant
            i <= targets.len(),
            targets@.len() == heights.len(),
            forall|j: int| 0 <= j < targets@.len() ==> #[trigger] targets@[j] as int == heights[j],
            forall|j: int| 0 <= j < heights.len() ==> min <= #[trigger] heights[j],
            total == gaps(heights, min as int, i as nat),
            gaps(heights, min as int, heights.len()) <= u32::MAX,
        decreases targets.len() - i,
    {
        proof {
            lemma_gaps_grow(heights, min as int, (i + 1) as nat, heights.len());
            assert(heights[i as int] == targets@[i as int]);
        }
        total += targets[i] - min;
        i += 1;
    }
    total
}

/// Not greater, on `i32`.
pub open spec fn le_i32() -> spec_fn(i32, i32) -> bool {
    |a: i32, b: i32| a <= b
}

/// The heights `s` as mathematical integers.
pub open spec fn widened(s: Seq<i32>) -> Seq<int> {
    Seq::new(s.len(), |i: int| s[i] as int)
}

/// The heights `s` in ascending order.
pub open spec fn ascending(s: Seq<i32>) -> Seq<i32> {
    s.sort_by(le_i32())
}

/// The height in the middle of `s` in ascending order; of the two in the
/// middle of an even number, the greater.
pub open spec fn middle(s: Seq<i32>) -> int {
    ascending(s)[(s.len() / 2) as int] as int
}

/// How far the heights `s` are from the one in their middle, summed up.
pub open spec fn strikes_to_middle(s: Seq<i32>) -> int {
    gaps(widened(ascending(s)), middle(s), s.len())
}

/// Sorts `v` in ascending order with `<[i32]>::sort` of the standard
/// library: afterwards `v` holds what it held before, each value as often
/// as before, and no value stands before a lesser one.
#[verifier::external_body]
fn sort_heights(v: &mut Vec<i32>)
    ensures
        sorted_by(final(v)@, le_i32()),
        final(v)@.to_multiset() == old(v)@.to_multiset(),
{
    v.sort();
}

/// The strikes it takes to bring every nail to the height of the middle one
/// of them in ascending order: one strike moves one nail by one, up or down.
pub fn downward_and_upward_strikes(input: &str) -> (r: u32)
    requires
        lines(input@).len() > 0,
        all_i32(lines(input@)),
        strikes_to_middle(heights_i32(lines(input@))) <= u32::MAX,
    ensures
        r == strikes_to_middle(heights_i32(lines(input@))),
{
    let text = chars_of(input);
    let rows = split_lines(&text);
    let ghost listed = lines(text@);
    let ghost heights = heights_i32(listed);
    let mut targets: Vec<i32> = Vec::new();
    let mut i: usize = 0;
    while i < rows.len()
        invariant
            i <= rows.len(),
            listed == rows_view(rows@),
            all_i32(listed),
            heights == heights_i32(listed),
            targets@.len() == i,
            forall|j: int| 0 <= j < i ==> #[trigger] targets@[j] == heights[j],
        decreases rows.len() - i,
    {
        assert(listed[i as int] == rows@[i as int]@);
        match parse_i32(rows[i].as_slice()) {
            Some(t) => targets.push(t),
            None => {},
        }
        i += 1;
    }
    assert(targets@ =~= heights);
    sort_heights(&mut targets);
    proof {
        assert(total_ordering(le_i32()));
        heights.lemma_sort_by_ensures(le_i32());
        lemma_sorted_unique(targets@, ascending(heights), le_i32());
        vstd::seq_lib::to_multiset_len(targets@);
        vstd::seq_lib::to_multiset_len(heights);
    }
    let ghost sorted = widened(targets@);
    let level = targets[targets.len() / 2];

    let mut total: u32 = 0;
    let mut i: usize = 0;
    while i < targets.len()
        invariant
            i <= targets.len(),
            sorted == widened(targets@),
            total == gaps(sorted, level as int, i as nat),
            gaps(sorted, level as int, sorted.len()) <= u32::MAX,
        decreases targets.len() - i,
    {
        proof {
            lemma_gaps_grow(sorted, level as int, (i + 1) as nat, sorted.len());
            assert(sorted[i as int] == targets@[i as int]);
        }
        total += distance(targets[i], level);
        i += 1;
    }
    total
}

/// How far `a` is from `b`.
fn distance(a: i32, b: i32) -> (d: u32)
    ensures
        d == vstd::math::abs(a - b),
{
    if a >= b {
        (a as i64 - b as i64) as u32
    } else {
        (b as i64 - a as i64) as u32
    }
}

} // verus!
