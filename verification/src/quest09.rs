//! Sparkling beetles as stamps: the fewest stamps that add up to a
//! brightness.

use crate::grid::rows_view;
use crate::text::{chars_of, lines, parse_u32, spec_parse_u32, split_lines};
use std::collections::HashMap;
use vstd::prelude::*;
use vstd::std_specs::hash::group_hash_axioms;

verus! {

broadcast use group_hash_axioms;

/// The stamps at hand at first.
pub open spec fn few_stamps() -> Seq<u32> {
    seq![1u32, 3u32, 5u32, 10u32]
}

/// The stamps at hand later.
pub open spec fn more_stamps() -> Seq<u32> {
    seq![1u32, 3u32, 5u32, 10u32, 15u32, 16u32, 20u32, 24u32, 25u32, 30u32]
}

/// The stamps at hand at last.
pub open spec fn most_stamps() -> Seq<u32> {
    seq![
        1u32,
        3u32,
        5u32,
        10u32,
        15u32,
        16u32,
        20u32,
        24u32,
        25u32,
        30u32,
        37u32,
        38u32,
        49u32,
        50u32,
        74u32,
        75u32,
        100u32,
        101u32,
    ]
}

/// The fewest of `stamps` that add up to `target`; `u32::MAX` where none do.
pub open spec fn fewest(stamps: Seq<u32>, target: nat) -> nat
    decreases target, stamps.len() + 1,
{
    if target == 0 {
        0
    } else {
        fewest_with(stamps, target, stamps.len())
    }
}

/// The fewest of `stamps` that add up to `target`, where the last stamp laid
/// is one of the first `n`; `u32::MAX` where none do.
pub open spec fn fewest_with(stamps: Seq<u32>, target: nat, n: nat) -> nat
    decreases target, n,
{
    if n == 0 || n > stamps.len() || target == 0 {
        u32::MAX as nat
    } else {
        let rest = fewest_with(stamps, target, (n - 1) as nat);
        let stamp = stamps[n - 1] as nat;
        if 0 < stamp <= target {
            let with = 1 + fewest(stamps, (target - stamp) as nat);
            if with < rest {
                with
            } else {
                rest
            }
        } else {
            rest
        }
    }
}

/// What a set of stamps must be like: no stamp of value zero, and one of
/// value one, so that every brightness can be made up.
pub open spec fn usable(stamps: Seq<u32>) -> bool {
    &&& forall|i: int| 0 <= i < stamps.len() ==> #[trigger] stamps[i] > 0
    &&& stamps.contains(1u32)
}

/// The fewest stamps with the last among the first `n` are no more than
/// with any one of those laid last.
pub proof fn lemma_fewest_with_le(stamps: Seq<u32>, target: nat, n: nat, i: int)
    requires
        0 <= i < n <= stamps.len(),
        0 < stamps[i] <= target,
    ensures
        fewest_with(stamps, target, n) <= 1 + fewest(stamps, (target - stamps[i]) as nat),
    decreases n,
{
    if i < n - 1 {
        lemma_fewest_with_le(stamps, target, (n - 1) as nat, i);
    }
}

/// With a stamp of value one at hand, no brightness takes more stamps than
/// its value.
pub proof fn lemma_fewest_bounded(stamps: Seq<u32>, target: nat)
    requires
        usable(stamps),
    ensures
        fewest(stamps, target) <= target,
    decreases target,
{
    if target > 0 {
        let i = choose|i: int| 0 <= i < stamps.len() && stamps[i] == 1u32;
        lemma_fewest_bounded(stamps, (target - 1) as nat);
        lemma_fewest_with_le(stamps, target, stamps.len(), i);
    }
}

/// Every count that `cache` holds is right.
pub open spec fn remembers(cache: Map<u32, u32>, stamps: Seq<u32>) -> bool {
    forall|t: u32| #[trigger] cache.contains_key(t) ==> cache[t] == fewest(stamps, t as nat)
}

/// Find the fewest stamps needed to get to 0 from the current target
pub fn fewest_stamps(target: u32, stamps: &[u32], cache: &mut HashMap<u32, u32>) -> (r: u32)
    requires
        usable(stamps@),
        remembers(old(cache)@, stamps@),
    ensures
        r == fewest(stamps@, target as nat),
        remembers(final(cache)@, stamps@),
    decreases target,
{
    if target == 0 {
        return 0;
    }
    if let Some(known) = cache.get(&target) {
        return *known;
    }
    let mut best = u32::MAX;
    let mut i: usize = 0;
    while i < stamps.len()
        invariant
            i <= stamps.len(),
            target > 0,
            usable(stamps@),
            remembers(cache@, stamps@),
            best == fewest_with(stamps@, target as nat, i as nat),
        decreases stamps.len() - i,
    {
        let stamp = stamps[i];
        if stamp <= target {
            proof {
                lemma_fewest_bounded(stamps@, (target - stamp) as nat);
            }
            let needed = 1 + fewest_stamps(target - stamp, stamps, cache);
            if needed < best {
                best = needed;
            }
        }
        i += 1;
    }
    cache.insert(target, best);
    best
}

/// The stamps for the brightnesses that the first `n` lines of `rows`
/// write, summed up; a line that writes no number counts for nothing.
pub open spec fn stamps_for(rows: Seq<Seq<char>>, stamps: Seq<u32>, n: nat) -> nat
    decreases n,
{
    if n == 0 {
        0
    } else {
        stamps_for(rows, stamps, (n - 1) as nat) + match spec_parse_u32(rows[n - 1]) {
            Some(t) => fewest(stamps, t as nat),
            None => 0,
        }
    }
}

/// Sums never shrink as more lines are counted.
pub proof fn lemma_stamps_for_grows(rows: Seq<Seq<char>>, stamps: Seq<u32>, m: nat, n: nat)
    requires
        m <= n,
    ensures
        stamps_for(rows, stamps, m) <= stamps_for(rows, stamps, n),
    decreases n,
{
    if m < n {
        lemma_stamps_for_grows(rows, stamps, m, (n - 1) as nat);
    }
}

/// The stamps for each brightness listed in `input`, of the stamps
/// `stamps`, summed up.
fn total_stamps(input: &str, stamps: &[u32]) -> (r: u32)
    requires
        usable(stamps@),
        stamps_for(lines(input@), stamps@, lines(input@).len()) <= u32::MAX,
    ensures
        r == stamps_for(lines(input@), stamps@, lines(input@).len()),
{
    let text = chars_of(input);
    let rows = split_lines(&text);
    let ghost listed = lines(text@);
    let mut cache: HashMap<u32, u32> = HashMap::new();
    let mut total: u32 = 0;
    let mut n: usize = 0;
    while n < rows.len()
        invariant
            n <= rows.len(),
            listed == rows_view(rows@),
            usable(stamps@),
            remembers(cache@, stamps@),
            stamps_for(listed, stamps@, listed.len()) <= u32::MAX,
            total == stamps_for(listed, stamps@, n as nat),
        decreases rows.len() - n,
    {
        proof {
            assert(listed[n as int] == rows@[n as int]@);
            lemma_stamps_for_grows(listed, stamps@, (n + 1) as nat, listed.len());
        }
        if let Some(t) = parse_u32(rows[n].as_slice()) {
            total += fewest_stamps(t, stamps, &mut cache);
        }
        n += 1;
    }
    total
}

/// The fewest stamps for each brightness listed in `input`, summed up, of
/// the stamps 1, 3, 5 and 10.
pub fn part1(input: &str) -> (r: u32)
    requires
        stamps_for(lines(input@), few_stamps(), lines(input@).len()) <= u32::MAX,
    ensures
        r == stamps_for(lines(input@), few_stamps(), lines(input@).len()),
{
    let stamps: [u32; 4] = [1, 3, 5, 10];
    proof {
        assert(stamps@ =~= few_stamps());
        assert(stamps@[0] == 1u32);
    }
    total_stamps(input, stamps.as_slice())
}

/// The fewest stamps for each brightness listed in `input`, summed up, of
/// ten kinds of stamps.
pub fn part2(input: &str) -> (r: u32)
    requires
        stamps_for(lines(input@), more_stamps(), lines(input@).len()) <= u32::MAX,
    ensures
        r == stamps_for(lines(input@), more_stamps(), lines(input@).len()),
{
    let stamps: [u32; 10] = [1, 3, 5, 10, 15, 16, 20, 24, 25, 30];
    proof {
        assert(stamps@ =~= more_stamps());
        assert(stamps@[0] == 1u32);
    }
    total_stamps(input, stamps.as_slice())
}

/// In how many ways `target` is split in two parts that are less than 101
/// apart: the halves, and then one more taken from the lesser part each time.
pub open spec fn splits(target: nat) -> nat {
    if target % 2 == 0 {
        51
    } else {
        50
    }
}

/// The fewest stamps for `target` split in two parts, each made up on its
/// own, over the first `n` ways to split it.
pub open spec fn fewest_split(stamps: Seq<u32>, target: nat, n: nat) -> nat
    decreases n,
{
    if n == 0 {
        u32::MAX as nat
    } else {
        let rest = fewest_split(stamps, target, (n - 1) as nat);
        let bottom = (target / 2 - (n - 1)) as nat;
        let top = (target - target / 2 + (n - 1)) as nat;
        let total = fewest(stamps, bottom) + fewest(stamps, top);
        if total < rest {
            total
        } else {
            rest
        }
    }
}

/// `target` can be split in every way that is tried: the lesser part stays
/// above zero, the greater within `u32`.
pub open spec fn can_split(target: nat) -> bool {
    target / 2 >= splits(target) && target - target / 2 + splits(target) <= u32::MAX
}

/// split the number into two parts which are within 100 of each other, and for each pair
/// find the optimal solution
pub fn split_and_check(target: u32, stamps: &[u32], cache: &mut HashMap<u32, u32>) -> (r: u32)
    requires
        usable(stamps@),
        remembers(old(cache)@, stamps@),
        can_split(target as nat),
    ensures
        r == fewest_split(stamps@, target as nat, splits(target as nat)),
        remembers(final(cache)@, stamps@),
{
    let mut bottom = target / 2;
    let mut top = target - bottom;
    let mut best = u32::MAX;
    let ghost mut n: nat = 0;

    while top - bottom < 101
        invariant
            usable(stamps@),
            remembers(cache@, stamps@),
            can_split(target as nat),
            n <= splits(target as nat),
            bottom == target / 2 - n,
            top == target - target / 2 + n,
            best == fewest_split(stamps@, target as nat, n),
        decreases splits(target as nat) - n,
    {
        proof {
            lemma_fewest_bounded(stamps@, bottom as nat);
            lemma_fewest_bounded(stamps@, top as nat);
        }
        let total = fewest_stamps(bottom, stamps, cache) + fewest_stamps(top, stamps, cache);
        if total < best {
            best = total;
        }
        proof {
            n = n + 1;
        }
        bottom -= 1;
        top += 1;
    }
    best
}

/// The stamps for the brightnesses that the first `n` lines of `rows`
/// write, each split in two, summed up.
pub open spec fn split_stamps_for(rows: Seq<Seq<char>>, stamps: Seq<u32>, n: nat) -> nat
    decreases n,
{
    if n == 0 {
        0
    } else {
        split_stamps_for(rows, stamps, (n - 1) as nat) + match spec_parse_u32(rows[n - 1]) {
            Some(t) => fewest_split(stamps, t as nat, splits(t as nat)),
            None => 0,
        }
    }
}

/// Every brightness that `rows` lists can be split in every way tried.
pub open spec fn all_can_split(rows: Seq<Seq<char>>) -> bool {
    forall|i: int|
        0 <= i < rows.len() ==> (spec_parse_u32(#[trigger] rows[i]) matches Some(t) ==> can_split(
            t as nat,
        ))
}

/// Sums never shrink as more lines are counted.
pub proof fn lemma_split_stamps_for_grows(rows: Seq<Seq<char>>, stamps: Seq<u32>, m: nat, n: nat)
    requires
        m <= n,
    ensures
        split_stamps_for(rows, stamps, m) <= split_stamps_for(rows, stamps, n),
    decreases n,
{
    if m < n {
        lemma_split_stamps_for_grows(rows, stamps, m, (n - 1) as nat);
    }
}

/// The fewest stamps for each brightness listed in `input`, summed up, of
/// eighteen kinds of stamps, where each brightness is split in two parts
/// less than 101 apart.
pub fn part3(input: &str) -> (r: u32)
    requires
        all_can_split(lines(input@)),
        split_stamps_for(lines(input@), most_stamps(), lines(input@).len()) <= u32::MAX,
    ensures
        r == split_stamps_for(lines(input@), most_stamps(), lines(input@).len()),
{
    let stamps: [u32; 18] = [
        1,
        3,
        5,
        10,
        15,
        16,
        20,
        24,
        25,
        30,
        37,
        38,
        49,
        50,
        74,
        75,
        100,
        101,
    ];
    proof {
        assert(stamps@ =~= most_stamps());
        assert(stamps@[0] == 1u32);
    }
    let text = chars_of(input);
    let rows = split_lines(&text);
    let ghost listed = lines(text@);
    let mut cache: HashMap<u32, u32> = HashMap::new();
    let mut total: u32 = 0;
    let mut n: usize = 0;
    while n < rows.len()
        invariant
            n <= rows.len(),
            listed == rows_view(rows@),
            usable(stamps@),
            stamps@ == most_stamps(),
            remembers(cache@, stamps@),
            all_can_split(listed),
            split_stamps_for(listed, stamps@, listed.len()) <= u32::MAX,
            total == split_stamps_for(listed, stamps@, n as nat),
        decreases rows.len() - n,
    {
        proof {
            assert(listed[n as int] == rows@[n as int]@);
            lemma_split_stamps_for_grows(listed, stamps@, (n + 1) as nat, listed.len());
        }
        if let Some(t) = parse_u32(rows[n].as_slice()) {
            total += split_and_check(t, stamps.as_slice(), &mut cache);
        }
        n += 1;
    }
    total
}

} // verus!
