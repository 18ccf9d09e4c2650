//! The potions needed for a battle against creatures that come alone, in
//! pairs or in threes.

use crate::text::chars_of;
use vstd::prelude::*;
use vstd::string::StringSliceAdditionalSpecFns;

verus! {

/// The letter `A`, an ancient ant.
pub const ANT: u8 = 65;

/// The letter `B`, a badass beetle.
pub const BEETLE: u8 = 66;

/// The letter `C`, a creepy cockroach.
pub const COCKROACH: u8 = 67;

/// The letter `D`, a diabolical dragonfly.
pub const DRAGONFLY: u8 = 68;

/// The letter `x`, an empty place.
pub const NOBODY: u8 = 120;

/// The potions that one creature takes alone; an `x` is an empty place.
pub open spec fn potions(creature: u8) -> Option<int> {
    if creature == ANT || creature == NOBODY {
        Some(0)
    } else if creature == BEETLE {
        Some(1)
    } else if creature == COCKROACH {
        Some(3)
    } else if creature == DRAGONFLY {
        Some(5)
    } else {
        None
    }
}

/// The potions that the creature at `i` takes alone.
pub open spec fn potions_at(line: Seq<u8>, i: int) -> int {
    potions(line[i]).unwrap()
}

/// One if there is a creature at `i`, zero for an empty place.
pub open spec fn present(line: Seq<u8>, i: int) -> int {
    if line[i] == NOBODY {
        0
    } else {
        1
    }
}

/// Every place of `line` holds a creature or is empty.
pub open spec fn known(line: Seq<u8>) -> bool {
    forall|i: int| 0 <= i < line.len() ==> potions(#[trigger] line[i]) is Some
}

/// The potions for the first `n` creatures of `line`, which come alone.
pub open spec fn alone(line: Seq<char>, n: nat) -> int
    decreases n,
{
    if n == 0 {
        0
    } else {
        alone(line, (n - 1) as nat) + lone_potions(line[n - 1]).unwrap()
    }
}

/// The potions for a creature that can come alone: `A`, `B` or `C`.
pub open spec fn lone_potions(creature: char) -> Option<int> {
    if creature == 'A' {
        Some(0)
    } else if creature == 'B' {
        Some(1)
    } else if creature == 'C' {
        Some(3)
    } else {
        None
    }
}

/// The potions for the pair at places `2 * k` and `2 * k + 1`: what each
/// takes alone, and one more for each where both are there.
pub open spec fn pair(line: Seq<u8>, k: int) -> int {
    potions_at(line, 2 * k) + potions_at(line, 2 * k + 1) + (if present(line, 2 * k) + present(
        line,
        2 * k + 1,
    ) == 2 {
        2int
    } else {
        0int
    })
}

/// The potions for the first `n` pairs of `line`.
pub open spec fn pairs(line: Seq<u8>, n: nat) -> int
    decreases n,
{
    if n == 0 {
        0
    } else {
        pairs(line, (n - 1) as nat) + pair(line, n - 1)
    }
}

/// The potions for the three at places `3 * k` to `3 * k + 2`: what each
/// takes alone, and for each that is there one more for each other that is
/// there (six for three of them, two for two).
pub open spec fn three(line: Seq<u8>, k: int) -> int {
    let there = present(line, 3 * k) + present(line, 3 * k + 1) + present(line, 3 * k + 2);
    potions_at(line, 3 * k) + potions_at(line, 3 * k + 1) + potions_at(line, 3 * k + 2) + (if there
        == 3 {
        6int
    } else if there == 2 {
        2int
    } else {
        0int
    })
}

/// The potions for the first `n` threes of `line`.
pub open spec fn threes(line: Seq<u8>, n: nat) -> int
    decreases n,
{
    if n == 0 {
        0
    } else {
        threes(line, (n - 1) as nat) + three(line, n - 1)
    }
}

/// The potions for one creature.
fn potions_for(creature: u8) -> (r: u32)
    requires
        potions(creature) is Some,
    ensures
        r == potions(creature).unwrap(),
{
    if creature == BEETLE {
        1
    } else if creature == COCKROACH {
        3
    } else if creature == DRAGONFLY {
        5
    } else {
        0
    }
}

/// Sums never shrink as more creatures are counted.
pub proof fn lemma_alone_grows(line: Seq<char>, m: nat, n: nat)
    requires
        m <= n <= line.len(),
        forall|i: int| 0 <= i < line.len() ==> lone_potions(#[trigger] line[i]) is Some,
    ensures
        0 <= alone(line, m) <= alone(line, n),
    decreases n,
{
    if n > 0 {
        if m < n {
            lemma_alone_grows(line, m, (n - 1) as nat);
        } else {
            lemma_alone_grows(line, (n - 1) as nat, (n - 1) as nat);
        }
        assert(lone_potions(line[n - 1]) is Some);
    }
}

/// Sums never shrink as more pairs are counted.
pub proof fn lemma_pairs_grow(line: Seq<u8>, m: nat, n: nat)
    requires
        m <= n,
        2 * n <= line.len(),
        known(line),
    ensures
        0 <= pairs(line, m) <= pairs(line, n),
    decreases n,
{
    if n > 0 {
        if m < n {
            lemma_pairs_grow(line, m, (n - 1) as nat);
        } else {
            lemma_pairs_grow(line, (n - 1) as nat, (n - 1) as nat);
        }
        assert(potions(line[2 * (n - 1)]) is Some);
        assert(potions(line[2 * (n - 1) + 1]) is Some);
    }
}

/// Sums never shrink as more threes are counted.
pub proof fn lemma_threes_grow(line: Seq<u8>, m: nat, n: nat)
    requires
        m <= n,
        3 * n <= line.len(),
        known(line),
    ensures
        0 <= threes(line, m) <= threes(line, n),
    decreases n,
{
    if n > 0 {
        if m < n {
            lemma_threes_grow(line, m, (n - 1) as nat);
        } else {
            lemma_threes_grow(line, (n - 1) as nat, (n - 1) as nat);
        }
        assert(potions(line[3 * (n - 1)]) is Some);
        assert(potions(line[3 * (n - 1) + 1]) is Some);
        assert(potions(line[3 * (n - 1) + 2]) is Some);
    }
}

/// The potions for the creatures of `input`, which come one by one.
pub fn part1(input: &str) -> (r: u32)
    requires
        forall|i: int| 0 <= i < input@.len() ==> lone_potions(#[trigger] input@[i]) is Some,
        alone(input@, input@.len()) <= u32::MAX,
    ensures
        r == alone(input@, input@.len()),
{
    let line = chars_of(input);
    let mut total: u32 = 0;
    let mut i: usize = 0;
    while i < line.len()
        invariant
            i <= line.len(),
            forall|i: int| 0 <= i < line@.len() ==> lone_potions(#[trigger] line@[i]) is Some,
            alone(line@, line@.len()) <= u32::MAX,
            total == alone(line@, i as nat),
        decreases line.len() - i,
    {
        proof {
            lemma_alone_grows(line@, (i + 1) as nat, line@.len());
            assert(lone_potions(line@[i as int]) is Some);
        }
        let c = line[i];
        total += if c == 'B' {
            1
        } else if c == 'C' {
            3
        } else {
            0
        };
        i += 1;
    }
    total
}

/// The potions for the creatures of `input`, which come in pairs; a place
/// left over at the end counts for nothing.
pub fn part2(input: &str) -> (r: u32)
    requires
        known(input.spec_bytes()),
        pairs(input.spec_bytes(), input.spec_bytes().len() / 2) <= u32::MAX,
    ensures
        r == pairs(input.spec_bytes(), input.spec_bytes().len() / 2),
{
    let line = input.as_bytes();
    let count = line.len() / 2;
    let mut total: u32 = 0;
    let mut k: usize = 0;
    while k < count
        invariant
            k <= count,
            count == line@.len() / 2,
            2 * count <= line.len(),
            known(line@),
            pairs(line@, count as nat) <= u32::MAX,
            total == pairs(line@, k as nat),
        decreases count - k,
    {
        proof {
            lemma_pairs_grow(line@, (k + 1) as nat, count as nat);
            lemma_pairs_grow(line@, k as nat, (k + 1) as nat);
            assert(potions(line@[2 * k]) is Some);
            assert(potions(line@[2 * k + 1]) is Some);
        }
        let first = line[2 * k];
        let second = line[2 * k + 1];
        let score: u32 = potions_for(first) + potions_for(second);
        total += if first != NOBODY && second != NOBODY {
            score + 2
        } else {
            score
        };
        k += 1;
    }
    total
}

/// The potions for the creatures of `input`, which come in threes; places
/// left over at the end count for nothing.
pub fn part3(input: &str) -> (r: u32)
    requires
        known(input.spec_bytes()),
        threes(input.spec_bytes(), input.spec_bytes().len() / 3) <= u32::MAX,
    ensures
        r == threes(input.spec_bytes(), input.spec_bytes().len() / 3),
{
    let line = input.as_bytes();
    let count = line.len() / 3;
    let mut total: u32 = 0;
    let mut k: usize = 0;
    while k < count
        invariant
            k <= count,
            count == line@.len() / 3,
            3 * count <= line.len(),
            known(line@),
            threes(line@, count as nat) <= u32::MAX,
            total == threes(line@, k as nat),
        decreases count - k,
    {
        proof {
            lemma_threes_grow(line@, (k + 1) as nat, count as nat);
            lemma_threes_grow(line@, k as nat, (k + 1) as nat);
            assert(potions(line@[3 * k]) is Some);
            assert(potions(line@[3 * k + 1]) is Some);
            assert(potions(line@[3 * k + 2]) is Some);
        }
        let a = line[3 * k];
        let b = line[3 * k + 1];
        let c = line[3 * k + 2];
        let score: u32 = potions_for(a) + potions_for(b) + potions_for(c);
        let mut missing: u32 = 0;
        if a == NOBODY {
            missing += 1;
        }
        if b == NOBODY {
            missing += 1;
        }
        if c == NOBODY {
            missing += 1;
        }
        total += if missing == 0 {
            score + 6
        } else if missing == 1 {
            score + 2
        } else {
            score
        };
        k += 1;
    }
    total
}

} // verus!
