//! Termites that turn into other termites day by day: how many there are
//! after some days.

use crate::grid::rows_view;
use crate::rules::{find_rule, lemma_turn_index, turn_index, turns_of, Rule, Turn};
use crate::text::{chars_of, copy_range, find_char, first_place, lines, split, split_at, split_lines};
use std::collections::HashMap;
use vstd::prelude::*;
use vstd::std_specs::hash::group_hash_axioms;

verus! {

broadcast use group_hash_axioms;

/// The rule that `line` writes: a kind, a colon, and the kinds it turns
/// into with commas between them.
pub open spec fn turn_of_line(line: Seq<char>) -> Option<Turn> {
    let colon = first_place(line, ':') as int;
    if colon < line.len() {
        Some((line.subrange(0, colon), split(line.subrange(colon + 1, line.len() as int), ',')))
    } else {
        None
    }
}

/// Every line of `rows` writes a rule.
pub open spec fn all_turns(rows: Seq<Seq<char>>) -> bool {
    forall|i: int| 0 <= i < rows.len() ==> turn_of_line(#[trigger] rows[i]) is Some
}

/// The rules that the lines of `rows` write.
pub open spec fn turns_of_lines(rows: Seq<Seq<char>>) -> Seq<Turn> {
    Seq::new(rows.len(), |i: int| turn_of_line(rows[i]).unwrap())
}

/// How many termites there are `days` days after one of the kind `kind`.
pub open spec fn population(turns: Seq<Turn>, kind: Seq<char>, days: nat) -> nat
    decreases days, 0nat,
{
    if days == 0 {
        1
    } else {
        match turn_index(turns, kind, turns.len()) {
            Some(i) => offspring(turns, turns[i].1, turns[i].1.len(), (days - 1) as nat),
            None => 0,
        }
    }
}

/// How many termites there are `days` days after one of each of the first
/// `n` kinds of `kids`.
pub open spec fn offspring(turns: Seq<Turn>, kids: Seq<Seq<char>>, n: nat, days: nat) -> nat
    decreases days, n + 1,
{
    if n == 0 {
        0
    } else {
        offspring(turns, kids, (n - 1) as nat, days) + population(turns, kids[n - 1], days)
    }
}

/// There is a rule for every kind that comes up within `days` days after a
/// termite of the kind `kind`.
pub open spec fn thrives(turns: Seq<Turn>, kind: Seq<char>, days: nat) -> bool
    decreases days, 0nat,
{
    days == 0 || (turn_index(turns, kind, turns.len()) matches Some(i) && all_thrive(
        turns,
        turns[i].1,
        turns[i].1.len(),
        (days - 1) as nat,
    ))
}

/// Each of the first `n` kinds of `kids` thrives for `days` days.
pub open spec fn all_thrive(turns: Seq<Turn>, kids: Seq<Seq<char>>, n: nat, days: nat) -> bool
    decreases days, n + 1,
{
    n == 0 || (all_thrive(turns, kids, (n - 1) as nat, days) && thrives(turns, kids[n - 1], days))
}

/// The offspring of more kinds is no less.
pub proof fn lemma_offspring_grows(
    turns: Seq<Turn>,
    kids: Seq<Seq<char>>,
    m: nat,
    n: nat,
    days: nat,
)
    requires
        m <= n,
    ensures
        offspring(turns, kids, m, days) <= offspring(turns, kids, n, days),
    decreases n,
{
    if m < n {
        lemma_offspring_grows(turns, kids, m, (n - 1) as nat, days);
    }
}

/// Where the first `n` kinds thrive, each of them does.
pub proof fn lemma_each_thrives(
    turns: Seq<Turn>,
    kids: Seq<Seq<char>>,
    n: nat,
    days: nat,
    j: int,
)
    requires
        all_thrive(turns, kids, n, days),
        0 <= j < n,
    ensures
        thrives(turns, kids[j], days),
    decreases n,
{
    if j < n - 1 {
        lemma_each_thrives(turns, kids, (n - 1) as nat, days, j);
    }
}

/// Parse the termite evolution rules
pub fn get_rules(input: &str) -> (rules: Vec<Rule>)
    requires
        all_turns(lines(input@)),
    ensures
        turns_of(rules@) == turns_of_lines(lines(input@)),
{
    let text = chars_of(input);
    let rows = split_lines(&text);
    let ghost listed = lines(text@);
    let mut rules: Vec<Rule> = Vec::new();
    let mut i: usize = 0;
    while i < rows.len()
        invariant
            i <= rows.len(),
            listed == rows_view(rows@),
            all_turns(listed),
            rules@.len() == i,
            forall|j: int| 0 <= j < i ==> (#[trigger] rules@[j])@ == turn_of_line(listed[j]).unwrap(),
        decreases rows.len() - i,
    {
        let line = &rows[i];
        proof {
            assert(listed[i as int] == line@);
            assert(turn_of_line(listed[i as int]) is Some);
        }
        match find_char(line.as_slice(), ':') {
            Some(colon) => {
                assert(colon < line.len());
                let head = copy_range(line.as_slice(), 0, colon);
                let tail = copy_range(line.as_slice(), colon + 1, line.len());
                let kids = split_at(tail.as_slice(), ',');
                rules.push(Rule { head, kids });
            },
            None => {},
        }
        i += 1;
    }
    proof {
        assert(turns_of(rules@) =~= turns_of_lines(listed));
    }
    rules
}

/// Every number that `cache` holds is right.
pub open spec fn remembers(cache: Map<u128, u64>, turns: Seq<Turn>) -> bool {
    forall|k: u128| #[trigger]
        cache.contains_key(k) ==> k / 0x1_0000_0000 < turns.len() && cache[k] == population(
            turns,
            turns[k as int / 0x1_0000_0000].0,
            (k % 0x1_0000_0000) as nat,
        )
}

/// Calculate how many termites we'll have from the current termite after the
/// given number of days, by following the evolution rules
pub fn calculate(
    current: &[char],
    day: u32,
    rules: &Vec<Rule>,
    cache: &mut HashMap<u128, u64>,
) -> (r: u64)
    requires
        thrives(turns_of(rules@), current@, day as nat),
        population(turns_of(rules@), current@, day as nat) <= u64::MAX,
        remembers(old(cache)@, turns_of(rules@)),
    ensures
        r == population(turns_of(rules@), current@, day as nat),
        remembers(final(cache)@, turns_of(rules@)),
    decreases day,
{
    let ghost turns = turns_of(rules@);
    if day == 0 {
        return 1;
    }
    proof {
        lemma_turn_index(turns, current@, turns.len());
    }
    let i = match find_rule(rules, current) {
        Some(i) => i,
        None => {
            return 0;
        },
    };
    let key: u128 = (i as u128) * 0x1_0000_0000 + day as u128;
    if let Some(known) = cache.get(&key) {
        return *known;
    }
    let kids = &rules[i].kids;
    let ghost names = rows_view(kids@);
    proof {
        assert(turns[i as int].1 == names);
    }
    let mut next: u64 = 0;
    let mut n: usize = 0;
    while n < kids.len()
        invariant
            n <= kids.len(),
            day > 0,
            turns == turns_of(rules@),
            names == rows_view(kids@),
            all_thrive(turns, names, names.len(), (day - 1) as nat),
            offspring(turns, names, names.len(), (day - 1) as nat) <= u64::MAX,
            remembers(cache@, turns),
            next == offspring(turns, names, n as nat, (day - 1) as nat),
        decreases kids.len() - n,
    {
        proof {
            lemma_each_thrives(turns, names, names.len(), (day - 1) as nat, n as int);
            lemma_offspring_grows(turns, names, (n + 1) as nat, names.len(), (day - 1) as nat);
            assert(names[n as int] == kids@[n as int]@);
        }
        next += calculate(kids[n].as_slice(), day - 1, rules, cache);
        n += 1;
    }
    cache.insert(key, next);
    next
}

/// How many termites there are `days` days after one of the kind that the
/// letter `kind` names.
fn after(input: &str, kind: char, days: u32) -> (r: u64)
    requires
        all_turns(lines(input@)),
        thrives(turns_of_lines(lines(input@)), seq![kind], days as nat),
        population(turns_of_lines(lines(input@)), seq![kind], days as nat) <= u64::MAX,
    ensures
        r == population(turns_of_lines(lines(input@)), seq![kind], days as nat),
{
    let rules = get_rules(input);
    let mut cache: HashMap<u128, u64> = HashMap::new();
    let mut name: Vec<char> = Vec::new();
    name.push(kind);
    assert(name@ =~= seq![kind]);
    calculate(name.as_slice(), days, &rules, &mut cache)
}

/// How many termites there are four days after one of the kind `A`.
pub fn part1(input: &str) -> (r: u64)
    requires
        all_turns(lines(input@)),
        thrives(turns_of_lines(lines(input@)), seq!['A'], 4),
        population(turns_of_lines(lines(input@)), seq!['A'], 4) <= u64::MAX,
    ensures
        r == population(turns_of_lines(lines(input@)), seq!['A'], 4),
{
    after(input, 'A', 4)
}

/// How many termites there are ten days after one of the kind `Z`.
pub fn part2(input: &str) -> (r: u64)
    requires
        all_turns(lines(input@)),
        thrives(turns_of_lines(lines(input@)), seq!['Z'], 10),
        population(turns_of_lines(lines(input@)), seq!['Z'], 10) <= u64::MAX,
    ensures
        r == population(turns_of_lines(lines(input@)), seq!['Z'], 10),
{
    after(input, 'Z', 10)
}

/// How many termites there are twenty days after one of the kind of rule `i`.
pub open spec fn after_twenty(turns: Seq<Turn>, i: int) -> nat {
    population(turns, turns[i].0, 20)
}

/// `r` is how many more termites the kind with the most has after twenty
/// days than the kind with the fewest.
pub open spec fn is_spread(turns: Seq<Turn>, r: int) -> bool {
    exists|hi: int, lo: int|
        {
            &&& 0 <= hi < turns.len()
            &&& 0 <= lo < turns.len()
            &&& forall|k: int|
                0 <= k < turns.len() ==> after_twenty(turns, lo) <= #[trigger] after_twenty(
                    turns,
                    k,
                ) <= after_twenty(turns, hi)
            &&& r == after_twenty(turns, hi) - after_twenty(turns, lo)
        }
}

/// Every kind that has a rule thrives for twenty days, to a number that a
/// `u64` holds.
pub open spec fn all_thrive_twenty(turns: Seq<Turn>) -> bool {
    forall|i: int|
        0 <= i < turns.len() ==> thrives(turns, (#[trigger] turns[i]).0, 20) && after_twenty(
            turns,
            i,
        ) <= u64::MAX
}

/// How many more termites the kind with the most has after twenty days
/// than the kind with the fewest.
pub fn part3(input: &str) -> (r: u64)
    requires
        all_turns(lines(input@)),
        lines(input@).len() > 0,
        all_thrive_twenty(turns_of_lines(lines(input@))),
    ensures
        is_spread(turns_of_lines(lines(input@)), r as int),
{
    let rules = get_rules(input);
    let ghost turns = turns_of(rules@);
    assert(turns.len() == rules@.len() && turns.len() == lines(input@).len());
    let mut cache: HashMap<u128, u64> = HashMap::new();
    let mut most: u64 = 0;
    let mut fewest: u64 = u64::MAX;
    let ghost mut hi: int = 0;
    let ghost mut lo: int = 0;
    let mut i: usize = 0;
    while i < rules.len()
        invariant
            i <= rules.len(),
            rules@.len() > 0,
            turns == turns_of(rules@),
            all_thrive_twenty(turns),
            remembers(cache@, turns),
            0 <= hi < turns.len(),
            0 <= lo < turns.len(),
            i > 0 ==> most == after_twenty(turns, hi) && fewest == after_twenty(turns, lo),
            forall|k: int|
                0 <= k < i ==> after_twenty(turns, lo) <= #[trigger] after_twenty(turns, k)
                    <= after_twenty(turns, hi),
        decreases rules.len() - i,
    {
        proof {
            assert(turns[i as int].0 == rules@[i as int].head@);
            assert(thrives(turns, turns[i as int].0, 20));
        }
        let count = calculate(rules[i].head.as_slice(), 20, &rules, &mut cache);
        if i == 0 || count > most {
            most = count;
            proof {
                hi = i as int;
            }
        }
        if i == 0 || count < fewest {
            fewest = count;
            proof {
                lo = i as int;
            }
        }
        i += 1;
    }
    most - fewest
}

} // verus!
