//! A dance of clappers in four columns: what the first of each column shout
//! together after the rounds of the dance.

use crate::grid::rows_view;
use crate::text::{
    chars_of, decimal, digits_of, lines, parse_u64, spec_parse_u64, split_lines, split_words, words,
};
use std::collections::HashMap;
use vstd::prelude::*;
use vstd::std_specs::hash::group_hash_axioms;

verus! {

broadcast use group_hash_axioms;

/// The columns of a dance, each from the front to the back.
pub type Dance = Seq<Seq<u64>>;

/// The dancers in the columns `columns`.
pub open spec fn dance_view(columns: Seq<Vec<u64>>) -> Dance {
    Seq::new(columns.len(), |i: int| columns[i]@)
}

/// Every line of `rows` holds four numbers at most, and nothing else.
pub open spec fn dance_drawn(rows: Seq<Seq<char>>) -> bool {
    forall|n: int|
        0 <= n < rows.len() ==> words(#[trigger] rows[n]).len() <= 4 && forall|i: int|
            0 <= i < words(rows[n]).len() ==> spec_parse_u64(#[trigger] words(rows[n])[i]) is Some
}

/// Column `c` of the dance drawn by the first `n` lines of `rows`: the
/// numbers at place `c` of the lines that have one.
pub open spec fn column_of(rows: Seq<Seq<char>>, c: int, n: nat) -> Seq<u64>
    decreases n,
{
    if n == 0 {
        Seq::empty()
    } else {
        let above = column_of(rows, c, (n - 1) as nat);
        if 0 <= c < words(rows[n - 1]).len() {
            above.push(spec_parse_u64(words(rows[n - 1])[c]).unwrap())
        } else {
            above
        }
    }
}

/// The dance drawn by `rows`.
pub open spec fn dance_of(rows: Seq<Seq<char>>) -> Dance {
    Seq::new(4, |c: int| column_of(rows, c, rows.len()))
}

/// Parse the input into columns of clappers
pub fn parse_input(input: &str) -> (columns: Vec<Vec<u64>>)
    requires
        dance_drawn(lines(input@)),
    ensures
        dance_view(columns@) == dance_of(lines(input@)),
{
    let text = chars_of(input);
    let rows = split_lines(&text);
    let ghost drawn = lines(text@);
    let mut columns: Vec<Vec<u64>> = Vec::new();
    let mut c: usize = 0;
    while c < 4
        invariant
            c <= 4,
            columns@.len() == c,
            forall|k: int| 0 <= k < c ==> (#[trigger] columns@[k])@ == column_of(drawn, k, 0),
        decreases 4 - c,
    {
        let column: Vec<u64> = Vec::new();
        proof {
            assert(column@ =~= column_of(drawn, c as int, 0));
        }
        columns.push(column);
        c += 1;
    }
    let mut n: usize = 0;
    while n < rows.len()
        invariant
            n <= rows.len(),
            drawn == rows_view(rows@),
            dance_drawn(drawn),
            columns@.len() == 4,
            forall|k: int| 0 <= k < 4 ==> (#[trigger] columns@[k])@ == column_of(drawn, k, n as nat),
        decreases rows.len() - n,
    {
        let parts = split_words(rows[n].as_slice());
        let ghost written = words(drawn[n as int]);
        proof {
            assert(drawn[n as int] == rows@[n as int]@);
            assert(written.len() <= 4);
        }
        let mut i: usize = 0;
        while i < parts.len()
            invariant
                i <= parts.len(),
                n < rows.len(),
                drawn == rows_view(rows@),
                dance_drawn(drawn),
                written == words(drawn[n as int]),
                written == rows_view(parts@),
                written.len() <= 4,
                columns@.len() == 4,
                forall|k: int|
                    0 <= k < 4 ==> (#[trigger] columns@[k])@ == (if k < i {
                        column_of(drawn, k, (n + 1) as nat)
                    } else {
                        column_of(drawn, k, n as nat)
                    }),
            decreases parts.len() - i,
        {
            proof {
                assert(written[i as int] == parts@[i as int]@);
                assert(spec_parse_u64(words(drawn[n as int])[i as int]) is Some);
            }
            let ghost before = columns@;
            match parse_u64(parts[i].as_slice()) {
                Some(v) => {
                    columns[i].push(v);
                    proof {
                        assert forall|k: int| 0 <= k < 4 && k != i implies columns@[k]
                            == before[k] by {}
                    }
                },
                None => {},
            }
            i += 1;
        }
        n += 1;
    }
    proof {
        assert(dance_view(columns@) =~= dance_of(drawn));
    }
    columns
}

/// Where a clapper with the number `clapper` joins a column of `len`
/// dancers: it walks down the one side of the column and up the other, a
/// step for each count of its number, and steps in before the dancer it
/// ends at, or behind that dancer on the way up.
pub open spec fn place(len: int, clapper: int) -> int {
    let cycle = len * 2;
    let moves = clapper % cycle;
    let index = if moves == 0 {
        1
    } else {
        moves - 1
    };
    if index > len {
        cycle - index
    } else {
        index
    }
}

/// Round `round` can be danced: there are four columns, one to take the
/// clapper from and one for it to join, and the numbers can be counted.
pub open spec fn can_clap(dance: Dance, round: nat) -> bool {
    &&& dance.len() == 4
    &&& round < usize::MAX
    &&& dance[(round % 4) as int].len() > 0
    &&& dance[((round + 1) % 4) as int].len() > 0
    &&& dance[(round % 4) as int][0] <= usize::MAX
    &&& 2 * dance[((round + 1) % 4) as int].len() <= usize::MAX
}

/// The dance after round `round`: the first of column `round % 4` leaves
/// it and joins the next column, the first after the last.
pub open spec fn clap(dance: Dance, round: nat) -> Dance {
    let from = (round % 4) as int;
    let to = ((round + 1) % 4) as int;
    let clapper = dance[from][0];
    dance.update(from, dance[from].drop_first()).update(
        to,
        dance[to].insert(place(dance[to].len() as int, clapper as int), clapper),
    )
}

/// Simulate a single round of clapping
pub fn simulate_round(columns: &mut Vec<Vec<u64>>, round: usize)
    requires
        can_clap(dance_view(old(columns)@), round as nat),
    ensures
        dance_view(final(columns)@) == clap(dance_view(old(columns)@), round as nat),
{
    let ghost before = dance_view(columns@);
    let from = round % 4;
    let to = (round + 1) % 4;
    proof {
        assert(before[from as int] == columns@[from as int]@);
        assert(before[to as int] == columns@[to as int]@);
    }
    let clapper = columns[from].remove(0);
    let ghost between = columns@;
    let len = columns[to].len();

    // Work out how we walk around the line to decide where to join the line.
    // The clapper walks around the back of the line and comes back.
    let cycle = len * 2;
    let moves = clapper as usize % cycle;

    let mut index = if moves == 0 {
        // exactly walked there and back
        1
    } else {
        moves - 1
    };

    if index > len {
        // walking backwards
        index = cycle - index;
    }

    proof {
        assert(between[from as int]@ =~= before[from as int].drop_first());
        assert(between[to as int]@ == before[to as int]);
        assert(index == place(len as int, clapper as int));
    }
    columns[to].insert(index, clapper);
    proof {
        let after = clap(before, round as nat);
        assert(dance_view(columns@).len() == after.len());
        assert forall|c: int| 0 <= c < 4 implies dance_view(columns@)[c] == after[c] by {
            if c == to {
            } else if c == from {
            } else {
                assert(columns@[c] == between[c]);
                assert(before[c] == between[c]@);
            }
        }
        assert(dance_view(columns@) =~= after);
    }
}

/// The numbers of the first dancers of the first `n` columns, written one
/// after the other.
pub open spec fn shout_text(dance: Dance, n: nat) -> Seq<char>
    decreases n,
{
    if n == 0 {
        Seq::empty()
    } else {
        shout_text(dance, (n - 1) as nat) + digits_of(dance[n - 1][0] as nat)
    }
}

/// The number that the first dancers of the columns shout together, if it
/// is one that a `u64` holds.
pub open spec fn spec_shout(dance: Dance) -> Option<u64> {
    spec_parse_u64(shout_text(dance, dance.len()))
}

/// Every column has a dancer.
pub open spec fn all_lined_up(dance: Dance) -> bool {
    forall|c: int| 0 <= c < dance.len() ==> (#[trigger] dance[c]).len() > 0
}

/// Shout out the numbers at the front of each column
pub fn shout(columns: &Vec<Vec<u64>>) -> (r: u64)
    requires
        all_lined_up(dance_view(columns@)),
        spec_shout(dance_view(columns@)) is Some,
    ensures
        Some(r) == spec_shout(dance_view(columns@)),
{
    let ghost dance = dance_view(columns@);
    let mut text: Vec<char> = Vec::new();
    let mut c: usize = 0;
    while c < columns.len()
        invariant
            c <= columns.len(),
            dance == dance_view(columns@),
            all_lined_up(dance),
            text@ == shout_text(dance, c as nat),
        decreases columns.len() - c,
    {
        proof {
            assert(dance[c as int] == columns@[c as int]@);
            assert(dance[c as int].len() > 0);
        }
        let number = decimal(columns[c][0]);
        let ghost before = text@;
        let mut i: usize = 0;
        while i < number.len()
            invariant
                i <= number.len(),
                text@ == before + number@.take(i as int),
            decreases number.len() - i,
        {
            text.push(number[i]);
            proof {
                assert(before + number@.take(i + 1) =~= (before + number@.take(i as int)).push(
                    number@[i as int],
                ));
            }
            i += 1;
        }
        proof {
            assert(number@.take(i as int) =~= number@);
        }
        c += 1;
    }
    match parse_u64(text.as_slice()) {
        Some(v) => v,
        None => 0,
    }
}

/// The dance after its first `n` rounds.
pub open spec fn after_rounds(dance: Dance, n: nat) -> Dance
    decreases n,
{
    if n == 0 {
        dance
    } else {
        clap(after_rounds(dance, (n - 1) as nat), (n - 1) as nat)
    }
}

/// Round `r` can be danced, and after it the first dancers shout a number
/// that a `u64` holds.
pub open spec fn round_danced(dance: Dance, r: nat) -> bool {
    &&& can_clap(after_rounds(dance, r), r)
    &&& all_lined_up(after_rounds(dance, r + 1))
    &&& spec_shout(after_rounds(dance, r + 1)) is Some
}

/// The first `n` rounds can be danced, and after each of them the first
/// dancers shout a number that a `u64` holds.
pub open spec fn can_dance(dance: Dance, n: nat) -> bool {
    forall|r: nat| r < n ==> #[trigger] round_danced(dance, r)
}

/// What is shouted after round `n`, counted from one.
pub open spec fn shout_after(dance: Dance, n: nat) -> u64 {
    spec_shout(after_rounds(dance, n)).unwrap()
}

/// What the first dancers shout after ten rounds of the dance drawn in
/// `input`.
pub fn part1(input: &str) -> (r: u64)
    requires
        dance_drawn(lines(input@)),
        can_dance(dance_of(lines(input@)), 10),
    ensures
        r == shout_after(dance_of(lines(input@)), 10),
{
    let mut columns = parse_input(input);
    let ghost dance = dance_of(lines(input@));
    let mut round: usize = 0;
    while round < 10
        invariant
            round <= 10,
            can_dance(dance, 10),
            dance_view(columns@) == after_rounds(dance, round as nat),
        decreases 10 - round,
    {
        proof {
            assert(round_danced(dance, round as nat));
        }
        simulate_round(&mut columns, round);
        round += 1;
    }
    proof {
        assert(round_danced(dance, 9));
    }
    shout(&columns)
}

/// How often `number` is shouted in the first `n` rounds.
pub open spec fn times_shouted(dance: Dance, number: u64, n: nat) -> nat
    decreases n,
{
    if n == 0 {
        0
    } else {
        times_shouted(dance, number, (n - 1) as nat) + if shout_after(dance, n) == number {
            1nat
        } else {
            0nat
        }
    }
}

/// After round `n` a number has been shouted 2024 times, and after no
/// round before.
pub open spec fn ends_after(dance: Dance, n: nat) -> bool {
    &&& n >= 1
    &&& times_shouted(dance, shout_after(dance, n), n) == 2024
    &&& forall|m: nat|
        1 <= m < n ==> times_shouted(dance, #[trigger] shout_after(dance, m), m) != 2024
}

/// The round after which the dance ends.
pub open spec fn last_round(dance: Dance) -> nat {
    choose|n: nat| ends_after(dance, n)
}

/// The dance ends after round `n`, and can be danced and counted so far.
pub open spec fn dance_ends(dance: Dance, n: nat) -> bool {
    &&& ends_after(dance, n)
    &&& can_dance(dance, n)
    &&& n * shout_after(dance, n) <= u64::MAX
}

/// The number of the round after which a number has been shouted 2024 times
/// for the first time, times that number.
pub fn part2(input: &str) -> (r: u64)
    requires
        dance_drawn(lines(input@)),
        exists|n: nat| dance_ends(dance_of(lines(input@)), n),
    ensures
        r == last_round(dance_of(lines(input@))) * shout_after(
            dance_of(lines(input@)),
            last_round(dance_of(lines(input@))),
        ),
{
    let mut columns = parse_input(input);
    let ghost dance = dance_of(lines(input@));
    let ghost last = choose|n: nat| dance_ends(dance, n);
    let mut seen: HashMap<u64, u32> = HashMap::new();
    let mut round: usize = 0;
    proof {
        assert forall|number: u64| !seen@.contains_key(number) by {}
    }
    loop
        invariant
            dance == dance_of(lines(input@)),
            dance_ends(dance, last),
            round < last,
            dance_view(columns@) == after_rounds(dance, round as nat),
            forall|number: u64| #[trigger]
                seen@.contains_key(number) <==> times_shouted(dance, number, round as nat) > 0,
            forall|number: u64| #[trigger]
                seen@.contains_key(number) ==> seen@[number] == times_shouted(
                    dance,
                    number,
                    round as nat,
                ),
            forall|number: u64| #[trigger] times_shouted(dance, number, round as nat) < 2024,
        decreases last - round,
    {
        proof {
            assert(round_danced(dance, round as nat));
        }
        simulate_round(&mut columns, round);

        let shout = shout(&columns);
        let ghost done = (round + 1) as nat;
        proof {
            assert(shout == shout_after(dance, done));
        }
        let count: u32 = match seen.get(&shout) {
            Some(c) => *c + 1,
            None => 1,
        };
        seen.insert(shout, count);

        if count == 2024 {
            proof {
                assert(times_shouted(dance, shout, done) == 2024);
                if done < last {
                    assert(times_shouted(dance, shout_after(dance, done), done) != 2024);
                }
                assert forall|m: nat| 1 <= m < done implies times_shouted(
                    dance,
                    #[trigger] shout_after(dance, m),
                    m,
                ) != 2024 by {
                    assert(times_shouted(dance, shout_after(dance, m), m) != 2024);
                }
                assert(ends_after(dance, done));
                let n = last_round(dance);
                assert(ends_after(dance, n));
                if n < done {
                    assert(times_shouted(dance, shout_after(dance, n), n) != 2024);
                }
                if done < n {
                    assert(times_shouted(dance, shout_after(dance, done), done) != 2024);
                }
                assert((round + 1) * shout >= 0) by (nonlinear_arith)
                    requires
                        round >= 0,
                        shout >= 0,
                ;
            }
            return (round as u64 + 1) * shout;
        }
        proof {
            if done == last {
                assert(times_shouted(dance, shout_after(dance, last), last) == 2024);
            }
            assert forall|number: u64| #[trigger] times_shouted(dance, number, done) < 2024 by {
                assert(times_shouted(dance, number, round as nat) < 2024);
            }
        }
        round += 1;
    }
}

/// After round `n` the dancers stand as they stood after a round before.
pub open spec fn stands_again(dance: Dance, n: nat) -> bool {
    exists|before: nat| 1 <= before < n && #[trigger] after_rounds(dance, before) == after_rounds(
        dance,
        n,
    )
}

/// Round `n` is the first after which the dancers stand as they stood
/// before.
pub open spec fn first_again(dance: Dance, n: nat) -> bool {
    &&& stands_again(dance, n)
    &&& forall|m: nat| m < n ==> !#[trigger] stands_again(dance, m)
}

/// The first round after which the dancers stand as they stood before.
pub open spec fn round_again(dance: Dance) -> nat {
    choose|n: nat| first_again(dance, n)
}

/// The greatest number shouted in the first `n` rounds.
pub open spec fn loudest(dance: Dance, n: nat) -> u64
    decreases n,
{
    if n == 0 {
        0
    } else if shout_after(dance, n) > loudest(dance, (n - 1) as nat) {
        shout_after(dance, n)
    } else {
        loudest(dance, (n - 1) as nat)
    }
}

/// Whether two dances are the same.
fn same_dance(a: &Vec<Vec<u64>>, b: &Vec<Vec<u64>>) -> (same: bool)
    ensures
        same == (dance_view(a@) == dance_view(b@)),
{
    if a.len() != b.len() {
        assert(dance_view(a@).len() != dance_view(b@).len());
        return false;
    }
    let mut c: usize = 0;
    while c < a.len()
        invariant
            c <= a.len(),
            a.len() == b.len(),
            forall|k: int| 0 <= k < c ==> a@[k]@ == b@[k]@,
        decreases a.len() - c,
    {
        if a[c].len() != b[c].len() {
            assert(dance_view(a@)[c as int].len() != dance_view(b@)[c as int].len());
            return false;
        }
        let mut i: usize = 0;
        while i < a[c].len()
            invariant
                i <= a[c as int].len(),
                c < a.len(),
                a.len() == b.len(),
                a[c as int].len() == b[c as int].len(),
                forall|k: int| 0 <= k < i ==> a@[c as int]@[k] == b@[c as int]@[k],
            decreases a[c as int].len() - i,
        {
            if a[c][i] != b[c][i] {
                assert(dance_view(a@)[c as int][i as int] != dance_view(b@)[c as int][i as int]);
                return false;
            }
            i += 1;
        }
        assert(a@[c as int]@ =~= b@[c as int]@);
        c += 1;
    }
    assert(dance_view(a@) =~= dance_view(b@));
    true
}

/// A copy of a dance.
fn copy_dance(columns: &Vec<Vec<u64>>) -> (copy: Vec<Vec<u64>>)
    ensures
        dance_view(copy@) == dance_view(columns@),
{
    let mut copy: Vec<Vec<u64>> = Vec::new();
    let mut c: usize = 0;
    while c < columns.len()
        invariant
            c <= columns.len(),
            copy@.len() == c,
            forall|k: int| 0 <= k < c ==> (#[trigger] copy@[k])@ == columns@[k]@,
        decreases columns.len() - c,
    {
        let mut column: Vec<u64> = Vec::new();
        let mut i: usize = 0;
        while i < columns[c].len()
            invariant
                i <= columns[c as int].len(),
                c < columns.len(),
                column@ == columns@[c as int]@.take(i as int),
            decreases columns[c as int].len() - i,
        {
            column.push(columns[c][i]);
            proof {
                assert(column@ =~= columns@[c as int]@.take(i + 1));
            }
            i += 1;
        }
        proof {
            assert(columns@[c as int]@.take(i as int) =~= columns@[c as int]@);
        }
        copy.push(column);
        c += 1;
    }
    proof {
        assert(dance_view(copy@) =~= dance_view(columns@));
    }
    copy
}

/// The greatest number shouted before the dancers stand as they stood
/// after a round before.
pub fn part3(input: &str) -> (r: u64)
    requires
        dance_drawn(lines(input@)),
        exists|n: nat| first_again(dance_of(lines(input@)), n) && can_dance(
            dance_of(lines(input@)),
            n,
        ),
    ensures
        r == loudest(
            dance_of(lines(input@)),
            (round_again(dance_of(lines(input@))) - 1) as nat,
        ),
{
    let mut columns = parse_input(input);
    let ghost dance = dance_of(lines(input@));
    let ghost last = choose|n: nat| first_again(dance, n) && can_dance(dance, n);
    let mut seen: Vec<Vec<Vec<u64>>> = Vec::new();
    let mut most: u64 = 0;
    let mut round: usize = 0;
    proof {
        let before = choose|before: nat| 1 <= before < last && #[trigger] after_rounds(
            dance,
            before,
        ) == after_rounds(dance, last);
    }
    loop
        invariant
            dance == dance_of(lines(input@)),
            first_again(dance, last),
            can_dance(dance, last),
            round < last,
            dance_view(columns@) == after_rounds(dance, round as nat),
            seen@.len() == round,
            forall|j: int|
                0 <= j < round ==> dance_view((#[trigger] seen@[j])@) == after_rounds(
                    dance,
                    (j + 1) as nat,
                ),
            most == loudest(dance, round as nat),
        decreases last - round,
    {
        proof {
            assert(round_danced(dance, round as nat));
        }
        simulate_round(&mut columns, round);

        let shout = shout(&columns);
        let ghost done = (round + 1) as nat;

        let mut known = false;
        let mut j: usize = 0;
        while j < seen.len()
            invariant
                j <= seen.len(),
                seen@.len() == round,
                done == round + 1,
                dance_view(columns@) == after_rounds(dance, done),
                forall|k: int|
                    0 <= k < round ==> dance_view((#[trigger] seen@[k])@) == after_rounds(
                        dance,
                        (k + 1) as nat,
                    ),
                known <==> exists|k: nat|
                    1 <= k < j + 1 && #[trigger] after_rounds(dance, k) == after_rounds(
                        dance,
                        done,
                    ),
            decreases seen.len() - j,
        {
            if same_dance(&seen[j], &columns) {
                known = true;
                proof {
                    assert(after_rounds(dance, (j + 1) as nat) == after_rounds(dance, done));
                }
            } else {
                proof {
                    assert(after_rounds(dance, (j + 1) as nat) != after_rounds(dance, done));
                }
            }
            j += 1;
        }
        if known {
            // entered a cycle
            proof {
                assert(stands_again(dance, done));
                if done < last {
                    assert(!stands_again(dance, done));
                }
                let n = round_again(dance);
                assert(first_again(dance, n));
                if n < last {
                    assert(!stands_again(dance, n));
                }
                if last < n {
                    assert(!stands_again(dance, last));
                }
            }
            return most;
        }
        proof {
            assert(!stands_again(dance, done));
            if done == last {
                assert(stands_again(dance, last));
            }
        }
        seen.push(copy_dance(&columns));
        if shout > most {
            most = shout;
        }
        round += 1;
    }
}

} // verus!
