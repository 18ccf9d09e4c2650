//! Chariot races: plans of actions that raise and lower the power of a
//! chariot, the essence that a plan gathers on a track, and the ranking of
//! the plans by it.

use crate::grid::rows_view;
use crate::text::{
    chars_of, copy_range, find_char, first_place, lines, split, split_at, split_lines, text_of,
};
use vstd::prelude::*;

verus! {

/// A plan for a race: who rides it, and the actions taken in turn, over
/// and over.
pub struct Plan {
    /// The name of the rider.
    pub name: Vec<char>,
    /// The actions: `+` to speed up, `-` to slow down, `=` to keep going.
    pub actions: Vec<char>,
}

/// A plan as plain values: the name and the actions.
pub type Scheme = (Seq<char>, Seq<char>);

impl View for Plan {
    type V = Scheme;

    /// The name and the actions.
    open spec fn view(&self) -> Scheme {
        (self.name@, self.actions@)
    }
}

/// The plans `plans` as plain values.
pub open spec fn schemes(plans: Seq<Plan>) -> Seq<Scheme> {
    Seq::new(plans.len(), |i: int| plans[i]@)
}

/// `c` is an action.
pub open spec fn is_action(c: char) -> bool {
    c == '+' || c == '-' || c == '='
}

/// `words` are one action each.
pub open spec fn are_actions(words: Seq<Seq<char>>) -> bool {
    forall|i: int| 0 <= i < words.len() ==> (#[trigger] words[i]).len() == 1 && is_action(words[i][0])
}

/// The actions that the words `words` write.
pub open spec fn actions_of(words: Seq<Seq<char>>) -> Seq<char> {
    Seq::new(words.len(), |i: int| words[i][0])
}

/// `line` writes a plan: a name, a colon, and actions with commas between
/// them.
pub open spec fn writes_plan(line: Seq<char>) -> bool {
    let colon = first_place(line, ':') as int;
    colon < line.len() && are_actions(split(line.subrange(colon + 1, line.len() as int), ','))
}

/// The plan that `line` writes.
pub open spec fn scheme_of(line: Seq<char>) -> Scheme {
    let colon = first_place(line, ':') as int;
    (line.subrange(0, colon), actions_of(split(line.subrange(colon + 1, line.len() as int), ',')))
}

/// Every line of `rows` writes a plan.
pub open spec fn write_plans(rows: Seq<Seq<char>>) -> bool {
    forall|i: int| 0 <= i < rows.len() ==> writes_plan(#[trigger] rows[i])
}

/// The plans that the lines of `rows` write.
pub open spec fn schemes_of(rows: Seq<Seq<char>>) -> Seq<Scheme> {
    Seq::new(rows.len(), |i: int| scheme_of(rows[i]))
}

/// Reads the plans that `input` lists, one to a line.
pub fn parse_plans(input: &str) -> (plans: Vec<Plan>)
    requires
        write_plans(lines(input@)),
    ensures
        schemes(plans@) == schemes_of(lines(input@)),
{
    let text = chars_of(input);
    let rows = split_lines(&text);
    let ghost listed = lines(text@);
    let mut plans: Vec<Plan> = Vec::new();
    let mut i: usize = 0;
    while i < rows.len()
        invariant
            i <= rows.len(),
            listed == rows_view(rows@),
            write_plans(listed),
            plans@.len() == i,
            forall|j: int| 0 <= j < i ==> (#[trigger] plans@[j])@ == scheme_of(listed[j]),
        decreases rows.len() - i,
    {
        let line = &rows[i];
        proof {
            assert(listed[i as int] == line@);
            assert(writes_plan(listed[i as int]));
        }
        match find_char(line.as_slice(), ':') {
            Some(colon) => {
                assert(colon < line.len());
                let name = copy_range(line.as_slice(), 0, colon);
                let tail = copy_range(line.as_slice(), colon + 1, line.len());
                let words = split_at(tail.as_slice(), ',');
                let ghost written = rows_view(words@);
                let mut actions: Vec<char> = Vec::new();
                let mut k: usize = 0;
                while k < words.len()
                    invariant
                        k <= words.len(),
                        written == rows_view(words@),
                        are_actions(written),
                        actions@ == actions_of(written).take(k as int),
                    decreases words.len() - k,
                {
                    proof {
                        assert(written[k as int] == words@[k as int]@);
                        assert(written[k as int].len() == 1);
                    }
                    actions.push(words[k][0]);
                    proof {
                        assert(actions@ =~= actions_of(written).take(k + 1));
                    }
                    k += 1;
                }
                proof {
                    assert(actions_of(written).take(k as int) =~= actions_of(written));
                }
                plans.push(Plan { name, actions });
            },
            None => {},
        }
        i += 1;
    }
    proof {
        assert(schemes(plans@) =~= schemes_of(listed));
    }
    plans
}

/// The power after the action `action` at the power `power`: one more for
/// `+`, one less for `-` but not below zero, the same otherwise.
pub open spec fn act(power: nat, action: char) -> nat {
    if action == '+' {
        power + 1
    } else if action == '-' {
        if power > 0 {
            (power - 1) as nat
        } else {
            0
        }
    } else {
        power
    }
}

/// The power of a chariot after `n` actions of `actions`, taken in turn
/// over and over, from the power ten.
pub open spec fn power_after(actions: Seq<char>, n: nat) -> nat
    decreases n,
{
    if n == 0 || actions.len() == 0 {
        10
    } else {
        act(power_after(actions, (n - 1) as nat), actions[(n - 1) % (actions.len() as int)])
    }
}

/// The essence gathered over `n` actions: the power after each of them,
/// summed up. A plan without actions gathers nothing.
pub open spec fn essence(actions: Seq<char>, n: nat) -> nat
    decreases n,
{
    if n == 0 || actions.len() == 0 {
        0
    } else {
        essence(actions, (n - 1) as nat) + power_after(actions, n)
    }
}

/// The power moves by one at most with each action.
pub proof fn lemma_power_bounded(actions: Seq<char>, n: nat)
    ensures
        power_after(actions, n) <= 10 + n,
    decreases n,
{
    if n > 0 && actions.len() > 0 {
        lemma_power_bounded(actions, (n - 1) as nat);
    }
}

/// The essence over `n` actions is no more than `n` times the greatest
/// power.
pub proof fn lemma_essence_bounded(actions: Seq<char>, n: nat)
    ensures
        essence(actions, n) <= n * (10 + n),
    decreases n,
{
    if n > 0 && actions.len() > 0 {
        lemma_essence_bounded(actions, (n - 1) as nat);
        lemma_power_bounded(actions, n);
        assert((n - 1) * (10 + (n - 1)) + 10 + n <= n * (10 + n)) by (nonlinear_arith)
            requires
                n >= 1,
        ;
    } else {
        assert(0 <= n * (10 + n)) by (nonlinear_arith);
    }
}

/// The power after one action.
fn apply(power: u64, action: char) -> (r: u64)
    requires
        power < u64::MAX,
    ensures
        r == act(power as nat, action),
{
    if action == '+' {
        power + 1
    } else if action == '-' {
        if power > 0 {
            power - 1
        } else {
            0
        }
    } else {
        power
    }
}

/// The essence that the plan `actions` gathers over ten actions.
pub fn gather(actions: &[char]) -> (r: u32)
    ensures
        r == essence(actions@, 10),
{
    if actions.len() == 0 {
        return 0;
    }
    let mut power: u64 = 10;
    let mut acc: u64 = 0;
    let mut n: usize = 0;
    while n < 10
        invariant
            n <= 10,
            actions@.len() > 0,
            power == power_after(actions@, n as nat),
            acc == essence(actions@, n as nat),
        decreases 10 - n,
    {
        proof {
            lemma_power_bounded(actions@, n as nat);
            lemma_power_bounded(actions@, (n + 1) as nat);
            lemma_essence_bounded(actions@, n as nat);
            assert(n * (10 + n) <= 200) by (nonlinear_arith)
                requires
                    0 <= n <= 10,
            ;
        }
        power = apply(power, actions[n % actions.len()]);
        acc += power;
        n += 1;
    }
    proof {
        lemma_essence_bounded(actions@, 10);
    }
    acc as u32
}

/// One line of a board: an essence and the name of who gathered it.
pub type Entry = (nat, Seq<char>);

/// The place among the first `n` entries of the one with the greatest
/// essence below `bound`; of several with that essence, the last.
pub open spec fn top_below(entries: Seq<Entry>, bound: int, n: nat) -> Option<int>
    decreases n,
{
    if n == 0 {
        None
    } else {
        let rest = top_below(entries, bound, (n - 1) as nat);
        let here = entries[n - 1].0;
        if here < bound && (rest is None || entries[rest.unwrap()].0 <= here) {
            Some(n - 1)
        } else {
            rest
        }
    }
}

/// The names of the board below `bound`, from the greatest essence down;
/// of several entries with one essence only the last is on the board.
pub open spec fn ranked(entries: Seq<Entry>, bound: int) -> Seq<char>
    decreases bound,
{
    match top_below(entries, bound, entries.len()) {
        Some(i) => if 0 <= entries[i].0 < bound {
            entries[i].1 + ranked(entries, entries[i].0 as int)
        } else {
            Seq::empty()
        },
        None => Seq::empty(),
    }
}

/// The names of the whole board, from the greatest essence down.
pub open spec fn ranking(entries: Seq<Entry>) -> Seq<char> {
    ranked(entries, 0x1_0000_0000_0000_0000)
}

/// What the place found for the top is like.
pub proof fn lemma_top_below(entries: Seq<Entry>, bound: int, n: nat)
    requires
        n <= entries.len(),
    ensures
        top_below(entries, bound, n) matches Some(i) ==> 0 <= i < n && entries[i].0 < bound,
    decreases n,
{
    if n > 0 {
        lemma_top_below(entries, bound, (n - 1) as nat);
    }
}

/// A board as it is kept: essences and names.
pub open spec fn board(scores: Seq<u64>, names: Seq<Vec<char>>) -> Seq<Entry> {
    Seq::new(scores.len(), |i: int| (scores[i] as nat, names[i]@))
}

/// The names of the board with the essences `scores`, from the greatest
/// essence down; of several entries with one essence only the last counts.
pub fn rank(scores: &Vec<u64>, names: &Vec<Vec<char>>) -> (r: Vec<char>)
    requires
        scores@.len() == names@.len(),
    ensures
        r@ == ranking(board(scores@, names@)),
{
    let ghost entries = board(scores@, names@);
    let mut out: Vec<char> = Vec::new();
    let mut limited = false;
    let mut limit: u64 = 0;
    loop
        invariant
            scores@.len() == names@.len(),
            entries == board(scores@, names@),
            ranking(entries) == out@ + ranked(
                entries,
                if limited {
                    limit as int
                } else {
                    0x1_0000_0000_0000_0000
                },
            ),
        decreases
                (if limited {
                    limit as int
                } else {
                    0x1_0000_0000_0000_0000
                }),
    {
        let ghost bound: int = if limited {
            limit as int
        } else {
            0x1_0000_0000_0000_0000
        };
        let mut found = false;
        let mut top: usize = 0;
        let mut n: usize = 0;
        while n < scores.len()
            invariant
                n <= scores.len(),
                scores@.len() == names@.len(),
                entries == board(scores@, names@),
                bound == (if limited {
                    limit as int
                } else {
                    0x1_0000_0000_0000_0000
                }),
                match top_below(entries, bound, n as nat) {
                    Some(i) => found && top == i,
                    None => !found,
                },
                found ==> top < n,
            decreases scores.len() - n,
        {
            let here = scores[n];
            if (!limited || here < limit) && (!found || scores[top] <= here) {
                found = true;
                top = n;
            }
            n += 1;
        }
        if !found {
            proof {
                assert(out@ + Seq::<char>::empty() =~= out@);
            }
            return out;
        }
        proof {
            lemma_top_below(entries, bound, entries.len());
        }
        let ghost before = out@;
        let name = &names[top];
        let mut k: usize = 0;
        while k < name.len()
            invariant
                k <= name.len(),
                out@ == before + name@.take(k as int),
            decreases name.len() - k,
        {
            out.push(name[k]);
            proof {
                assert(before + name@.take(k + 1) =~= (before + name@.take(k as int)).push(
                    name@[k as int],
                ));
            }
            k += 1;
        }
        proof {
            assert(name@.take(k as int) =~= name@);
            assert(entries[top as int].1 == name@);
            assert(before + (name@ + ranked(entries, scores@[top as int] as int)) =~= (before
                + name@) + ranked(entries, scores@[top as int] as int));
        }
        limited = true;
        limit = scores[top];
    }
}

/// The essences that the plans `plans` gather over ten actions, with who
/// gathered each.
pub open spec fn first_board(plans: Seq<Scheme>) -> Seq<Entry> {
    Seq::new(plans.len(), |i: int| (essence(plans[i].1, 10), plans[i].0))
}

/// The names of the riders whose plans `input` lists, from the one who
/// gathers the most essence over ten actions down.
pub fn part1(input: &str) -> (r: String)
    requires
        write_plans(lines(input@)),
    ensures
        r@ == ranking(first_board(schemes_of(lines(input@)))),
{
    let plans = parse_plans(input);
    let mut scores: Vec<u64> = Vec::new();
    let mut names: Vec<Vec<char>> = Vec::new();
    let mut i: usize = 0;
    while i < plans.len()
        invariant
            i <= plans.len(),
            scores@.len() == i,
            names@.len() == i,
            forall|j: int|
                0 <= j < i ==> #[trigger] scores@[j] == essence(plans@[j].actions@, 10)
                    && names@[j]@ == plans@[j].name@,
        decreases plans.len() - i,
    {
        scores.push(gather(plans[i].actions.as_slice()) as u64);
        names.push(copy_range(plans[i].name.as_slice(), 0, plans[i].name.len()));
        proof {
            assert(plans@[i as int].name@.subrange(0, plans@[i as int].name@.len() as int)
                =~= plans@[i as int].name@);
        }
        i += 1;
    }
    proof {
        assert(board(scores@, names@) =~= first_board(schemes(plans@)));
    }
    let ranked = rank(&scores, &names);
    text_of(ranked.as_slice())
}

/// Which cells of a track have been passed, row by row.
pub type Passed = Seq<Seq<bool>>;

/// The track drawn by `rows` is as wide as its first row, which has two
/// cells or more, and no row is shorter.
pub open spec fn track_drawn(rows: Seq<Seq<char>>) -> bool {
    &&& rows.len() >= 1
    &&& rows[0].len() >= 2
    &&& forall|y: int| 0 <= y < rows.len() ==> (#[trigger] rows[y]).len() >= rows[0].len()
}

/// `passed` covers the track drawn by `rows`.
pub open spec fn covers(rows: Seq<Seq<char>>, passed: Passed) -> bool {
    &&& passed.len() == rows.len()
    &&& forall|y: int| 0 <= y < rows.len() ==> (#[trigger] passed[y]).len() == rows[0].len()
}

/// The cell at `(x, y)` is one to go to: within the track, no blank, and
/// not passed yet.
pub open spec fn free(rows: Seq<Seq<char>>, passed: Passed, x: int, y: int) -> bool {
    &&& 0 <= y < rows.len()
    &&& 0 <= x < rows[0].len()
    &&& rows[y][x] != ' '
    &&& !passed[y][x]
}

/// Where the track goes on from `(x, y)`: to the first free cell to the
/// right, below, above or to the left.
pub open spec fn next_cell(rows: Seq<Seq<char>>, passed: Passed, x: int, y: int) -> Option<
    (int, int),
> {
    if free(rows, passed, x + 1, y) {
        Some((x + 1, y))
    } else if free(rows, passed, x, y + 1) {
        Some((x, y + 1))
    } else if free(rows, passed, x, y - 1) {
        Some((x, y - 1))
    } else if free(rows, passed, x - 1, y) {
        Some((x - 1, y))
    } else {
        None
    }
}

/// `passed` with the cell at `(x, y)` passed too.
pub open spec fn pass(passed: Passed, x: int, y: int) -> Passed {
    passed.update(y, passed[y].update(x, true))
}

/// The track from `(x, y)` on to the start `S`, which is its end, in at
/// most `fuel` steps; `None` where it does not get there.
pub open spec fn track_from(
    rows: Seq<Seq<char>>,
    passed: Passed,
    x: int,
    y: int,
    fuel: nat,
) -> Option<Seq<char>>
    decreases fuel,
{
    if rows[y][x] == 'S' {
        Some(seq!['S'])
    } else if fuel == 0 {
        None
    } else {
        match next_cell(rows, pass(passed, x, y), x, y) {
            Some((nx, ny)) => match track_from(rows, pass(passed, x, y), nx, ny, (fuel - 1) as nat) {
                Some(rest) => Some(seq![rows[y][x]] + rest),
                None => None,
            },
            None => None,
        }
    }
}

/// Nothing passed yet, on a track of `height` rows that is `width` wide.
pub open spec fn nothing_passed(height: nat, width: nat) -> Passed {
    Seq::new(height, |y: int| Seq::new(width, |x: int| false))
}

/// The track drawn by `rows`, from the cell to the right of its upper left
/// corner once round to the start `S`; each cell is passed once, so that no
/// more steps are needed than there are cells.
pub open spec fn track_of(rows: Seq<Seq<char>>) -> Option<Seq<char>> {
    track_from(
        rows,
        nothing_passed(rows.len(), rows[0].len()),
        1,
        0,
        rows.len() * rows[0].len(),
    )
}

/// Whether the cell at `(x, y)` is one to go to.
fn is_free(rows: &Vec<Vec<char>>, passed: &Vec<Vec<bool>>, x: usize, y: usize) -> (b: bool)
    requires
        track_drawn(rows_view(rows@)),
        covers(rows_view(rows@), rows_view(passed@)),
    ensures
        b == free(rows_view(rows@), rows_view(passed@), x as int, y as int),
{
    let ghost drawn = rows_view(rows@);
    if y < rows.len() && x < rows[0].len() {
        assert(drawn[y as int] == rows@[y as int]@);
        assert(drawn[y as int].len() >= drawn[0].len());
        assert(rows_view(passed@)[y as int] == passed@[y as int]@);
        rows[y][x] != ' ' && !passed[y][x]
    } else {
        false
    }
}

/// The track that follows what has been passed: the whole of it, given the
/// rest from the cell where the chariot stands.
pub open spec fn after(path: Seq<char>, rest: Option<Seq<char>>) -> Option<Seq<char>> {
    match rest {
        Some(rest) => Some(path + rest),
        None => None,
    }
}

/// The track drawn in `track`, once round from the cell to the right of
/// its upper left corner to the start `S`; `None` where no track is drawn,
/// or one that does not come round.
pub fn find_track_loop(track: &str) -> (r: Option<String>)
    ensures
        match r {
            Some(round) => track_drawn(lines(track@)) && track_of(lines(track@)) == Some(round@),
            None => !track_drawn(lines(track@)) || track_of(lines(track@)) is None,
        },
{
    // collect to a grid of char first to make indexing easier
    let text = chars_of(track);
    let grid = split_lines(&text);
    let ghost drawn = lines(text@);
    let height = grid.len();
    if height == 0 {
        return None;
    }
    let width = grid[0].len();
    proof {
        assert(drawn[0] == grid@[0]@);
    }
    if width < 2 {
        return None;
    }
    let mut visited: Vec<Vec<bool>> = Vec::new();
    let mut vy: usize = 0;
    while vy < height
        invariant
            vy <= height,
            height == grid.len(),
            height > 0,
            drawn == rows_view(grid@),
            drawn == lines(track@),
            width == drawn[0].len(),
            visited@.len() == vy,
            forall|j: int| 0 <= j < vy ==> (#[trigger] drawn[j]).len() >= width,
            forall|j: int| 0 <= j < vy ==> (#[trigger] visited@[j])@ == Seq::new(
                width as nat,
                |x: int| false,
            ),
        decreases height - vy,
    {
        proof {
            assert(drawn[vy as int] == grid@[vy as int]@);
        }
        if grid[vy].len() < width {
            return None;
        }
        let mut row: Vec<bool> = Vec::new();
        let mut vx: usize = 0;
        while vx < width
            invariant
                vx <= width,
                row@.len() == vx,
                forall|j: int| 0 <= j < vx ==> !(#[trigger] row@[j]),
            decreases width - vx,
        {
            row.push(false);
            vx += 1;
        }
        proof {
            assert(row@ =~= Seq::new(width as nat, |x: int| false));
        }
        visited.push(row);
        vy += 1;
    }
    proof {
        assert(rows_view(visited@) =~= nothing_passed(height as nat, width as nat));
    }

    let mut path: Vec<char> = Vec::new();
    let mut x: usize = 1;
    let mut y: usize = 0;
    proof {
        assert(height * width <= 0xffff_ffff_ffff_ffff * 0xffff_ffff_ffff_ffff) by (nonlinear_arith)
            requires
                0 <= height <= 0xffff_ffff_ffff_ffff,
                0 <= width <= 0xffff_ffff_ffff_ffff,
        ;
    }
    let mut fuel: u128 = (height as u128) * (width as u128);
    proof {
        let rest = track_from(drawn, rows_view(visited@), 1, 0, fuel as nat);
        if rest is Some {
            assert(Seq::<char>::empty() + rest.unwrap() =~= rest.unwrap());
        }
    }

    loop
        invariant
            drawn == rows_view(grid@),
            drawn == lines(track@),
            track_drawn(drawn),
            height == grid.len(),
            width == drawn[0].len(),
            covers(drawn, rows_view(visited@)),
            y < height,
            x < width,
            track_of(drawn) == after(
                path@,
                track_from(drawn, rows_view(visited@), x as int, y as int, fuel as nat),
            ),
        decreases fuel,
    {
        proof {
            assert(drawn[y as int] == grid@[y as int]@);
            assert(drawn[y as int].len() >= width);
        }
        let current = grid[y][x];
        if current == 'S' {
            proof {
                assert(path@ + seq!['S'] =~= path@.push('S'));
            }
            path.push('S');
            return Some(text_of(path.as_slice()));
        }
        if fuel == 0 {
            return None;
        }
        let ghost before = rows_view(visited@);
        let ghost walked = path@;
        let ghost marks = visited@;
        path.push(current);
        visited[y][x] = true;
        proof {
            assert(rows_view(visited@) =~= pass(before, x as int, y as int)) by {
                assert(before[y as int] == marks[y as int]@);
                assert forall|j: int| 0 <= j < visited@.len() implies #[trigger] rows_view(
                    visited@,
                )[j] == pass(before, x as int, y as int)[j] by {
                    if j == y {
                        assert(rows_view(visited@)[j] =~= before[j].update(x as int, true));
                    }
                }
            }
            assert(covers(drawn, rows_view(visited@))) by {
                assert forall|j: int| 0 <= j < drawn.len() implies (#[trigger] rows_view(
                    visited@,
                )[j]).len() == drawn[0].len() by {
                    assert(before[j].len() == drawn[0].len());
                }
            }
        }
        let ghost here = (x as int, y as int);
        if x < usize::MAX && is_free(&grid, &visited, x + 1, y) {
            x = x + 1;
        } else if y < usize::MAX && is_free(&grid, &visited, x, y + 1) {
            y = y + 1;
        } else if y > 0 && is_free(&grid, &visited, x, y - 1) {
            y = y - 1;
        } else if x > 0 && is_free(&grid, &visited, x - 1, y) {
            x = x - 1;
        } else {
            return None;
        }
        fuel = fuel - 1;
        proof {
            let tail = track_from(drawn, rows_view(visited@), x as int, y as int, fuel as nat);
            assert(next_cell(drawn, rows_view(visited@), here.0, here.1) == Some(
                (x as int, y as int),
            ));
            if tail is Some {
                assert(path@ + tail.unwrap() =~= walked + (seq![current] + tail.unwrap()));
            }
        }
    }
}

/// Extract the track loop from the given track string
///
/// The track could be completely jagged, thus we need to follow it
/// around to extract the loop from (1, 0) until we reach the S node
pub fn get_track_loop(track: &str) -> (r: String)
    requires
        track_drawn(lines(track@)),
        track_of(lines(track@)) is Some,
    ensures
        Some(r@) == track_of(lines(track@)),
{
    match find_track_loop(track) {
        Some(round) => round,
        None => String::new(),
    }
}

/// Whether every line of `input` writes a plan.
pub fn plans_written(input: &str) -> (b: bool)
    ensures
        b == write_plans(lines(input@)),
{
    let text = chars_of(input);
    let rows = split_lines(&text);
    let ghost listed = lines(text@);
    let mut i: usize = 0;
    while i < rows.len()
        invariant
            i <= rows.len(),
            listed == rows_view(rows@),
            listed == lines(input@),
            forall|j: int| 0 <= j < i ==> writes_plan(#[trigger] listed[j]),
        decreases rows.len() - i,
    {
        let line = &rows[i];
        proof {
            assert(listed[i as int] == line@);
        }
        match find_char(line.as_slice(), ':') {
            Some(colon) => {
                assert(colon < line.len());
                let tail = copy_range(line.as_slice(), colon + 1, line.len());
                let words = split_at(tail.as_slice(), ',');
                let ghost written = rows_view(words@);
                let mut k: usize = 0;
                while k < words.len()
                    invariant
                        k <= words.len(),
                        i < rows.len(),
                        listed == rows_view(rows@),
                        listed == lines(input@),
                        written == rows_view(words@),
                        written == split(
                            listed[i as int].subrange(
                                first_place(listed[i as int], ':') as int + 1,
                                listed[i as int].len() as int,
                            ),
                            ',',
                        ),
                        first_place(listed[i as int], ':') < listed[i as int].len(),
                        forall|j: int|
                            0 <= j < k ==> (#[trigger] written[j]).len() == 1 && is_action(
                                written[j][0],
                            ),
                    decreases words.len() - k,
                {
                    proof {
                        assert(written[k as int] == words@[k as int]@);
                    }
                    let word = &words[k];
                    if word.len() != 1 || !(word[0] == '+' || word[0] == '-' || word[0] == '=') {
                        proof {
                            assert(!writes_plan(listed[i as int]));
                        }
                        return false;
                    }
                    k += 1;
                }
            },
            None => {
                proof {
                    assert(!writes_plan(listed[i as int]));
                }
                return false;
            },
        }
        i += 1;
    }
    true
}

/// `cells` cells passed `rounds` times make a race that is short enough
/// to be scored for every plan: neither number, nor the cells passed in
/// all, is above two to the thirtieth.
pub open spec fn short_enough(cells: nat, rounds: nat) -> bool {
    &&& rounds <= 0x4000_0000
    &&& cells <= 0x4000_0000
    &&& cells * rounds <= 0x4000_0000
}

/// A race that is short enough is one that every plan can be run on.
pub proof fn lemma_short_race_fits(track: Seq<char>, actions: Seq<char>, rounds: nat)
    requires
        short_enough(track.len(), rounds),
    ensures
        race_fits(track, actions, rounds),
{
    let steps = track.len() * rounds;
    lemma_race_bounded(track, actions, steps);
    assert(steps * (10 + steps) <= u64::MAX) by (nonlinear_arith)
        requires
            0 <= steps <= 0x4000_0000,
    ;
}

/// Whether `track_loop` is made of cells of a track, and short enough for
/// every plan to be run on it over `rounds` rounds.
pub fn can_race(track_loop: &str, rounds: usize) -> (b: bool)
    ensures
        b == (is_track(track_loop@) && short_enough(track_loop@.len(), rounds as nat)),
        b ==> forall|actions: Seq<char>| #[trigger] race_fits(track_loop@, actions, rounds as nat),
{
    let track = chars_of(track_loop);
    let mut i: usize = 0;
    while i < track.len()
        invariant
            i <= track.len(),
            track@ == track_loop@,
            forall|j: int| 0 <= j < i ==> is_cell(#[trigger] track@[j]),
        decreases track.len() - i,
    {
        let c = track[i];
        if !(c == '+' || c == '-' || c == '=' || c == 'S') {
            proof {
                assert(!is_cell(track_loop@[i as int]));
            }
            return false;
        }
        i += 1;
    }
    if rounds > 0x4000_0000 {
        return false;
    }
    let most: usize = if rounds == 0 {
        0x4000_0000
    } else {
        0x4000_0000 / rounds
    };
    proof {
        let cells = track@.len() as int;
        let passes = rounds as int;
        assert(cells <= most <==> cells <= 0x4000_0000 && cells * passes <= 0x4000_0000)
            by (nonlinear_arith)
            requires
                0 <= cells,
                0 <= passes <= 0x4000_0000,
                passes == 0 ==> most == 0x4000_0000,
                passes > 0 ==> most == 0x4000_0000int / passes,
        ;
    }
    if track.len() > most {
        return false;
    }
    proof {
        assert forall|actions: Seq<char>| #[trigger]
            race_fits(track_loop@, actions, rounds as nat) by {
            lemma_short_race_fits(track_loop@, actions, rounds as nat);
        }
    }
    true
}

/// The essence over `n` cells is no more than `n` times the greatest
/// power.
pub proof fn lemma_race_bounded(track: Seq<char>, actions: Seq<char>, n: nat)
    ensures
        race_essence(track, actions, n) <= n * (10 + n),
    decreases n,
{
    if n > 0 && track.len() > 0 && actions.len() > 0 {
        lemma_race_bounded(track, actions, (n - 1) as nat);
        lemma_race_power_bounded(track, actions, n);
        assert((n - 1) * (10 + (n - 1)) + 10 + n <= n * (10 + n)) by (nonlinear_arith)
            requires
                n >= 1,
        ;
    } else {
        assert(0 <= n * (10 + n)) by (nonlinear_arith);
    }
}

/// `c` is a cell of a track: one that acts on the chariot by itself, `+`
/// or `-`, or one that leaves the action to the plan, `=` or `S`.
pub open spec fn is_cell(c: char) -> bool {
    c == '+' || c == '-' || c == '=' || c == 'S'
}

/// `track` is made of cells of a track.
pub open spec fn is_track(track: Seq<char>) -> bool {
    forall|i: int| 0 <= i < track.len() ==> is_cell(#[trigger] track[i])
}

/// `actions` are actions.
pub open spec fn all_actions(actions: Seq<char>) -> bool {
    forall|i: int| 0 <= i < actions.len() ==> is_action(#[trigger] actions[i])
}

/// The power of a chariot after `n` cells of `track`, passed over and
/// over, with the actions `actions` taken in turn over and over: a cell
/// `+` or `-` acts in place of the plan.
pub open spec fn race_power(track: Seq<char>, actions: Seq<char>, n: nat) -> nat
    decreases n,
{
    if n == 0 || track.len() == 0 || actions.len() == 0 {
        10
    } else {
        let before = race_power(track, actions, (n - 1) as nat);
        let cell = track[(n - 1) % (track.len() as int)];
        if cell == '+' || cell == '-' {
            act(before, cell)
        } else {
            act(before, actions[(n - 1) % (actions.len() as int)])
        }
    }
}

/// The essence gathered over `n` cells of `track`.
pub open spec fn race_essence(track: Seq<char>, actions: Seq<char>, n: nat) -> nat
    decreases n,
{
    if n == 0 || track.len() == 0 || actions.len() == 0 {
        0
    } else {
        race_essence(track, actions, (n - 1) as nat) + race_power(track, actions, n)
    }
}

/// The essence gathered over `rounds` rounds of `track`.
pub open spec fn race_score(track: Seq<char>, actions: Seq<char>, rounds: nat) -> nat {
    race_essence(track, actions, track.len() * rounds)
}

/// The essence gathered over more cells is no less.
pub proof fn lemma_race_grows(track: Seq<char>, actions: Seq<char>, m: nat, n: nat)
    requires
        m <= n,
    ensures
        race_essence(track, actions, m) <= race_essence(track, actions, n),
    decreases n,
{
    if m < n && track.len() > 0 && actions.len() > 0 {
        lemma_race_grows(track, actions, m, (n - 1) as nat);
    }
}

/// The power moves by one at most with each cell.
pub proof fn lemma_race_power_bounded(track: Seq<char>, actions: Seq<char>, n: nat)
    ensures
        race_power(track, actions, n) <= 10 + n,
    decreases n,
{
    if n > 0 && track.len() > 0 && actions.len() > 0 {
        lemma_race_power_bounded(track, actions, (n - 1) as nat);
    }
}

/// The essence that a plan gathers over `rounds` rounds of the track can
/// be counted.
pub open spec fn race_fits(track: Seq<char>, actions: Seq<char>, rounds: nat) -> bool {
    &&& track.len() * rounds <= usize::MAX
    &&& race_essence(track, actions, track.len() * rounds) <= u64::MAX
}

/// Score the given instructions on the track loop for the specified number of rounds
pub fn score(track_loop: &str, instructions: &[char], rounds: usize) -> (r: u64)
    requires
        is_track(track_loop@),
        all_actions(instructions@),
        race_fits(track_loop@, instructions@, rounds as nat),
    ensures
        r == race_score(track_loop@, instructions@, rounds as nat),
{
    let track = chars_of(track_loop);
    if track.len() == 0 || instructions.len() == 0 {
        return 0;
    }
    let steps: usize = track.len() * rounds;
    let mut power: u64 = 10;
    let mut total: u64 = 0;
    let mut n: usize = 0;
    while n < steps
        invariant
            n <= steps,
            track@.len() > 0,
            instructions@.len() > 0,
            power == race_power(track@, instructions@, n as nat),
            total == race_essence(track@, instructions@, n as nat),
            race_essence(track@, instructions@, steps as nat) <= u64::MAX,
        decreases steps - n,
    {
        proof {
            lemma_race_grows(track@, instructions@, (n + 1) as nat, steps as nat);
            lemma_race_power_bounded(track@, instructions@, n as nat);
        }
        let cell = track[n % track.len()];
        power = if cell == '+' || cell == '-' {
            apply(power, cell)
        } else {
            apply(power, instructions[n % instructions.len()])
        };
        total += power;
        n += 1;
    }
    total
}

/// The essences that the plans `plans` gather over ten rounds of `track`,
/// with who gathered each.
pub open spec fn race_board(plans: Seq<Scheme>, track: Seq<char>, rounds: nat) -> Seq<Entry> {
    Seq::new(
        plans.len(),
        |i: int| (race_score(track, plans[i].1, rounds), plans[i].0),
    )
}

/// The essence that each of `plans` gathers over `rounds` rounds of
/// `track` can be counted.
pub open spec fn races_fit(plans: Seq<Scheme>, track: Seq<char>, rounds: nat) -> bool {
    forall|i: int| 0 <= i < plans.len() ==> race_fits(track, (#[trigger] plans[i]).1, rounds)
}

/// The actions of a plan read by `parse_plans` are actions.
pub proof fn lemma_plans_act(rows: Seq<Seq<char>>, i: int)
    requires
        write_plans(rows),
        0 <= i < rows.len(),
    ensures
        all_actions(schemes_of(rows)[i].1),
{
    let line = rows[i];
    assert(writes_plan(line));
    let colon = first_place(line, ':') as int;
    let words = split(line.subrange(colon + 1, line.len() as int), ',');
    assert forall|k: int| 0 <= k < actions_of(words).len() implies is_action(
        #[trigger] actions_of(words)[k],
    ) by {
        assert(words[k].len() == 1);
    }
}

/// The names of the riders whose plans `input` lists, from the one who
/// gathers the most essence over ten rounds of the track drawn in `track`
/// down.
pub fn part2(input: &str, track: &str) -> (r: String)
    requires
        write_plans(lines(input@)),
        track_drawn(lines(track@)),
        track_of(lines(track@)) matches Some(round) && is_track(round) && races_fit(
            schemes_of(lines(input@)),
            round,
            10,
        ),
    ensures
        r@ == ranking(
            race_board(schemes_of(lines(input@)), track_of(lines(track@)).unwrap(), 10),
        ),
{
    let plans = parse_plans(input);
    let track_loop = get_track_loop(track);
    let ghost round = track_loop@;
    let ghost listed = schemes_of(lines(input@));
    assert(schemes(plans@).len() == plans@.len() && listed.len() == lines(input@).len());

    let mut scores: Vec<u64> = Vec::new();
    let mut names: Vec<Vec<char>> = Vec::new();
    let mut i: usize = 0;
    while i < plans.len()
        invariant
            i <= plans.len(),
            round == track_loop@,
            is_track(round),
            listed == schemes(plans@),
            listed == schemes_of(lines(input@)),
            plans@.len() == lines(input@).len(),
            write_plans(lines(input@)),
            races_fit(listed, round, 10),
            scores@.len() == i,
            names@.len() == i,
            forall|j: int|
                0 <= j < i ==> #[trigger] scores@[j] == race_score(round, plans@[j].actions@, 10)
                    && names@[j]@ == plans@[j].name@,
        decreases plans.len() - i,
    {
        proof {
            lemma_plans_act(lines(input@), i as int);
            assert(listed[i as int].1 == plans@[i as int].actions@);
        }
        scores.push(score(track_loop.as_str(), plans[i].actions.as_slice(), 10));
        names.push(copy_range(plans[i].name.as_slice(), 0, plans[i].name.len()));
        proof {
            assert(plans@[i as int].name@.subrange(0, plans@[i as int].name@.len() as int)
                =~= plans@[i as int].name@);
        }
        i += 1;
    }
    proof {
        assert(board(scores@, names@) =~= race_board(listed, round, 10));
    }
    let ranked = rank(&scores, &names);
    text_of(ranked.as_slice())
}

/// The plans that begin with `plan`, which has `plus` times `+`, `minus`
/// times `-` and `equal` times `=`, and are eleven actions long with five
/// times `+`, three times `-` and three times `=` in all; in the order in
/// which `+` comes before `-` and `-` before `=`.
pub open spec fn plans_from(plan: Seq<char>, plus: nat, minus: nat, equal: nat) -> Seq<Seq<char>>
    decreases 11 - plan.len(),
{
    if plan.len() >= 11 {
        if plus == 5 && minus == 3 && equal == 3 {
            seq![plan]
        } else {
            Seq::empty()
        }
    } else {
        (if plus < 5 {
            plans_from(plan.push('+'), plus + 1, minus, equal)
        } else {
            Seq::empty()
        }) + (if minus < 3 {
            plans_from(plan.push('-'), plus, minus + 1, equal)
        } else {
            Seq::empty()
        }) + (if equal < 3 {
            plans_from(plan.push('='), plus, minus, equal + 1)
        } else {
            Seq::empty()
        })
    }
}

/// How often `c` is among `s`.
pub open spec fn times(s: Seq<char>, c: char) -> nat
    decreases s.len(),
{
    if s.len() == 0 {
        0
    } else {
        times(s.drop_last(), c) + if s.last() == c {
            1nat
        } else {
            0nat
        }
    }
}

/// `s` is a whole plan: eleven actions, of which five are `+`, three are
/// `-` and three are `=`.
pub open spec fn is_whole_plan(s: Seq<char>) -> bool {
    s.len() == 11 && times(s, '+') == 5 && times(s, '-') == 3 && times(s, '=') == 3
}

/// In how many orders `a` times `+`, `b` times `-` and `c` times `=` can
/// be taken.
pub open spec fn orders(a: nat, b: nat, c: nat) -> nat
    decreases a + b + c,
{
    if a + b + c == 0 {
        1
    } else {
        (if a > 0 {
            orders((a - 1) as nat, b, c)
        } else {
            0
        }) + (if b > 0 {
            orders(a, (b - 1) as nat, c)
        } else {
            0
        }) + (if c > 0 {
            orders(a, b, (c - 1) as nat)
        } else {
            0
        })
    }
}

/// One more action is counted once where it is the one that is counted.
pub proof fn lemma_times_push(s: Seq<char>, x: char, c: char)
    ensures
        times(s.push(x), c) == times(s, c) + if x == c {
            1nat
        } else {
            0nat
        },
{
    assert(s.push(x).drop_last() =~= s);
}

/// Among the first of a text, an action is no more often than among all.
pub proof fn lemma_times_take(t: Seq<char>, k: int, c: char)
    requires
        0 <= k <= t.len(),
    ensures
        times(t.take(k), c) <= times(t, c),
    decreases t.len() - k,
{
    if k == t.len() {
        assert(t.take(k) =~= t);
    } else {
        lemma_times_take(t, k + 1, c);
        assert(t.take(k + 1) =~= t.take(k).push(t[k]));
        lemma_times_push(t.take(k), t[k], c);
    }
}

/// The three actions are, taken together, no more often in a text than it
/// is long; where they are as often, the text is made of actions.
pub proof fn lemma_times_actions(s: Seq<char>)
    ensures
        times(s, '+') + times(s, '-') + times(s, '=') <= s.len(),
        times(s, '+') + times(s, '-') + times(s, '=') == s.len() ==> all_actions(s),
    decreases s.len(),
{
    if s.len() > 0 {
        lemma_times_actions(s.drop_last());
        if times(s, '+') + times(s, '-') + times(s, '=') == s.len() {
            assert forall|i: int| 0 <= i < s.len() implies is_action(#[trigger] s[i]) by {
                if i < s.len() - 1 {
                    assert(s[i] == s.drop_last()[i]);
                }
            }
        }
    }
}

/// What holds of the plans that begin with `plan`: each is a whole plan
/// that begins with `plan`, no two are equal, and they are as many as
/// there are orders for the actions that are left.
pub proof fn lemma_plans_begun(plan: Seq<char>, plus: nat, minus: nat, equal: nat)
    requires
        plan.len() == plus + minus + equal,
        times(plan, '+') == plus <= 5,
        times(plan, '-') == minus <= 3,
        times(plan, '=') == equal <= 3,
    ensures
        plans_from(plan, plus, minus, equal).len() == orders(
            (5 - plus) as nat,
            (3 - minus) as nat,
            (3 - equal) as nat,
        ),
        forall|i: int|
            0 <= i < plans_from(plan, plus, minus, equal).len() ==> is_whole_plan(
                #[trigger] plans_from(plan, plus, minus, equal)[i],
            ),
        forall|i: int, k: int|
            0 <= i < plans_from(plan, plus, minus, equal).len() && 0 <= k < plan.len()
                ==> #[trigger] plans_from(plan, plus, minus, equal)[i][k] == plan[k],
        forall|i: int, j: int|
            0 <= i < j < plans_from(plan, plus, minus, equal).len() ==> #[trigger] plans_from(
                plan,
                plus,
                minus,
                equal,
            )[i] != #[trigger] plans_from(plan, plus, minus, equal)[j],
    decreases 11 - plan.len(),
{
    let all = plans_from(plan, plus, minus, equal);
    let n = plan.len() as int;
    if plan.len() < 11 {
        let a = if plus < 5 {
            plans_from(plan.push('+'), plus + 1, minus, equal)
        } else {
            Seq::empty()
        };
        let b = if minus < 3 {
            plans_from(plan.push('-'), plus, minus + 1, equal)
        } else {
            Seq::empty()
        };
        let c = if equal < 3 {
            plans_from(plan.push('='), plus, minus, equal + 1)
        } else {
            Seq::empty()
        };
        assert(all == a + b + c);
        lemma_times_push(plan, '+', '+');
        lemma_times_push(plan, '+', '-');
        lemma_times_push(plan, '+', '=');
        lemma_times_push(plan, '-', '+');
        lemma_times_push(plan, '-', '-');
        lemma_times_push(plan, '-', '=');
        lemma_times_push(plan, '=', '+');
        lemma_times_push(plan, '=', '-');
        lemma_times_push(plan, '=', '=');
        if plus < 5 {
            lemma_plans_begun(plan.push('+'), plus + 1, minus, equal);
        }
        if minus < 3 {
            lemma_plans_begun(plan.push('-'), plus, minus + 1, equal);
        }
        if equal < 3 {
            lemma_plans_begun(plan.push('='), plus, minus, equal + 1);
        }
        assert forall|i: int| 0 <= i < a.len() implies is_whole_plan(#[trigger] a[i]) && a[i][n]
            == '+' && (forall|k: int| 0 <= k < n ==> a[i][k] == plan[k]) by {
            assert(a[i][n] == plan.push('+')[n]);
            assert forall|k: int| 0 <= k < n implies a[i][k] == plan[k] by {
                assert(a[i][k] == plan.push('+')[k]);
            }
        }
        assert forall|i: int| 0 <= i < b.len() implies is_whole_plan(#[trigger] b[i]) && b[i][n]
            == '-' && (forall|k: int| 0 <= k < n ==> b[i][k] == plan[k]) by {
            assert(b[i][n] == plan.push('-')[n]);
            assert forall|k: int| 0 <= k < n implies b[i][k] == plan[k] by {
                assert(b[i][k] == plan.push('-')[k]);
            }
        }
        assert forall|i: int| 0 <= i < c.len() implies is_whole_plan(#[trigger] c[i]) && c[i][n]
            == '=' && (forall|k: int| 0 <= k < n ==> c[i][k] == plan[k]) by {
            assert(c[i][n] == plan.push('=')[n]);
            assert forall|k: int| 0 <= k < n implies c[i][k] == plan[k] by {
                assert(c[i][k] == plan.push('=')[k]);
            }
        }
        assert forall|i: int| 0 <= i < all.len() implies is_whole_plan(#[trigger] all[i]) && (
        forall|k: int| 0 <= k < n ==> all[i][k] == plan[k]) by {
            if i < a.len() {
                assert(all[i] == a[i]);
            } else if i < a.len() + b.len() {
                assert(all[i] == b[i - a.len()]);
            } else {
                assert(all[i] == c[i - a.len() - b.len()]);
            }
        }
        assert forall|i: int, j: int| 0 <= i < j < all.len() implies #[trigger] all[i]
            != #[trigger] all[j] by {
            let x = all[i];
            let y = all[j];
            if i < a.len() {
                assert(x == a[i]);
                if j < a.len() {
                    assert(y == a[j]);
                } else if j < a.len() + b.len() {
                    assert(y == b[j - a.len()]);
                    assert(x[n] != y[n]);
                } else {
                    assert(y == c[j - a.len() - b.len()]);
                    assert(x[n] != y[n]);
                }
            } else if i < a.len() + b.len() {
                assert(x == b[i - a.len()]);
                if j < a.len() + b.len() {
                    assert(y == b[j - a.len()]);
                } else {
                    assert(y == c[j - a.len() - b.len()]);
                    assert(x[n] != y[n]);
                }
            } else {
                assert(x == c[i - a.len() - b.len()]);
                assert(y == c[j - a.len() - b.len()]);
            }
        }
    }
}

/// Every whole plan is among the plans that begin as it does.
pub proof fn lemma_plan_listed(t: Seq<char>, k: int)
    requires
        is_whole_plan(t),
        0 <= k <= 11,
    ensures
        plans_from(t.take(k), times(t.take(k), '+'), times(t.take(k), '-'), times(t.take(k), '='))
            .contains(t),
    decreases 11 - k,
{
    let plan = t.take(k);
    let plus = times(plan, '+');
    let minus = times(plan, '-');
    let equal = times(plan, '=');
    let all = plans_from(plan, plus, minus, equal);
    lemma_times_take(t, k, '+');
    lemma_times_take(t, k, '-');
    lemma_times_take(t, k, '=');
    if k == 11 {
        assert(plan =~= t);
        assert(all[0] == t);
    } else {
        let x = t[k];
        lemma_times_actions(t);
        assert(is_action(x));
        let longer = t.take(k + 1);
        assert(longer =~= plan.push(x));
        lemma_times_push(plan, x, '+');
        lemma_times_push(plan, x, '-');
        lemma_times_push(plan, x, '=');
        lemma_times_take(t, k + 1, '+');
        lemma_times_take(t, k + 1, '-');
        lemma_times_take(t, k + 1, '=');
        lemma_plan_listed(t, k + 1);
        let a = if plus < 5 {
            plans_from(plan.push('+'), plus + 1, minus, equal)
        } else {
            Seq::empty()
        };
        let b = if minus < 3 {
            plans_from(plan.push('-'), plus, minus + 1, equal)
        } else {
            Seq::empty()
        };
        let c = if equal < 3 {
            plans_from(plan.push('='), plus, minus, equal + 1)
        } else {
            Seq::empty()
        };
        assert(all == a + b + c);
        if x == '+' {
            let i = choose|i: int| 0 <= i < a.len() && a[i] == t;
            assert(all[i] == t);
        } else if x == '-' {
            let i = choose|i: int| 0 <= i < b.len() && b[i] == t;
            assert(all[a.len() + i] == t);
        } else {
            let i = choose|i: int| 0 <= i < c.len() && c[i] == t;
            assert(all[a.len() + b.len() + i] == t);
        }
    }
}

/// The orders of up to five times `+`, three times `-` and three times
/// `=`, each counted from those of one action fewer.
proof fn lemma_orders_counted()
    ensures
        orders(5, 3, 3) == 9240,
{
    assert(orders(0, 0, 0) == 1);
    assert(orders(0, 0, 1) == 1);
    assert(orders(0, 0, 2) == 1);
    assert(orders(0, 0, 3) == 1);
    assert(orders(0, 1, 0) == 1);
    assert(orders(0, 1, 1) == 2);
    assert(orders(0, 1, 2) == 3);
    assert(orders(0, 1, 3) == 4);
    assert(orders(0, 2, 0) == 1);
    assert(orders(0, 2, 1) == 3);
    assert(orders(0, 2, 2) == 6);
    assert(orders(0, 2, 3) == 10);
    assert(orders(0, 3, 0) == 1);
    assert(orders(0, 3, 1) == 4);
    assert(orders(0, 3, 2) == 10);
    assert(orders(0, 3, 3) == 20);
    assert(orders(1, 0, 0) == 1);
    assert(orders(1, 0, 1) == 2);
    assert(orders(1, 0, 2) == 3);
    assert(orders(1, 0, 3) == 4);
    assert(orders(1, 1, 0) == 2);
    assert(orders(1, 1, 1) == 6);
    assert(orders(1, 1, 2) == 12);
    assert(orders(1, 1, 3) == 20);
    assert(orders(1, 2, 0) == 3);
    assert(orders(1, 2, 1) == 12);
    assert(orders(1, 2, 2) == 30);
    assert(orders(1, 2, 3) == 60);
    assert(orders(1, 3, 0) == 4);
    assert(orders(1, 3, 1) == 20);
    assert(orders(1, 3, 2) == 60);
    assert(orders(1, 3, 3) == 140);
    assert(orders(2, 0, 0) == 1);
    assert(orders(2, 0, 1) == 3);
    assert(orders(2, 0, 2) == 6);
    assert(orders(2, 0, 3) == 10);
    assert(orders(2, 1, 0) == 3);
    assert(orders(2, 1, 1) == 12);
    assert(orders(2, 1, 2) == 30);
    assert(orders(2, 1, 3) == 60);
    assert(orders(2, 2, 0) == 6);
    assert(orders(2, 2, 1) == 30);
    assert(orders(2, 2, 2) == 90);
    assert(orders(2, 2, 3) == 210);
    assert(orders(2, 3, 0) == 10);
    assert(orders(2, 3, 1) == 60);
    assert(orders(2, 3, 2) == 210);
    assert(orders(2, 3, 3) == 560);
    assert(orders(3, 0, 0) == 1);
    assert(orders(3, 0, 1) == 4);
    assert(orders(3, 0, 2) == 10);
    assert(orders(3, 0, 3) == 20);
    assert(orders(3, 1, 0) == 4);
    assert(orders(3, 1, 1) == 20);
    assert(orders(3, 1, 2) == 60);
    assert(orders(3, 1, 3) == 140);
    assert(orders(3, 2, 0) == 10);
    assert(orders(3, 2, 1) == 60);
    assert(orders(3, 2, 2) == 210);
    assert(orders(3, 2, 3) == 560);
    assert(orders(3, 3, 0) == 20);
    assert(orders(3, 3, 1) == 140);
    assert(orders(3, 3, 2) == 560);
    assert(orders(3, 3, 3) == 1680);
    assert(orders(4, 0, 0) == 1);
    assert(orders(4, 0, 1) == 5);
    assert(orders(4, 0, 2) == 15);
    assert(orders(4, 0, 3) == 35);
    assert(orders(4, 1, 0) == 5);
    assert(orders(4, 1, 1) == 30);
    assert(orders(4, 1, 2) == 105);
    assert(orders(4, 1, 3) == 280);
    assert(orders(4, 2, 0) == 15);
    assert(orders(4, 2, 1) == 105);
    assert(orders(4, 2, 2) == 420);
    assert(orders(4, 2, 3) == 1260);
    assert(orders(4, 3, 0) == 35);
    assert(orders(4, 3, 1) == 280);
    assert(orders(4, 3, 2) == 1260);
    assert(orders(4, 3, 3) == 4200);
    assert(orders(5, 0, 0) == 1);
    assert(orders(5, 0, 1) == 6);
    assert(orders(5, 0, 2) == 21);
    assert(orders(5, 0, 3) == 56);
    assert(orders(5, 1, 0) == 6);
    assert(orders(5, 1, 1) == 42);
    assert(orders(5, 1, 2) == 168);
    assert(orders(5, 1, 3) == 504);
    assert(orders(5, 2, 0) == 21);
    assert(orders(5, 2, 1) == 168);
    assert(orders(5, 2, 2) == 756);
    assert(orders(5, 2, 3) == 2520);
    assert(orders(5, 3, 0) == 56);
    assert(orders(5, 3, 1) == 504);
    assert(orders(5, 3, 2) == 2520);
    assert(orders(5, 3, 3) == 9240);
}

/// The plans that can be chosen from are the whole plans, each of them
/// once: eleven actions with five times `+`, three times `-` and three
/// times `=`, in every order; there are 9240 of them.
pub proof fn lemma_all_plans()
    ensures
        plans_from(Seq::empty(), 0, 0, 0).len() == 9240,
        forall|t: Seq<char>| plans_from(Seq::empty(), 0, 0, 0).contains(t) <==> is_whole_plan(t),
        forall|i: int, j: int|
            0 <= i < j < plans_from(Seq::empty(), 0, 0, 0).len() ==> #[trigger] plans_from(
                Seq::empty(),
                0,
                0,
                0,
            )[i] != #[trigger] plans_from(Seq::empty(), 0, 0, 0)[j],
{
    let all = plans_from(Seq::empty(), 0, 0, 0);
    lemma_plans_begun(Seq::empty(), 0, 0, 0);
    lemma_orders_counted();
    assert forall|t: Seq<char>| all.contains(t) <==> is_whole_plan(t) by {
        if is_whole_plan(t) {
            assert(t.take(0) =~= Seq::<char>::empty());
            lemma_plan_listed(t, 0);
        }
        if all.contains(t) {
            let i = choose|i: int| 0 <= i < all.len() && all[i] == t;
            assert(is_whole_plan(all[i]));
        }
    }
}

/// Adds to `plans` the plans that begin with `plan`.
fn backtrack(
    plan: &mut Vec<char>,
    plus: usize,
    minus: usize,
    equal: usize,
    plans: &mut Vec<Vec<char>>,
)
    requires
        old(plan)@.len() <= 11,
        plus <= 5,
        minus <= 3,
        equal <= 3,
    ensures
        final(plan)@ == old(plan)@,
        rows_view(final(plans)@) == rows_view(old(plans)@) + plans_from(
            old(plan)@,
            plus as nat,
            minus as nat,
            equal as nat,
        ),
    decreases 11 - old(plan)@.len(),
{
    let ghost start = plan@;
    let ghost found = rows_view(plans@);
    if plan.len() == 11 {
        if plus == 5 && minus == 3 && equal == 3 {
            let copy = copy_range(plan.as_slice(), 0, plan.len());
            proof {
                assert(copy@ =~= plan@);
            }
            plans.push(copy);
            proof {
                assert(rows_view(plans@) =~= found + seq![start]);
            }
        } else {
            proof {
                assert(found + Seq::<Seq<char>>::empty() =~= found);
            }
        }
        return ;
    }
    let ghost with_plus = if plus < 5 {
        plans_from(start.push('+'), (plus + 1) as nat, minus as nat, equal as nat)
    } else {
        Seq::empty()
    };
    let ghost with_minus = if minus < 3 {
        plans_from(start.push('-'), plus as nat, (minus + 1) as nat, equal as nat)
    } else {
        Seq::empty()
    };
    let ghost with_equal = if equal < 3 {
        plans_from(start.push('='), plus as nat, minus as nat, (equal + 1) as nat)
    } else {
        Seq::empty()
    };

    if plus < 5 {
        plan.push('+');
        backtrack(plan, plus + 1, minus, equal, plans);
        plan.pop();
        proof {
            assert(plan@ =~= start);
        }
    }
    proof {
        assert(found + Seq::<Seq<char>>::empty() =~= found);
        assert(rows_view(plans@) == found + with_plus);
    }

    if minus < 3 {
        plan.push('-');
        backtrack(plan, plus, minus + 1, equal, plans);
        plan.pop();
        proof {
            assert(plan@ =~= start);
        }
    }
    proof {
        assert((found + with_plus) + Seq::<Seq<char>>::empty() =~= found + with_plus);
        assert(rows_view(plans@) == (found + with_plus) + with_minus);
    }

    if equal < 3 {
        plan.push('=');
        backtrack(plan, plus, minus, equal + 1, plans);
        plan.pop();
        proof {
            assert(plan@ =~= start);
        }
    }
    proof {
        assert(((found + with_plus) + with_minus) + Seq::<Seq<char>>::empty() =~= (found
            + with_plus) + with_minus);
        assert(((found + with_plus) + with_minus) + with_equal =~= found + (with_plus + with_minus
            + with_equal));
    }
}

/// Generate all possible plans of length 11 with a total of 5 + moves, 3 - moves, and 3 = moves
/// in all possible combinations
pub fn possible_plans() -> (plans: Vec<Vec<char>>)
    ensures
        rows_view(plans@) == plans_from(Seq::empty(), 0, 0, 0),
        plans@.len() == 9240,
        forall|t: Seq<char>| rows_view(plans@).contains(t) <==> is_whole_plan(t),
        forall|i: int, j: int|
            0 <= i < j < plans@.len() ==> (#[trigger] plans@[i])@ != (#[trigger] plans@[j])@,
{
    let mut plans: Vec<Vec<char>> = Vec::new();
    let mut plan: Vec<char> = Vec::new();
    backtrack(&mut plan, 0, 0, 0, &mut plans);
    proof {
        assert(rows_view(Seq::<Vec<char>>::empty()) + plans_from(Seq::empty(), 0, 0, 0)
            =~= plans_from(Seq::empty(), 0, 0, 0));
        lemma_all_plans();
        assert(rows_view(plans@).len() == plans@.len());
        assert forall|i: int, j: int| 0 <= i < j < plans@.len() implies (#[trigger] plans@[i])@ != (
        #[trigger] plans@[j])@ by {
            assert(rows_view(plans@)[i] == plans@[i]@);
            assert(rows_view(plans@)[j] == plans@[j]@);
        }
    }
    plans
}

/// How many of the first `n` plans of `plans` gather more than `mark`
/// over `rounds` rounds of `track`.
pub open spec fn winners(
    plans: Seq<Seq<char>>,
    track: Seq<char>,
    rounds: nat,
    mark: nat,
    n: nat,
) -> nat
    decreases n,
{
    if n == 0 {
        0
    } else {
        winners(plans, track, rounds, mark, (n - 1) as nat) + if race_score(
            track,
            plans[n - 1],
            rounds,
        ) > mark {
            1nat
        } else {
            0nat
        }
    }
}

/// There are no more winners than plans.
pub proof fn lemma_winners_bounded(
    plans: Seq<Seq<char>>,
    track: Seq<char>,
    rounds: nat,
    mark: nat,
    n: nat,
)
    ensures
        winners(plans, track, rounds, mark, n) <= n,
    decreases n,
{
    if n > 0 {
        lemma_winners_bounded(plans, track, rounds, mark, (n - 1) as nat);
    }
}

/// Every plan of a given race can be run on `track` over `rounds` rounds.
pub open spec fn all_race(plans: Seq<Seq<char>>, track: Seq<char>, rounds: nat) -> bool {
    forall|i: int|
        0 <= i < plans.len() ==> all_actions(#[trigger] plans[i]) && race_fits(
            track,
            plans[i],
            rounds,
        )
}

/// How many of `plans` gather more than `mark` over `rounds` rounds of
/// the track `track_loop`.
pub fn count_winners(plans: &Vec<Vec<char>>, track_loop: &str, rounds: usize, mark: u64) -> (r:
    usize)
    requires
        is_track(track_loop@),
        all_race(rows_view(plans@), track_loop@, rounds as nat),
    ensures
        r == winners(rows_view(plans@), track_loop@, rounds as nat, mark as nat, plans@.len()),
{
    let ghost all = rows_view(plans@);
    let mut count: usize = 0;
    let mut i: usize = 0;
    while i < plans.len()
        invariant
            i <= plans.len(),
            all == rows_view(plans@),
            is_track(track_loop@),
            all_race(all, track_loop@, rounds as nat),
            count == winners(all, track_loop@, rounds as nat, mark as nat, i as nat),
        decreases plans.len() - i,
    {
        proof {
            assert(all[i as int] == plans@[i as int]@);
            lemma_winners_bounded(all, track_loop@, rounds as nat, mark as nat, i as nat);
        }
        if score(track_loop, plans[i].as_slice(), rounds) > mark {
            count += 1;
        }
        i += 1;
    }
    count
}

/// How many plans of five `+`, three `-` and three `=` gather more over
/// 2024 rounds of the track drawn in `track` than the plan in the first
/// line of `input`.
pub fn part3(input: &str, track: &str) -> (r: u32)
    requires
        write_plans(lines(input@)),
        lines(input@).len() > 0,
        track_drawn(lines(track@)),
        track_of(lines(track@)) matches Some(round) && is_track(round) && race_fits(
            round,
            schemes_of(lines(input@))[0].1,
            2024,
        ) && all_race(plans_from(Seq::empty(), 0, 0, 0), round, 2024),
    ensures
        r == winners(
            plans_from(Seq::empty(), 0, 0, 0),
            track_of(lines(track@)).unwrap(),
            2024,
            race_score(track_of(lines(track@)).unwrap(), schemes_of(lines(input@))[0].1, 2024),
            plans_from(Seq::empty(), 0, 0, 0).len(),
        ),
{
    let plans = parse_plans(input);
    let track_loop = get_track_loop(track);
    proof {
        assert(schemes(plans@).len() == plans@.len());
        assert(schemes_of(lines(input@)).len() == lines(input@).len());
        lemma_plans_act(lines(input@), 0);
        assert(schemes(plans@)[0].1 == plans@[0].actions@);
    }
    let opponent_score = score(track_loop.as_str(), plans[0].actions.as_slice(), 2024);
    let mine = possible_plans();
    proof {
        lemma_winners_bounded(
            rows_view(mine@),
            track_loop@,
            2024,
            opponent_score as nat,
            mine@.len(),
        );
    }
    count_winners(&mine, track_loop.as_str(), 2024, opponent_score) as u32
}

} // verus!
