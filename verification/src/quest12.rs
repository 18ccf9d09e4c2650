//! Catapults and targets: the ranking of the shots that destroy a field of
//! targets, and of the shots that meet falling meteors.

use crate::grid::rows_view;
use crate::text::{
    chars_of, copy_range, div_toward_zero, find_char, first_place, lemma_lines_bounded, lines,
    parse_i32, spec_parse_i32, split_lines, trunc_div, trunc_rem,
};
use vstd::prelude::*;

verus! {

/// The ranking of a shot over the distance `reach`: the catapult segment it
/// starts from, counted from one, times its power.
pub open spec fn shot(reach: int) -> int {
    (reach % 3 + 1) * (reach / 3)
}

/// What destroying the cell `c` at the distance `reach` costs: a target
/// takes one shot, a hard target two, anything else none.
pub open spec fn cell_score(c: char, reach: int) -> int {
    if c == 'T' {
        shot(reach)
    } else if c == 'H' {
        2 * shot(reach)
    } else {
        0
    }
}

/// The score of the first `n` cells of `line`, which lies `height` rows
/// above the ground; the first cell of a line counts for nothing, and the
/// cell after it is at the distance `height`.
pub open spec fn line_score(line: Seq<char>, height: int, n: nat) -> int
    decreases n,
{
    if n <= 1 {
        0
    } else {
        line_score(line, height, (n - 1) as nat) + cell_score(line[n - 1], n - 2 + height)
    }
}

/// The score of the lowest `n` lines of `rows`; the lowest line is the
/// ground and counts for nothing, the line above it is at height zero.
pub open spec fn field_score(rows: Seq<Seq<char>>, n: nat) -> int
    decreases n,
{
    if n <= 1 {
        0
    } else {
        let line = rows[rows.len() - n];
        field_score(rows, (n - 1) as nat) + line_score(line, n - 2, line.len())
    }
}

/// A line never scores less than nothing, nor less than a part of it.
pub proof fn lemma_line_score_grows(line: Seq<char>, height: int, m: nat, n: nat)
    requires
        height >= 0,
        m <= n,
    ensures
        0 <= line_score(line, height, m) <= line_score(line, height, n),
    decreases n,
{
    if n > 1 {
        if m < n {
            lemma_line_score_grows(line, height, m, (n - 1) as nat);
        } else {
            lemma_line_score_grows(line, height, (n - 1) as nat, (n - 1) as nat);
        }
        let reach = n - 2 + height;
        assert((reach % 3 + 1) * (reach / 3) >= 0) by (nonlinear_arith)
            requires
                reach >= 0,
        ;
    }
}

/// A field never scores less than nothing, nor less than its lower part.
pub proof fn lemma_field_score_grows(rows: Seq<Seq<char>>, m: nat, n: nat)
    requires
        m <= n,
    ensures
        0 <= field_score(rows, m) <= field_score(rows, n),
    decreases n,
{
    if n > 1 {
        if m < n {
            lemma_field_score_grows(rows, m, (n - 1) as nat);
        } else {
            lemma_field_score_grows(rows, (n - 1) as nat, (n - 1) as nat);
        }
        let line = rows[rows.len() - n];
        lemma_line_score_grows(line, n - 2, 0, line.len());
    }
}

/// The ranking of the shots that destroy every target of the field drawn
/// in `input`.
pub fn part1(input: &str) -> (r: u32)
    requires
        field_score(lines(input@), lines(input@).len()) <= u32::MAX,
    ensures
        r == field_score(lines(input@), lines(input@).len()),
{
    part2(input)
}

/// The ranking of the shots that destroy every target of the field drawn
/// in `input`, where hard targets take two shots.
pub fn part2(input: &str) -> (r: u32)
    requires
        field_score(lines(input@), lines(input@).len()) <= u32::MAX,
    ensures
        r == field_score(lines(input@), lines(input@).len()),
{
    let text = chars_of(input);
    let rows = split_lines(&text);
    let ghost field = rows_view(rows@);
    let count = rows.len();
    let size = text.len();
    let mut total: u32 = 0;
    let mut n: usize = 1;
    proof {
        lemma_field_score_grows(field, 0, field.len());
    }
    while n < count
        invariant
            1 <= n,
            n <= count || n == 1,
            count == rows.len(),
            field == rows_view(rows@),
            field == lines(text@),
            text@.len() <= usize::MAX,
            field_score(field, field.len()) <= u32::MAX,
            total == field_score(field, n as nat),
        decreases count - n,
    {
        let height: usize = n - 1;
        let line = &rows[count - 1 - n];
        let ghost cells = field[field.len() - (n + 1)];
        let mut sum: u32 = 0;
        let mut i: usize = 1;
        proof {
            assert(cells == line@);
            lemma_field_score_grows(field, (n + 1) as nat, field.len());
            lemma_field_score_grows(field, n as nat, (n + 1) as nat);
            lemma_line_score_grows(cells, height as int, 0, cells.len());
            lemma_lines_bounded(text@, field.len() - (n + 1));
            assert(field_score(field, (n + 1) as nat) == field_score(field, n as nat) + line_score(
                cells,
                height as int,
                cells.len(),
            ));
        }
        while i < line.len()
            invariant
                1 <= i,
                i <= line.len() || i == 1,
                cells == line@,
                height == n - 1,
                sum == line_score(cells, height as int, i as nat),
                line_score(cells, height as int, cells.len()) <= u32::MAX,
                cells.len() + height < usize::MAX,
            decreases line.len() - i,
        {
            let c = line[i];
            let reach: usize = (i - 1) + height;
            proof {
                lemma_line_score_grows(cells, height as int, (i + 1) as nat, cells.len());
                lemma_line_score_grows(cells, height as int, i as nat, (i + 1) as nat);
                lemma_line_score_grows(cells, height as int, 0, i as nat);
                assert(line_score(cells, height as int, (i + 1) as nat) == line_score(
                    cells,
                    height as int,
                    i as nat,
                ) + cell_score(c, reach as int));
                assert(shot(reach as int) >= reach / 3) by (nonlinear_arith)
                    requires
                        reach >= 0,
                        shot(reach as int) == (reach % 3 + 1) * (reach / 3),
                ;
            }
            if c == 'T' {
                let power = reach / 3;
                let start = reach % 3;
                sum += (start as u32 + 1) * power as u32;
            } else if c == 'H' {
                let power = reach / 3;
                let start = reach % 3;
                sum += 2 * ((start as u32 + 1) * power as u32);
            }
            i += 1;
        }
        proof {
            if line.len() == 0 {
                assert(line_score(cells, height as int, 0) == line_score(cells, height as int, 1));
            }
            assert(total + sum == field_score(field, (n + 1) as nat));
        }
        total += sum;
        n += 1;
    }
    proof {
        if count == 0 {
            assert(field_score(field, 0) == field_score(field, 1));
        }
    }
    total
}

/// The ranking of a shot from segment `start` at a meteor at `(x, y)`, if
/// a shot from there can meet it: on the way up, on the flat part of the
/// flight, or on the way down.
pub open spec fn launch(x: int, y: int, start: int) -> Option<int> {
    let h = y - start;
    if x < h {
        None
    } else if x <= 2 * h {
        Some((start + 1) * h)
    } else if trunc_rem(x + h, 3) == 0 {
        Some((start + 1) * trunc_div(x + h, 3))
    } else {
        None
    }
}

/// The ranking of the shot that meets a meteor at `(x, y)`, from the lowest
/// segment that can.
pub open spec fn intercept_of(x: int, y: int) -> Option<int> {
    if launch(x, y, 0) is Some {
        launch(x, y, 0)
    } else if launch(x, y, 1) is Some {
        launch(x, y, 1)
    } else {
        launch(x, y, 2)
    }
}

/// The ranking of the shot that meets a meteor at `(x, y)`.
pub fn intercept(x: i32, y: i32) -> (r: i32)
    requires
        intercept_of(x as int, y as int) matches Some(v) && i32::MIN <= v <= i32::MAX,
    ensures
        intercept_of(x as int, y as int) == Some(r as int),
{
    let wide_x = x as i64;
    let mut start: i64 = 0;
    while start < 3
        invariant
            0 <= start <= 3,
            wide_x == x,
            forall|s: int| 0 <= s < start ==> launch(x as int, y as int, s) is None,
            intercept_of(x as int, y as int) matches Some(v) && i32::MIN <= v <= i32::MAX,
        decreases 3 - start,
    {
        let h: i64 = y as i64 - start;
        if wide_x >= h {
            if wide_x <= 2 * h {
                assert(launch(x as int, y as int, start as int) == Some((start + 1) * h));
                assert(forall|s: int| 0 <= s < start ==> launch(x as int, y as int, s) is None);
                assert(-0x2_0000_0000 <= (start + 1) * h <= 0x2_0000_0000) by (nonlinear_arith)
                    requires
                        0 <= start < 3,
                        -0x4000_0000 * 2 - 3 <= h <= 0x4000_0000 * 2,
                ;
                return ((start + 1) * h) as i32;
            }
            let third = div_toward_zero(wide_x + h, 3);
            if wide_x + h - 3 * third == 0 {
                assert(launch(x as int, y as int, start as int) == Some((start + 1) * third));
                assert(-0x2_0000_0000 <= (start + 1) * third <= 0x2_0000_0000) by (nonlinear_arith)
                    requires
                        0 <= start < 3,
                        -0x4000_0000 * 2 - 3 <= third <= 0x4000_0000 * 2,
                ;
                return ((start + 1) * third) as i32;
            }
        }
        start += 1;
    }
    proof {
        assert(launch(x as int, y as int, 0) is None);
        assert(launch(x as int, y as int, 1) is None);
        assert(launch(x as int, y as int, 2) is None);
    }
    0
}

/// The place `(x, y)` of the meteor that `line` names: two numbers with one
/// blank between them.
pub open spec fn meteor(line: Seq<char>) -> Option<(int, int)> {
    let blank = first_place(line, ' ') as int;
    if blank < line.len() {
        match (
            spec_parse_i32(line.subrange(0, blank)),
            spec_parse_i32(line.subrange(blank + 1, line.len() as int)),
        ) {
            (Some(x), Some(y)) => Some((x as int, y as int)),
            _ => None,
        }
    } else {
        None
    }
}

/// The ranking of the shot that meets the meteor named by `line`: it is
/// met halfway, after the time that both need to get there.
pub open spec fn meteor_rank(line: Seq<char>) -> Option<int> {
    match meteor(line) {
        Some((x, y)) => intercept_of(
            trunc_div(x, 2),
            y - trunc_div(x, 2) - trunc_rem(x, 2),
        ),
        None => None,
    }
}

/// The rankings of the first `n` meteors of `rows`, summed up.
pub open spec fn ranks_sum(rows: Seq<Seq<char>>, n: nat) -> int
    decreases n,
{
    if n == 0 {
        0
    } else {
        ranks_sum(rows, (n - 1) as nat) + meteor_rank(rows[n - 1]).unwrap()
    }
}

/// Every line of `rows` names a meteor that can be met, and the rankings,
/// their sums and the places aimed at can be held in `i32`.
pub open spec fn meteors_fit(rows: Seq<Seq<char>>) -> bool {
    forall|n: int|
        0 <= n < rows.len() ==> {
            &&& meteor(#[trigger] rows[n]) matches Some((x, y)) && i32::MIN <= y - trunc_div(x, 2)
                - trunc_rem(x, 2) <= i32::MAX
            &&& meteor_rank(rows[n]) matches Some(v) && i32::MIN <= v <= i32::MAX
            &&& i32::MIN <= ranks_sum(rows, (n + 1) as nat) <= i32::MAX
        }
}

/// The rankings of the shots that meet the meteors listed in `input`, one
/// to a line, summed up.
pub fn part3(input: &str) -> (r: i32)
    requires
        meteors_fit(lines(input@)),
    ensures
        r == ranks_sum(lines(input@), lines(input@).len()),
{
    let text = chars_of(input);
    let rows = split_lines(&text);
    let ghost listed = lines(text@);
    let mut total: i32 = 0;
    let mut n: usize = 0;
    while n < rows.len()
        invariant
            n <= rows.len(),
            listed == rows_view(rows@),
            meteors_fit(listed),
            total == ranks_sum(listed, n as nat),
        decreases rows.len() - n,
    {
        let line = &rows[n];
        proof {
            assert(listed[n as int] == line@);
            assert(meteor(listed[n as int]) is Some);
        }
        let rank = match find_char(line.as_slice(), ' ') {
            Some(blank) => {
                assert(blank < line.len());
                let left = copy_range(line.as_slice(), 0, blank);
                let right = copy_range(line.as_slice(), blank + 1, line.len());
                match (parse_i32(left.as_slice()), parse_i32(right.as_slice())) {
                    (Some(x), Some(y)) => {
                        let half = div_toward_zero(x as i64, 2);
                        let odd = x as i64 - 2 * half;
                        let height = y as i64 - half - odd;
                        intercept(half as i32, height as i32)
                    },
                    _ => 0,
                }
            },
            None => 0,
        };
        total += rank;
        n += 1;
    }
    total
}

} // verus!
