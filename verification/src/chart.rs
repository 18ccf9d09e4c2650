//! Maps drawn in text: the places at which a character stands, in reading
//! order.

use crate::grid::{rows_view, Point};
use vstd::prelude::*;

verus! {

/// The drawing is no wider or higher than an `i32` can count.
pub open spec fn fits(rows: Seq<Seq<char>>) -> bool {
    &&& rows.len() <= i32::MAX
    &&& forall|y: int| 0 <= y < rows.len() ==> (#[trigger] rows[y]).len() <= i32::MAX
}

/// The places among the first `n` of row `y`, from the left, that hold `c`.
pub open spec fn row_cells(row: Seq<char>, y: int, c: char, n: nat) -> Seq<Point>
    decreases n,
{
    if n == 0 {
        Seq::empty()
    } else {
        let rest = row_cells(row, y, c, (n - 1) as nat);
        if row[n - 1] == c {
            rest.push(Point { x: (n - 1) as i32, y: y as i32 })
        } else {
            rest
        }
    }
}

/// The places in the first `m` rows that hold `c`, row by row from the top
/// and from the left in each row.
pub open spec fn cells(rows: Seq<Seq<char>>, c: char, m: nat) -> Seq<Point>
    decreases m,
{
    if m == 0 {
        Seq::empty()
    } else {
        cells(rows, c, (m - 1) as nat) + row_cells(rows[m - 1], m - 1, c, rows[m - 1].len())
    }
}

/// `rows` hold `c` at `p`.
pub open spec fn holds(rows: Seq<Seq<char>>, c: char, p: Point) -> bool {
    &&& 0 <= p.y < rows.len()
    &&& 0 <= p.x < rows[p.y as int].len()
    &&& rows[p.y as int][p.x as int] == c
}

/// What is listed as holding `c` in a row does so.
pub proof fn lemma_row_cells_hold(rows: Seq<Seq<char>>, y: int, c: char, n: nat, i: int)
    requires
        fits(rows),
        0 <= y < rows.len(),
        n <= rows[y].len(),
        0 <= i < row_cells(rows[y], y, c, n).len(),
    ensures
        holds(rows, c, row_cells(rows[y], y, c, n)[i]),
    decreases n,
{
    let rest = row_cells(rows[y], y, c, (n - 1) as nat);
    if i < rest.len() {
        lemma_row_cells_hold(rows, y, c, (n - 1) as nat, i);
    }
}

/// What is listed as holding `c` does so.
pub proof fn lemma_cells_hold(rows: Seq<Seq<char>>, c: char, m: nat, i: int)
    requires
        fits(rows),
        m <= rows.len(),
        0 <= i < cells(rows, c, m).len(),
    ensures
        holds(rows, c, cells(rows, c, m)[i]),
    decreases m,
{
    let above = cells(rows, c, (m - 1) as nat);
    if i < above.len() {
        lemma_cells_hold(rows, c, (m - 1) as nat, i);
    } else {
        lemma_row_cells_hold(rows, m - 1, c, rows[m - 1].len(), i - above.len());
    }
}

/// The places of `rows` that hold `c`, in reading order.
pub fn find_cells(rows: &Vec<Vec<char>>, c: char) -> (found: Vec<Point>)
    requires
        fits(rows_view(rows@)),
    ensures
        found@ == cells(rows_view(rows@), c, rows@.len()),
{
    let ghost drawn = rows_view(rows@);
    let mut found: Vec<Point> = Vec::new();
    let mut y: usize = 0;
    while y < rows.len()
        invariant
            y <= rows.len(),
            drawn == rows_view(rows@),
            fits(drawn),
            found@ == cells(drawn, c, y as nat),
        decreases rows.len() - y,
    {
        let row = &rows[y];
        let ghost above = found@;
        let mut x: usize = 0;
        proof {
            assert(drawn[y as int] == row@);
            assert(above + Seq::<Point>::empty() =~= above);
        }
        while x < row.len()
            invariant
                x <= row.len(),
                row@.len() <= i32::MAX,
                y < rows.len() <= i32::MAX,
                found@ == above + row_cells(row@, y as int, c, x as nat),
            decreases row.len() - x,
        {
            let ghost before = row_cells(row@, y as int, c, x as nat);
            if row[x] == c {
                found.push(Point::new(x as i32, y as i32));
                proof {
                    assert(above + before.push(Point { x: x as i32, y: y as i32 }) =~= (above
                        + before).push(Point { x: x as i32, y: y as i32 }));
                }
            }
            x += 1;
        }
        y += 1;
    }
    found
}

} // verus!
