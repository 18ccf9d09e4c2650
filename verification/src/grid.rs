//! Points on an integer lattice, compass directions and rectangular grids.

use crate::text::{chars_of, lines, split_lines};
use std::convert::Infallible;
use std::ops::{Add, AddAssign, Sub, SubAssign};
use std::str::FromStr;
use vstd::prelude::*;
use vstd::std_specs::iter::IteratorSpec;
use vstd::std_specs::convert::FromSpecImpl;
use vstd::std_specs::ops::{AddSpecImpl, SubSpecImpl};

verus! {

/// A 2D point with signed integer coordinates.
///
/// `x` is the column (increasing to the right) and `y` is the row
/// (increasing downward), so `grid[y][x]` is the cell at `(x, y)`.
#[derive(Copy, Clone, Debug, PartialEq, Eq, Hash, Ord, Structural)]
pub struct Point {
    pub x: i32,
    pub y: i32,
}

/// Cardinal directions useful for moving a `Point`.
#[derive(Copy, Clone, Debug, PartialEq, Eq, Structural)]
pub enum Compass {
    North,
    East,
    South,
    West,
}

/// Whether `v` can be held by an `i32`.
pub open spec fn fits_i32(v: int) -> bool {
    i32::MIN <= v <= i32::MAX
}

/// The absolute value of `v`.
pub open spec fn abs(v: int) -> int {
    if v < 0 {
        -v
    } else {
        v
    }
}

impl Compass {
    /// The unit step of this direction as `(dx, dy)`; `y` grows downward.
    pub open spec fn spec_delta(self) -> (int, int) {
        match self {
            Compass::North => (0, -1),
            Compass::East => (1, 0),
            Compass::South => (0, 1),
            Compass::West => (-1, 0),
        }
    }

    /// Delta vector for this compass direction as (dx, dy).
    /// Remember `y` increases downward for grid indexing.
    pub fn delta(&self) -> (d: (i32, i32))
        ensures
            (d.0 as int, d.1 as int) == self.spec_delta(),
    {
        match self {
            Compass::North => (0, -1),
            Compass::East => (1, 0),
            Compass::South => (0, 1),
            Compass::West => (-1, 0),
        }
    }
}

impl Point {
    /// The point `(self.x + dx, self.y + dy)`, where it has `i32` coordinates.
    pub open spec fn offset(self, dx: int, dy: int) -> Point
        recommends
            self.can_offset(dx, dy),
    {
        Point { x: (self.x + dx) as i32, y: (self.y + dy) as i32 }
    }

    /// Whether `(self.x + dx, self.y + dy)` has `i32` coordinates.
    pub open spec fn can_offset(self, dx: int, dy: int) -> bool {
        fits_i32(self.x + dx) && fits_i32(self.y + dy)
    }

    /// `|dx| + |dy|` between the two points, as a mathematical integer.
    pub open spec fn spec_manhattan_distance(self, other: Point) -> int {
        abs(self.x - other.x) + abs(self.y - other.y)
    }

    /// The point `n` steps away in direction `dir` (backwards for negative `n`).
    pub open spec fn spec_moved(self, dir: Compass, n: int) -> Point {
        self.offset(dir.spec_delta().0 * n, dir.spec_delta().1 * n)
    }

    /// Whether `moved(dir, n)` stays within `i32` arithmetic.
    pub open spec fn can_move(self, dir: Compass, n: int) -> bool {
        &&& fits_i32(dir.spec_delta().0 * n)
        &&& fits_i32(dir.spec_delta().1 * n)
        &&& self.can_offset(dir.spec_delta().0 * n, dir.spec_delta().1 * n)
    }

    /// Create a new `Point`.
    pub fn new(x: i32, y: i32) -> (p: Self)
        ensures
            p == (Point { x, y }),
    {
        Self { x, y }
    }

    /// The origin `(0, 0)`.
    pub fn zero() -> (p: Self)
        ensures
            p == (Point { x: 0, y: 0 }),
    {
        Self { x: 0, y: 0 }
    }

    /// Move one step north (up / y - 1).
    pub fn north(&self) -> (p: Self)
        requires
            self.can_offset(0, -1),
        ensures
            p == self.offset(0, -1),
    {
        Self::new(self.x, self.y - 1)
    }

    /// Move one step south (down / y + 1).
    pub fn south(&self) -> (p: Self)
        requires
            self.can_offset(0, 1),
        ensures
            p == self.offset(0, 1),
    {
        Self::new(self.x, self.y + 1)
    }

    /// Move one step east (right / x + 1).
    pub fn east(&self) -> (p: Self)
        requires
            self.can_offset(1, 0),
        ensures
            p == self.offset(1, 0),
    {
        Self::new(self.x + 1, self.y)
    }

    /// Move one step west (left / x - 1).
    pub fn west(&self) -> (p: Self)
        requires
            self.can_offset(-1, 0),
        ensures
            p == self.offset(-1, 0),
    {
        Self::new(self.x - 1, self.y)
    }

    /// The four orthogonal neighbours: north, east, south, west.
    pub open spec fn spec_neighbours4(self) -> Seq<Point> {
        seq![self.offset(0, -1), self.offset(1, 0), self.offset(0, 1), self.offset(-1, 0)]
    }

    /// The eight neighbours, clockwise from north: N, NE, E, SE, S, SW, W, NW.
    pub open spec fn spec_neighbours8(self) -> Seq<Point> {
        seq![
            self.offset(0, -1),
            self.offset(1, -1),
            self.offset(1, 0),
            self.offset(1, 1),
            self.offset(0, 1),
            self.offset(-1, 1),
            self.offset(-1, 0),
            self.offset(-1, -1),
        ]
    }

    /// Whether all neighbours of the point have `i32` coordinates.
    pub open spec fn has_neighbours(self) -> bool {
        self.can_offset(-1, -1) && self.can_offset(1, 1)
    }

    /// Return the 4 orthogonally adjacent points in NESW order.
    pub fn neighbours4(&self) -> (r: [Self; 4])
        requires
            self.has_neighbours(),
        ensures
            r@ == self.spec_neighbours4(),
    {
        let r = [self.north(), self.east(), self.south(), self.west()];
        assert(r@ =~= self.spec_neighbours4());
        r
    }

    /// Return the 8 adjacent points (N, NE, E, SE, S, SW, W, NW).
    pub fn neighbours8(&self) -> (r: [Self; 8])
        requires
            self.has_neighbours(),
        ensures
            r@ == self.spec_neighbours8(),
    {
        let r = [
            self.north(),
            Self::new(self.x + 1, self.y - 1),
            self.east(),
            Self::new(self.x + 1, self.y + 1),
            self.south(),
            Self::new(self.x - 1, self.y + 1),
            self.west(),
            Self::new(self.x - 1, self.y - 1),
        ];
        assert(r@ =~= self.spec_neighbours8());
        r
    }

    /// Manhattan distance from another point.
    pub fn manhattan_distance(&self, other: Point) -> (d: i32)
        requires
            self.spec_manhattan_distance(other) <= i32::MAX,
        ensures
            d == self.spec_manhattan_distance(other),
    {
        let dx: i32 = self.x - other.x;
        let dy: i32 = self.y - other.y;
        let ax: i32 = if dx < 0 { -dx } else { dx };
        let ay: i32 = if dy < 0 { -dy } else { dy };
        ax + ay
    }

    /// Move in a `Compass` direction by `n` steps (can be negative).
    pub fn moved(&self, dir: Compass, n: i32) -> (p: Self)
        requires
            self.can_move(dir, n as int),
        ensures
            p == self.spec_moved(dir, n as int),
    {
        let (dx, dy) = dir.delta();
        Self::new(self.x + dx * n, self.y + dy * n)
    }

    /// Move in a `Compass` direction by one step.
    pub fn step(&self, dir: Compass) -> (p: Self)
        requires
            self.can_move(dir, 1),
        ensures
            p == self.spec_moved(dir, 1),
    {
        self.moved(dir, 1)
    }

    /// Convert to a (x, y) tuple of i32.
    pub fn to_tuple(&self) -> (t: (i32, i32))
        ensures
            t == (self.x, self.y),
    {
        (self.x, self.y)
    }

    /// Whether the point names a cell of a grid `width` wide and `height` high.
    pub open spec fn within(self, width: nat, height: nat) -> bool {
        0 <= self.x < width && 0 <= self.y < height
    }

    /// Returns true if this point lies within the bounds of `grid`.
    /// Negative coordinates are out-of-bounds.
    pub fn in_bounds<T>(&self, grid: &Grid<T>) -> (b: bool)
        requires
            grid.wf(),
        ensures
            b == self.within(grid.spec_width(), grid.spec_height()),
    {
        if self.x < 0 || self.y < 0 {
            return false;
        }
        let x = self.x as usize;
        let y = self.y as usize;

        y < grid.height() && x < grid.width()
    }
}

/// The Manhattan distance is the same in both directions, is never
/// negative, and is zero between a point and itself only.
pub proof fn lemma_manhattan_distance(a: Point, b: Point)
    ensures
        a.spec_manhattan_distance(b) == b.spec_manhattan_distance(a),
        a.spec_manhattan_distance(b) >= 0,
        a.spec_manhattan_distance(b) == 0 <==> a == b,
{
}

/// Each of the four orthogonal neighbours of a point is at Manhattan
/// distance one from it, and no two of them are the same point.
pub proof fn lemma_neighbours4(p: Point)
    requires
        p.has_neighbours(),
    ensures
        p.spec_neighbours4().len() == 4,
        forall|i: int|
            0 <= i < 4 ==> (#[trigger] p.spec_neighbours4()[i]).spec_manhattan_distance(p) == 1,
        forall|i: int, j: int|
            0 <= i < j < 4 ==> #[trigger] p.spec_neighbours4()[i] != #[trigger] p.spec_neighbours4()[j],
{
}

/// Simple rectangular grid of cells, stored as `Vec<Vec<T>>`.
///
/// The grid is rectangular: every row has the same number of columns.
pub struct Grid<T> {
    data: Vec<Vec<T>>,
    width: usize,
    height: usize,
}

/// The rows of `rows` as sequences, top to bottom.
pub open spec fn rows_view<T>(rows: Seq<Vec<T>>) -> Seq<Seq<T>> {
    Seq::new(rows.len(), |i: int| rows[i]@)
}

/// Every row is as long as the first one.
pub open spec fn rectangular<T>(rows: Seq<Seq<T>>) -> bool {
    forall|i: int| 0 <= i < rows.len() ==> (#[trigger] rows[i]).len() == rows[0].len()
}

/// Rows of which one, shorter or longer, is not as long as the first are
/// not rectangular: `from_rows` takes no such rows, whichever row it is, and
/// `is_rectangular` tells them apart.
pub proof fn lemma_ragged_rows<T>(rows: Seq<Seq<T>>, i: int)
    requires
        0 <= i < rows.len(),
        rows[i].len() != rows[0].len(),
    ensures
        !rectangular(rows),
{
}

/// The length of the first row, or zero where there is no row.
pub open spec fn first_row_len<T>(rows: Seq<Seq<T>>) -> nat {
    if rows.len() == 0 {
        0
    } else {
        rows[0].len()
    }
}

impl<T> View for Grid<T> {
    type V = Seq<Seq<T>>;

    /// The rows of the grid, top to bottom.
    closed spec fn view(&self) -> Seq<Seq<T>> {
        rows_view(self.data@)
    }
}

impl<T> Grid<T> {
    /// The number of columns.
    pub closed spec fn spec_width(&self) -> nat {
        self.width as nat
    }

    /// The number of rows.
    pub closed spec fn spec_height(&self) -> nat {
        self.height as nat
    }

    /// The grid is rectangular and its extents are those of its rows.
    pub open spec fn wf(&self) -> bool {
        &&& rectangular(self@)
        &&& self.spec_height() == self@.len()
        &&& self.spec_width() == first_row_len(self@)
    }

    /// The cell at `p`, or `None` where `p` lies outside the grid.
    pub open spec fn spec_at(&self, p: Point) -> Option<T> {
        if p.within(self.spec_width(), self.spec_height()) {
            Some(self@[p.y as int][p.x as int])
        } else {
            None
        }
    }

    /// Whether `from_rows` accepts `rows`: all rows are equally long.
    pub fn is_rectangular(rows: &Vec<Vec<T>>) -> (b: bool)
        ensures
            b == rectangular(rows_view(rows@)),
    {
        let mut i: usize = 0;
        while i < rows.len()
            invariant
                i <= rows.len(),
                forall|j: int| 0 <= j < i ==> (#[trigger] rows_view(rows@)[j]).len() == rows_view(rows@)[0].len(),
            decreases rows.len() - i,
        {
            if rows[i].len() != rows[0].len() {
                assert(rows_view(rows@)[i as int].len() != rows_view(rows@)[0].len());
                return false;
            }
            i += 1;
        }
        true
    }

    /// Construct a grid from rows, which must all have the same length.
    /// An empty list of rows gives a grid of width and height zero.
    pub fn from_rows(rows: Vec<Vec<T>>) -> (g: Self)
        requires
            rectangular(rows_view(rows@)),
        ensures
            g.wf(),
            g@ == rows_view(rows@),
    {
        let height = rows.len();
        let width = if height > 0 { rows[0].len() } else { 0 };
        Self { data: rows, width, height }
    }

    /// Height (number of rows)
    pub fn height(&self) -> (h: usize)
        ensures
            h == self.spec_height(),
    {
        self.height
    }

    /// Width (number of columns)
    pub fn width(&self) -> (w: usize)
        ensures
            w == self.spec_width(),
    {
        self.width
    }

    /// Immutable access by `Point`. Returns `None` if the point is negative or
    /// outside the grid bounds.
    pub fn at(&self, p: Point) -> (r: Option<&T>)
        requires
            self.wf(),
        ensures
            r == match self.spec_at(p) {
                Some(v) => Some(&v),
                None => None,
            },
    {
        if p.x < 0 || p.y < 0 {
            return None;
        }
        let x = p.x as usize;
        let y = p.y as usize;

        if y < self.height && x < self.width {
            assert(self@[y as int].len() == self@[0].len());
            Some(&self.data[y][x])
        } else {
            None
        }
    }

    /// The rows after the cell at `p` has been given the value `v`.
    pub open spec fn with_cell(&self, p: Point, v: T) -> Seq<Seq<T>>
        recommends
            p.within(self.spec_width(), self.spec_height()),
    {
        self@.update(p.y as int, self@[p.y as int].update(p.x as int, v))
    }

    /// Mutable access by `Point`: `None` if the point is negative or outside
    /// the grid bounds. Writing through the reference changes that one cell.
    pub fn at_mut(&mut self, p: Point) -> (r: Option<&mut T>)
        requires
            old(self).wf(),
        ensures
            final(self).wf(),
            final(self).spec_width() == old(self).spec_width(),
            final(self).spec_height() == old(self).spec_height(),
            match r {
                Some(cell) => old(self).spec_at(p) == Some(*cell) && final(self)@ == old(
                    self,
                ).with_cell(p, *final(cell)),
                None => old(self).spec_at(p) is None && final(self)@ == old(self)@,
            },
    {
        if p.x < 0 || p.y < 0 {
            return None;
        }
        let x = p.x as usize;
        let y = p.y as usize;

        if y < self.height && x < self.width {
            assert(self@[y as int].len() == self@[0].len());
            let cell = &mut self.data[y][x];
            proof {
                let before = old(self)@;
                let after = before.update(y as int, before[y as int].update(x as int, *final(cell)));
                assert(rows_view(after_borrow(self.data)@) =~= after);
                assert forall|i: int| 0 <= i < after.len() implies (#[trigger] after[i]).len()
                    == after[0].len() by {
                    assert(before[i].len() == before[0].len());
                }
            }
            Some(cell)
        } else {
            None
        }
    }
}

impl From<(i32, i32)> for Point {
    /// The point `(x, y)` of the pair `(x, y)`.
    fn from(t: (i32, i32)) -> (p: Self) {
        Self::new(t.0, t.1)
    }
}

impl FromSpecImpl<(i32, i32)> for Point {
    open spec fn obeys_from_spec() -> bool {
        true
    }

    open spec fn from_spec(t: (i32, i32)) -> Self {
        Point { x: t.0, y: t.1 }
    }
}

impl From<Point> for (i32, i32) {
    /// The pair `(x, y)` of the point `(x, y)`.
    fn from(p: Point) -> (t: Self) {
        (p.x, p.y)
    }
}

impl FromSpecImpl<Point> for (i32, i32) {
    open spec fn obeys_from_spec() -> bool {
        true
    }

    open spec fn from_spec(p: Point) -> Self {
        (p.x, p.y)
    }
}

impl Add for Point {
    type Output = Point;

    /// The sum, coordinate by coordinate; both sums must be within `i32`.
    fn add(self, rhs: Point) -> (p: Point) {
        Point::new(self.x + rhs.x, self.y + rhs.y)
    }
}

impl AddSpecImpl for Point {
    open spec fn obeys_add_spec() -> bool {
        true
    }

    open spec fn add_req(self, rhs: Point) -> bool {
        self.can_offset(rhs.x as int, rhs.y as int)
    }

    open spec fn add_spec(self, rhs: Point) -> Point {
        self.offset(rhs.x as int, rhs.y as int)
    }
}

impl Sub for Point {
    type Output = Point;

    /// The difference, coordinate by coordinate; both must be within `i32`.
    fn sub(self, rhs: Point) -> (p: Point) {
        Point::new(self.x - rhs.x, self.y - rhs.y)
    }
}

impl SubSpecImpl for Point {
    open spec fn obeys_sub_spec() -> bool {
        true
    }

    open spec fn sub_req(self, rhs: Point) -> bool {
        self.can_offset(-rhs.x, -rhs.y)
    }

    open spec fn sub_spec(self, rhs: Point) -> Point {
        self.offset(-rhs.x, -rhs.y)
    }
}

impl AddAssign for Point {
    /// Adds `rhs`, coordinate by coordinate.
    fn add_assign(&mut self, rhs: Point)
        requires
            old(self).can_offset(rhs.x as int, rhs.y as int),
        ensures
            *final(self) == old(self).offset(rhs.x as int, rhs.y as int),
    {
        self.x += rhs.x;
        self.y += rhs.y;
    }
}

impl SubAssign for Point {
    /// Subtracts `rhs`, coordinate by coordinate.
    fn sub_assign(&mut self, rhs: Point)
        requires
            old(self).can_offset(-rhs.x, -rhs.y),
        ensures
            *final(self) == old(self).offset(-rhs.x, -rhs.y),
    {
        self.x -= rhs.x;
        self.y -= rhs.y;
    }
}

impl<T> Grid<T> {
    /// Borrowing iterator over the rows, top to bottom.
    pub fn rows(&self) -> (it: std::slice::Iter<'_, Vec<T>>)
        ensures
            it.remaining().len() == self@.len(),
            forall|i: int| 0 <= i < self@.len() ==> (#[trigger] it.remaining()[i])@ == self@[i],
    {
        let it = self.data.iter();
        it
    }

    /// The rows as mutable slices, top to bottom. What is written through
    /// them is what the grid holds afterwards; a slice keeps its length, so
    /// the grid stays rectangular.
    pub fn rows_mut(&mut self) -> (rows: Vec<&mut [T]>)
        requires
            old(self).wf(),
        ensures
            rows@.len() == old(self)@.len(),
            forall|i: int| 0 <= i < rows@.len() ==> rows@[i]@ == #[trigger] old(self)@[i],
            final(self)@.len() == old(self)@.len(),
            forall|i: int| 0 <= i < rows@.len() ==> #[trigger] final(self)@[i] == final(rows@[i])@,
            final(self).spec_width() == old(self).spec_width(),
            final(self).spec_height() == old(self).spec_height(),
    {
        let mut out: Vec<&mut [T]> = Vec::new();
        let ghost n = self.data@.len();
        let mut rest: &mut [Vec<T>] = self.data.as_mut_slice();
        proof {
            assert(after_borrow(self.data)@.skip(0) =~= after_borrow(self.data)@);
            assert(old(self).data@.skip(0) =~= old(self).data@);
        }
        while rest.len() > 0
            invariant
                out@.len() <= after_borrow(self.data)@.len(),
                after_borrow(self.data)@.skip(out@.len() as int) == final(rest)@,
                out@.len() + rest@.len() == n,
                n == old(self).data@.len(),
                rest@ == old(self).data@.skip(out@.len() as int),
                forall|i: int|
                    0 <= i < out@.len() ==> out@[i]@ == (#[trigger] old(self).data@[i])@,
                forall|i: int|
                    0 <= i < out@.len() ==> (#[trigger] after_borrow(self.data)@[i])@
                        == final(out@[i])@,
            decreases rest.len(),
        {
            let ghost k = out@.len() as int;
            let ghost rest_final = final(rest)@;
            let (head, tail) = rest.split_at_mut(1);
            let ghost head_final = final(head)@;
            let ghost tail_final = final(tail)@;
            let row: &mut Vec<T> = &mut head[0];
            let ghost row_final = *final(row);
            out.push(row.as_mut_slice());
            proof {
                let after = after_borrow(self.data)@;
                assert(head_final =~= seq![row_final]);
                assert(rest_final == head_final + tail_final);
                assert(after.skip(k).len() == after.len() - k);
                assert(after.skip(k)[0] == row_final);
                assert(rest_final.skip(1) =~= tail_final);
                assert(after.skip(k).skip(1) =~= after.skip(k + 1));
                assert(out@[k]@ == old(self).data@[k]@);
                assert(tail@ =~= old(self).data@.skip(k + 1));
            }
            rest = tail;
        }
        out
    }

    /// A grid whose rows have kept their lengths under `rows_mut` is
    /// rectangular as before.
    pub proof fn lemma_same_shape(&self, before: &Grid<T>)
        requires
            before.wf(),
            self@.len() == before@.len(),
            forall|i: int| 0 <= i < self@.len() ==> (#[trigger] self@[i]).len() == before@[i].len(),
            self.spec_width() == before.spec_width(),
            self.spec_height() == before.spec_height(),
        ensures
            self.wf(),
    {
        assert forall|i: int| 0 <= i < self@.len() implies (#[trigger] self@[i]).len()
            == self@[0].len() by {
            assert(before@[i].len() == before@[0].len());
        }
    }
}

impl<T> IntoIterator for Grid<T> {
    type Item = Vec<T>;

    type IntoIter = std::vec::IntoIter<Vec<T>>;

    /// The rows, top to bottom.
    fn into_iter(self) -> (it: Self::IntoIter)
        ensures
            rows_view(it.remaining()) == self@,
    {
        self.data.into_iter()
    }
}

impl<'a, T> IntoIterator for &'a Grid<T> {
    type Item = &'a Vec<T>;

    type IntoIter = std::slice::Iter<'a, Vec<T>>;

    /// The rows, top to bottom.
    fn into_iter(self) -> (it: Self::IntoIter)
        ensures
            it.remaining().len() == self@.len(),
            forall|i: int| 0 <= i < self@.len() ==> (#[trigger] it.remaining()[i])@ == self@[i],
    {
        self.data.iter()
    }
}

impl FromStr for Grid<char> {
    type Err = Infallible;

    /// Parse a string where each line is a row and each char is a cell.
    /// The lines must all have the same length.
    fn from_str(s: &str) -> (r: Result<Self, Infallible>)
        requires
            rectangular(lines(s@)),
        ensures
            r matches Ok(g) && g.wf() && g@ == lines(s@),
    {
        let text = chars_of(s);
        let rows = split_lines(&text);
        Ok(Self::from_rows(rows))
    }
}

} // verus!
