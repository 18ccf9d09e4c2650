//! A plant that grows in space, one segment at a time: how high it gets,
//! how many segments it has, and from where on its trunk its leaves are
//! nearest.

use crate::flood::{flood_lists, lists_closed, lists_view, step_graph};
use crate::grid::{fits_i32, rows_view, Point};
use crate::point_map::PointMap;
use crate::text::{
    chars_of, copy_range, lines, parse_i32, spec_parse_i32, split, split_at, split_lines,
};
use crate::walks::{shortest, Adjacency};
use std::collections::HashMap;
use vstd::prelude::*;
use vstd::std_specs::hash::group_hash_axioms;

verus! {

broadcast use group_hash_axioms;

/// A point in space with signed integer coordinates; `y` is the height.
#[derive(Copy, Clone, Debug, PartialEq, Eq, Hash, Structural)]
pub struct Point3D {
    pub x: i32,
    pub y: i32,
    pub z: i32,
}

/// The six directions in which a plant grows.
#[derive(Clone, Copy, Debug, PartialEq, Eq, Structural)]
pub enum Direction3D {
    Left,
    Right,
    Up,
    Down,
    Forwards,
    Backwards,
}

/// One step of growth: a direction and a number of segments.
#[derive(Clone, Copy, Debug)]
pub struct Instruction {
    pub direction: Direction3D,
    pub steps: i32,
}

impl Direction3D {
    /// The step of one segment in this direction, as `(dx, dy, dz)`.
    pub open spec fn spec_delta(self) -> (int, int, int) {
        match self {
            Direction3D::Left => (-1, 0, 0),
            Direction3D::Right => (1, 0, 0),
            Direction3D::Up => (0, 1, 0),
            Direction3D::Down => (0, -1, 0),
            Direction3D::Forwards => (0, 0, 1),
            Direction3D::Backwards => (0, 0, -1),
        }
    }

    /// The step of one segment in this direction.
    pub fn delta(&self) -> (d: Point3D)
        ensures
            (d.x as int, d.y as int, d.z as int) == self.spec_delta(),
    {
        match self {
            Direction3D::Left => Point3D { x: -1, y: 0, z: 0 },
            Direction3D::Right => Point3D { x: 1, y: 0, z: 0 },
            Direction3D::Up => Point3D { x: 0, y: 1, z: 0 },
            Direction3D::Down => Point3D { x: 0, y: -1, z: 0 },
            Direction3D::Forwards => Point3D { x: 0, y: 0, z: 1 },
            Direction3D::Backwards => Point3D { x: 0, y: 0, z: -1 },
        }
    }
}

/// The direction that the letter `c` names.
pub open spec fn direction_of(c: char) -> Option<Direction3D> {
    if c == 'L' {
        Some(Direction3D::Left)
    } else if c == 'R' {
        Some(Direction3D::Right)
    } else if c == 'U' {
        Some(Direction3D::Up)
    } else if c == 'D' {
        Some(Direction3D::Down)
    } else if c == 'F' {
        Some(Direction3D::Forwards)
    } else if c == 'B' {
        Some(Direction3D::Backwards)
    } else {
        None
    }
}

/// A point of space as a mathematical value.
pub type Place = (int, int, int);

/// The place `n` segments from `p` in the direction `d`.
pub open spec fn moved(p: Place, d: Direction3D, n: int) -> Place {
    (p.0 + d.spec_delta().0 * n, p.1 + d.spec_delta().1 * n, p.2 + d.spec_delta().2 * n)
}

/// The place of the point `p`.
pub open spec fn place_of(p: Point3D) -> Place {
    (p.x as int, p.y as int, p.z as int)
}

/// The place `p` has coordinates that an `i32` holds.
pub open spec fn in_space(p: Place) -> bool {
    fits_i32(p.0) && fits_i32(p.1) && fits_i32(p.2)
}

/// One step of growth as plain values: the direction and the number of
/// segments.
pub type Growth = (Direction3D, int);

/// The step of growth that `word` writes: the letter of a direction and a
/// number.
pub open spec fn growth_of(word: Seq<char>) -> Option<Growth> {
    if word.len() == 0 {
        None
    } else {
        match (direction_of(word[0]), spec_parse_i32(word.drop_first())) {
            (Some(d), Some(n)) => Some((d, n as int)),
            _ => None,
        }
    }
}

/// Every word of `line`, between its commas, writes a step of growth.
pub open spec fn writes_growth(line: Seq<char>) -> bool {
    forall|i: int|
        0 <= i < split(line, ',').len() ==> growth_of(#[trigger] split(line, ',')[i]) is Some
}

/// The steps of growth that `line` lists.
pub open spec fn growths_of(line: Seq<char>) -> Seq<Growth> {
    Seq::new(split(line, ',').len(), |i: int| growth_of(split(line, ',')[i]).unwrap())
}

/// The steps `steps` as plain values.
pub open spec fn growths_view(steps: Seq<Instruction>) -> Seq<Growth> {
    Seq::new(steps.len(), |i: int| (steps[i].direction, steps[i].steps as int))
}

/// Reads the steps of growth that `line` lists, with commas between them.
pub fn parse_growths(line: &[char]) -> (steps: Vec<Instruction>)
    requires
        writes_growth(line@),
    ensures
        growths_view(steps@) == growths_of(line@),
{
    let words = split_at(line, ',');
    let ghost written = split(line@, ',');
    let mut steps: Vec<Instruction> = Vec::new();
    let mut i: usize = 0;
    while i < words.len()
        invariant
            i <= words.len(),
            written == rows_view(words@),
            written == split(line@, ','),
            writes_growth(line@),
            steps@.len() == i,
            forall|j: int|
                0 <= j < i ==> ((#[trigger] steps@[j]).direction, steps@[j].steps as int)
                    == growth_of(written[j]).unwrap(),
        decreases words.len() - i,
    {
        let word = &words[i];
        proof {
            assert(written[i as int] == word@);
            assert(growth_of(written[i as int]) is Some);
        }
        let c = word[0];
        let direction = if c == 'L' {
            Direction3D::Left
        } else if c == 'R' {
            Direction3D::Right
        } else if c == 'U' {
            Direction3D::Up
        } else if c == 'D' {
            Direction3D::Down
        } else if c == 'F' {
            Direction3D::Forwards
        } else {
            Direction3D::Backwards
        };
        let number = copy_range(word.as_slice(), 1, word.len());
        proof {
            assert(number@ =~= word@.drop_first());
        }
        match parse_i32(number.as_slice()) {
            Some(n) => steps.push(Instruction { direction, steps: n }),
            None => {},
        }
        i += 1;
    }
    proof {
        assert(growths_view(steps@) =~= growths_of(line@));
    }
    steps
}

/// Where the plant has grown to after the first `n` of `steps`.
pub open spec fn tip(steps: Seq<Growth>, n: nat) -> Place
    decreases n,
{
    if n == 0 {
        (0, 0, 0)
    } else {
        moved(tip(steps, (n - 1) as nat), steps[n - 1].0, steps[n - 1].1)
    }
}

/// The height `y` as the `u32` that it is taken for: itself, or for a
/// height below zero what an `i32` of that value is as a `u32`.
pub open spec fn height_as_u32(y: int) -> int {
    if y >= 0 {
        y
    } else {
        y + 0x1_0000_0000
    }
}

/// The greatest height that the plant has after one of the first `n` of
/// `steps` that goes up.
pub open spec fn highest(steps: Seq<Growth>, n: nat) -> int
    decreases n,
{
    if n == 0 {
        0
    } else {
        let before = highest(steps, (n - 1) as nat);
        let here = height_as_u32(tip(steps, n).1);
        if steps[n - 1].0 == Direction3D::Up && here > before {
            here
        } else {
            before
        }
    }
}

/// Every tip and every step of the first `n` steps is within `i32`.
pub open spec fn grows_in_space(steps: Seq<Growth>, n: nat) -> bool {
    forall|k: nat|
        1 <= k <= n ==> in_space(#[trigger] tip(steps, k)) && steps[k - 1].1 > i32::MIN
}

/// The point `n` segments from `p` in the direction `d`.
fn grown(p: Point3D, d: Direction3D, n: i32) -> (q: Point3D)
    requires
        in_space(moved(place_of(p), d, n as int)),
        n > i32::MIN,
    ensures
        place_of(q) == moved(place_of(p), d, n as int),
{
    let delta = d.delta();
    Point3D { x: p.x + delta.x * n, y: p.y + delta.y * n, z: p.z + delta.z * n }
}

/// The greatest height that the plant has after a step of growth upwards,
/// of the steps that `input` lists.
pub fn part1(input: &str) -> (r: u32)
    requires
        writes_growth(input@),
        grows_in_space(growths_of(input@), growths_of(input@).len()),
    ensures
        r == highest(growths_of(input@), growths_of(input@).len()),
{
    let text = chars_of(input);
    let steps = parse_growths(text.as_slice());
    let ghost plan = growths_of(input@);
    let mut point = Point3D { x: 0, y: 0, z: 0 };
    let mut top: u32 = 0;
    let mut n: usize = 0;
    while n < steps.len()
        invariant
            n <= steps.len(),
            plan == growths_view(steps@),
            grows_in_space(plan, plan.len()),
            place_of(point) == tip(plan, n as nat),
            top == highest(plan, n as nat),
        decreases steps.len() - n,
    {
        let instruction = steps[n];
        proof {
            assert(plan[n as int] == (instruction.direction, instruction.steps as int));
            assert(in_space(tip(plan, (n + 1) as nat)));
        }
        point = grown(point, instruction.direction, instruction.steps);
        if instruction.direction == Direction3D::Up {
            let here: u32 = if point.y >= 0 {
                point.y as u32
            } else {
                (point.y as i64 + 0x1_0000_0000) as u32
            };
            if here > top {
                top = here;
            }
        }
        n += 1;
    }
    top
}

/// The code of a point of space: its coordinates shifted to be
/// non-negative and laid side by side.
pub open spec fn spec_code(p: Point3D) -> u128 {
    (((p.x + 0x8000_0000) * 0x1_0000_0000 + (p.y + 0x8000_0000)) * 0x1_0000_0000 + (p.z
        + 0x8000_0000)) as u128
}

/// A number is split into its part above 32 bits and its 32 bits below in
/// one way only.
proof fn lemma_split(q1: int, r1: int, q2: int, r2: int)
    requires
        0 <= r1 < 0x1_0000_0000,
        0 <= r2 < 0x1_0000_0000,
        q1 * 0x1_0000_0000 + r1 == q2 * 0x1_0000_0000 + r2,
    ensures
        q1 == q2,
        r1 == r2,
{
    if q1 < q2 {
        assert(q1 * 0x1_0000_0000 + 0x1_0000_0000 <= q2 * 0x1_0000_0000);
    }
    if q2 < q1 {
        assert(q2 * 0x1_0000_0000 + 0x1_0000_0000 <= q1 * 0x1_0000_0000);
    }
}

/// Different points have different codes.
pub proof fn lemma_code_injective(a: Point3D, b: Point3D)
    ensures
        spec_code(a) == spec_code(b) <==> a == b,
{
    if spec_code(a) == spec_code(b) {
        let ax = a.x + 0x8000_0000;
        let ay = a.y + 0x8000_0000;
        let az = a.z + 0x8000_0000;
        let bx = b.x + 0x8000_0000;
        let by = b.y + 0x8000_0000;
        let bz = b.z + 0x8000_0000;
        assert(0 <= ax * 0x1_0000_0000 + ay < 0x1_0000_0000_0000_0000);
        assert(0 <= bx * 0x1_0000_0000 + by < 0x1_0000_0000_0000_0000);
        assert(spec_code(a) == (ax * 0x1_0000_0000 + ay) * 0x1_0000_0000 + az);
        assert(spec_code(b) == (bx * 0x1_0000_0000 + by) * 0x1_0000_0000 + bz);
        lemma_split(ax * 0x1_0000_0000 + ay, az, bx * 0x1_0000_0000 + by, bz);
        lemma_split(ax, ay, bx, by);
    }
}

/// The code of `p`.
fn code(p: Point3D) -> (k: u128)
    ensures
        k == spec_code(p),
{
    let x: u128 = (p.x as i64 + 0x8000_0000) as u128;
    let y: u128 = (p.y as i64 + 0x8000_0000) as u128;
    let z: u128 = (p.z as i64 + 0x8000_0000) as u128;
    (x * 0x1_0000_0000 + y) * 0x1_0000_0000 + z
}

/// The points of space that have been come by, each once, in the order in
/// which they were first come by; each has its place in that order.
pub struct Registry {
    index: HashMap<u128, usize>,
    points: Vec<Point3D>,
}

/// `seen` with `p` at its end, unless `p` is in it.
pub open spec fn with_point(seen: Seq<Point3D>, p: Point3D) -> Seq<Point3D> {
    if seen.contains(p) {
        seen
    } else {
        seen.push(p)
    }
}

impl View for Registry {
    type V = Seq<Point3D>;

    /// The points, in the order in which they were first come by.
    closed spec fn view(&self) -> Seq<Point3D> {
        self.points@
    }
}

impl Registry {
    /// The places kept are the places of the points.
    pub closed spec fn wf(&self) -> bool {
        &&& forall|i: int|
            0 <= i < self.points@.len() ==> self.index@.contains_key(
                spec_code(#[trigger] self.points@[i]),
            ) && self.index@[spec_code(self.points@[i])] == i
        &&& forall|k: u128| #[trigger]
            self.index@.contains_key(k) ==> self.index@[k] < self.points@.len() && spec_code(
                self.points@[self.index@[k] as int],
            ) == k
    }

    /// No points yet.
    pub fn new() -> (r: Self)
        ensures
            r.wf(),
            r@ == Seq::<Point3D>::empty(),
    {
        Registry { index: HashMap::new(), points: Vec::new() }
    }

    /// No point is kept twice.
    pub proof fn lemma_no_duplicates(&self)
        requires
            self.wf(),
        ensures
            forall|i: int, j: int|
                0 <= i < self@.len() && 0 <= j < self@.len() && self@[i] == self@[j] ==> i == j,
    {
        assert forall|i: int, j: int|
            0 <= i < self@.len() && 0 <= j < self@.len() && self@[i] == self@[j] implies i
            == j by {
            assert(self.index@[spec_code(self.points@[i])] == i);
            assert(self.index@[spec_code(self.points@[j])] == j);
        }
    }

    /// How many points there are.
    pub fn len(&self) -> (n: usize)
        ensures
            n == self@.len(),
    {
        self.points.len()
    }

    /// The point at place `i`.
    pub fn get(&self, i: usize) -> (p: Point3D)
        requires
            i < self@.len(),
        ensures
            p == self@[i as int],
    {
        self.points[i]
    }

    /// The place of `p`, if it is among the points.
    pub fn find(&self, p: Point3D) -> (r: Option<usize>)
        requires
            self.wf(),
        ensures
            match r {
                Some(i) => i < self@.len() && self@[i as int] == p,
                None => !self@.contains(p),
            },
    {
        let k = code(p);
        match self.index.get(&k) {
            Some(i) => {
                proof {
                    lemma_code_injective(self.points@[*i as int], p);
                }
                Some(*i)
            },
            None => {
                proof {
                    if self@.contains(p) {
                        let i = choose|i: int| 0 <= i < self@.len() && self@[i] == p;
                        assert(self.index@.contains_key(spec_code(self.points@[i])));
                    }
                }
                None
            },
        }
    }

    /// Takes `p` in, unless it is among the points already; its place.
    pub fn add(&mut self, p: Point3D) -> (r: usize)
        requires
            old(self).wf(),
        ensures
            final(self).wf(),
            final(self)@ == with_point(old(self)@, p),
            r < final(self)@.len(),
            final(self)@[r as int] == p,
    {
        match self.find(p) {
            Some(i) => {
                proof {
                    assert(self@.contains(p));
                }
                i
            },
            None => {
                let k = code(p);
                let at = self.points.len();
                self.index.insert(k, at);
                self.points.push(p);
                proof {
                    assert forall|i: int| 0 <= i < self.points@.len() implies self.index@.contains_key(
                        spec_code(#[trigger] self.points@[i]),
                    ) && self.index@[spec_code(self.points@[i])] == i by {
                        if i < at {
                            assert(self.points@[i] == old(self).points@[i]);
                            lemma_code_injective(self.points@[i], p);
                            assert(old(self)@.contains(self.points@[i]));
                        }
                    }
                    assert forall|c: u128| #[trigger] self.index@.contains_key(c) implies self.index@[c]
                        < self.points@.len() && spec_code(self.points@[self.index@[c] as int])
                        == c by {
                        if c != k {
                            assert(old(self).index@.contains_key(c));
                            assert(self.points@[old(self).index@[c] as int] == old(
                                self,
                            ).points@[old(self).index@[c] as int]);
                        }
                    }
                }
                at
            },
        }
    }
}

/// Every one of `points` and all places next to it are in space.
pub open spec fn all_inside(points: Seq<Point3D>) -> bool {
    forall|i: int| 0 <= i < points.len() ==> inside(place_of(#[trigger] points[i]))
}

/// The point of the place `p`, which is in space.
pub open spec fn point_at(p: Place) -> Point3D {
    Point3D { x: p.0 as i32, y: p.1 as i32, z: p.2 as i32 }
}

/// How many segments the step `g` adds: none if its number is negative.
pub open spec fn segments_of(g: Growth) -> nat {
    if g.1 > 0 {
        g.1 as nat
    } else {
        0
    }
}

/// Where the plant has grown to, segment by segment, after the first `n`
/// of `steps`; a step with a negative number adds no segment.
pub open spec fn end_of(steps: Seq<Growth>, n: nat) -> Place
    decreases n,
{
    if n == 0 {
        (0, 0, 0)
    } else {
        moved(end_of(steps, (n - 1) as nat), steps[n - 1].0, segments_of(steps[n - 1]) as int)
    }
}

/// Going on by one segment.
pub proof fn lemma_moved_on(p: Place, d: Direction3D, k: int)
    ensures
        moved(moved(p, d, k), d, 1) == moved(p, d, k + 1),
        moved(p, d, 0) == p,
{
    match d {
        Direction3D::Left => {},
        Direction3D::Right => {},
        Direction3D::Up => {},
        Direction3D::Down => {},
        Direction3D::Forwards => {},
        Direction3D::Backwards => {},
    }
}

/// The places that the plant has passed after the first `n` of `steps`
/// and `k` segments of the next, in the order of its growth.
pub open spec fn trail(steps: Seq<Growth>, n: nat, k: nat) -> Seq<Place>
    decreases n, k,
{
    if k > 0 {
        trail(steps, n, (k - 1) as nat).push(moved(end_of(steps, n), steps[n as int].0, k as int))
    } else if n > 0 {
        trail(steps, (n - 1) as nat, segments_of(steps[n - 1]))
    } else {
        Seq::empty()
    }
}

/// `seen` with each of the first `n` of `places` taken in that is not in
/// it.
pub open spec fn gather(seen: Seq<Point3D>, places: Seq<Place>, n: nat) -> Seq<Point3D>
    decreases n,
{
    if n == 0 {
        seen
    } else {
        with_point(gather(seen, places, (n - 1) as nat), point_at(places[n - 1]))
    }
}

/// The whole trail of the steps `steps`.
pub open spec fn whole_trail(steps: Seq<Growth>) -> Seq<Place> {
    trail(steps, steps.len(), 0)
}

/// The segments of the plants that the first `m` lines of `rows` let
/// grow from the same root, each once, in the order of their growth.
pub open spec fn segments(rows: Seq<Seq<char>>, m: nat) -> Seq<Point3D>
    decreases m,
{
    if m == 0 {
        Seq::empty()
    } else {
        gather(
            segments(rows, (m - 1) as nat),
            whole_trail(growths_of(rows[m - 1])),
            whole_trail(growths_of(rows[m - 1])).len(),
        )
    }
}

/// Every place that the plant passes while it grows by `steps` lies
/// strictly within the space of `i32` coordinates, so that all places
/// around it are in space too.
pub open spec fn trail_in_space(steps: Seq<Growth>) -> bool {
    forall|i: int|
        0 <= i < whole_trail(steps).len() ==> inside(#[trigger] whole_trail(steps)[i])
}

/// The place `p` and all places next to it are in space.
pub open spec fn inside(p: Place) -> bool {
    &&& i32::MIN < p.0 < i32::MAX
    &&& i32::MIN < p.1 < i32::MAX
    &&& i32::MIN < p.2 < i32::MAX
}

/// Every line of `rows` lists steps of growth that stay inside space.
pub open spec fn plants_drawn(rows: Seq<Seq<char>>) -> bool {
    forall|i: int|
        0 <= i < rows.len() ==> writes_growth(#[trigger] rows[i]) && trail_in_space(
            growths_of(rows[i]),
        )
}

/// What has been passed before is passed.
pub proof fn lemma_trail_grows(steps: Seq<Growth>, n: nat, k: nat, i: int)
    requires
        n < steps.len() || (n == steps.len() && k == 0),
        n < steps.len() ==> k <= segments_of(steps[n as int]),
        0 <= i < trail(steps, n, k).len(),
    ensures
        trail(steps, n, k).len() <= whole_trail(steps).len(),
        whole_trail(steps)[i] == trail(steps, n, k)[i],
    decreases steps.len() - n, (if n < steps.len() {
            segments_of(steps[n as int]) - k
        } else {
            0
        }),
{
    if n < steps.len() {
        if k < segments_of(steps[n as int]) {
            lemma_trail_grows(steps, n, k + 1, i);
        } else {
            lemma_trail_grows(steps, n + 1, 0, i);
        }
    }
}

/// Takes into `segments` every segment of the plant that grows by the
/// steps that `line` lists; the tip of the plant at the end.
fn grow(segments: &mut Registry, line: &[char]) -> (end: Point3D)
    requires
        old(segments).wf(),
        writes_growth(line@),
        trail_in_space(growths_of(line@)),
    ensures
        final(segments).wf(),
        final(segments)@ == gather(
            old(segments)@,
            whole_trail(growths_of(line@)),
            whole_trail(growths_of(line@)).len(),
        ),
        place_of(end) == end_of(growths_of(line@), growths_of(line@).len()),
        all_inside(old(segments)@) ==> all_inside(final(segments)@),
{
    let steps = parse_growths(line);
    let ghost plan = growths_of(line@);
    let ghost before = segments@;
    let mut point = Point3D { x: 0, y: 0, z: 0 };
    let mut n: usize = 0;
    while n < steps.len()
        invariant
            n <= steps.len(),
            plan == growths_view(steps@),
            trail_in_space(plan),
            segments.wf(),
            place_of(point) == end_of(plan, n as nat),
            segments@ == gather(before, trail(plan, n as nat, 0), trail(plan, n as nat, 0).len()),
            all_inside(before) ==> all_inside(segments@),
        decreases steps.len() - n,
    {
        let instruction = steps[n];
        proof {
            assert(plan[n as int] == (instruction.direction, instruction.steps as int));
        }
        let ghost base = point;
        proof {
            lemma_moved_on(place_of(base), instruction.direction, 0);
        }
        let mut k: i32 = 0;
        while k < instruction.steps
            invariant
                0 <= k,
                k <= instruction.steps || instruction.steps < 0,
                instruction.steps < 0 ==> k == 0,
                n < steps.len(),
                plan == growths_view(steps@),
                plan[n as int] == (instruction.direction, instruction.steps as int),
                trail_in_space(plan),
                segments.wf(),
                place_of(base) == end_of(plan, n as nat),
                place_of(point) == moved(place_of(base), instruction.direction, k as int),
                segments@ == gather(
                    before,
                    trail(plan, n as nat, k as nat),
                    trail(plan, n as nat, k as nat).len(),
                ),
                all_inside(before) ==> all_inside(segments@),
            decreases instruction.steps - k,
        {
            let ghost passed = trail(plan, n as nat, k as nat);
            let ghost longer = trail(plan, n as nat, (k + 1) as nat);
            proof {
                assert(longer == passed.push(
                    moved(end_of(plan, n as nat), plan[n as int].0, k + 1),
                ));
                lemma_moved_on(place_of(base), instruction.direction, k as int);
                lemma_trail_grows(plan, n as nat, (k + 1) as nat, passed.len() as int);
                assert(inside(whole_trail(plan)[passed.len() as int]));
                assert(longer[passed.len() as int] == moved(
                    place_of(base),
                    instruction.direction,
                    k + 1,
                ));
            }
            point = grown(point, instruction.direction, 1);
            let ghost held = segments@;
            segments.add(point);
            proof {
                if all_inside(held) {
                    assert forall|i: int| 0 <= i < segments@.len() implies inside(
                        place_of(#[trigger] segments@[i]),
                    ) by {
                        if i < held.len() {
                            assert(segments@[i] == held[i]);
                        }
                    }
                }
                assert(point == point_at(longer[passed.len() as int]));
                assert(gather(before, longer, longer.len()) == with_point(
                    gather(before, longer, passed.len()),
                    point_at(longer[passed.len() as int]),
                ));
                lemma_gather_prefix(before, passed, longer, passed.len());
            }
            k += 1;
        }
        proof {
            assert(k as nat == segments_of(plan[n as int]));
            assert(trail(plan, (n + 1) as nat, 0) == trail(plan, n as nat, k as nat));
            assert(place_of(point) == end_of(plan, (n + 1) as nat));
        }
        n += 1;
    }
    point
}

/// What is gathered from the first places of a trail does not depend on
/// what follows them.
pub proof fn lemma_gather_prefix(seen: Seq<Point3D>, a: Seq<Place>, b: Seq<Place>, n: nat)
    requires
        n <= a.len(),
        n <= b.len(),
        forall|i: int| 0 <= i < n ==> a[i] == b[i],
    ensures
        gather(seen, a, n) == gather(seen, b, n),
    decreases n,
{
    if n > 0 {
        lemma_gather_prefix(seen, a, b, (n - 1) as nat);
    }
}

/// How many segments the plants have that grow by the steps listed in the
/// lines of `input`, all from the same root.
pub fn part2(input: &str) -> (r: usize)
    requires
        plants_drawn(lines(input@)),
    ensures
        r == segments(lines(input@), lines(input@).len()).len(),
{
    let text = chars_of(input);
    let rows = split_lines(&text);
    let ghost drawn = lines(text@);
    let mut segments = Registry::new();
    let mut m: usize = 0;
    while m < rows.len()
        invariant
            m <= rows.len(),
            drawn == rows_view(rows@),
            plants_drawn(drawn),
            segments.wf(),
            segments@ == self::segments(drawn, m as nat),
        decreases rows.len() - m,
    {
        proof {
            assert(drawn[m as int] == rows@[m as int]@);
        }
        grow(&mut segments, rows[m].as_slice());
        m += 1;
    }
    segments.len()
}

/// The leaves of the plants that the first `m` lines of `rows` let grow:
/// where each of them ends, each place once.
pub open spec fn leaves(rows: Seq<Seq<char>>, m: nat) -> Seq<Point3D>
    decreases m,
{
    if m == 0 {
        Seq::empty()
    } else {
        with_point(
            leaves(rows, (m - 1) as nat),
            point_at(end_of(growths_of(rows[m - 1]), growths_of(rows[m - 1]).len())),
        )
    }
}

/// The node that stands for segment `i` in the graph of the plant.
pub open spec fn node(i: int) -> Point {
    Point { x: i as i32, y: 0 }
}

/// The direction at place `k` among the six: left, right, up, down,
/// forwards, backwards.
pub open spec fn direction_at(k: int) -> Direction3D {
    if k == 0 {
        Direction3D::Left
    } else if k == 1 {
        Direction3D::Right
    } else if k == 2 {
        Direction3D::Up
    } else if k == 3 {
        Direction3D::Down
    } else if k == 4 {
        Direction3D::Forwards
    } else {
        Direction3D::Backwards
    }
}

/// The point next to `p` in the direction at place `k`.
pub open spec fn beside(p: Point3D, k: int) -> Point3D {
    point_at(moved(place_of(p), direction_at(k), 1))
}

/// The place of `p` among `segs`, which hold it.
pub open spec fn place_in(segs: Seq<Point3D>, p: Point3D) -> int {
    choose|j: int| 0 <= j < segs.len() && segs[j] == p
}

/// The nodes of the segments next to segment `i` in the first `n` of the
/// six directions; none for a leaf, where the plant ends.
pub open spec fn links(segs: Seq<Point3D>, tips: Seq<Point3D>, i: int, n: nat) -> Seq<Point>
    decreases n,
{
    if n == 0 || tips.contains(segs[i]) {
        Seq::empty()
    } else {
        let before = links(segs, tips, i, (n - 1) as nat);
        let q = beside(segs[i], n - 1);
        if segs.contains(q) {
            before.push(node(place_in(segs, q)))
        } else {
            before
        }
    }
}

/// For the node of each segment, the nodes of the segments next to it.
pub open spec fn plant_lists(segs: Seq<Point3D>, tips: Seq<Point3D>) -> Map<Point, Seq<Point>> {
    Map::new(
        |p: Point| p.y == 0 && 0 <= p.x < segs.len(),
        |p: Point| links(segs, tips, p.x as int, 6),
    )
}

/// The graph of the plant: a step leads from a segment to each segment
/// next to it, but none from a leaf.
pub open spec fn plant(segs: Seq<Point3D>, tips: Seq<Point3D>) -> Adjacency {
    step_graph(plant_lists(segs, tips))
}

/// The steps along the plant from segment `t` to the leaf `leaf`; none
/// for a leaf that is not reached.
pub open spec fn way_to(segs: Seq<Point3D>, tips: Seq<Point3D>, t: int, leaf: Point3D) -> nat {
    if segs.contains(leaf) {
        match shortest(plant(segs, tips), seq![node(t)], node(place_in(segs, leaf))) {
            Some(d) => d as nat,
            None => 0,
        }
    } else {
        0
    }
}

/// The steps along the plant from segment `t` to each of the first `n`
/// leaves, summed up.
pub open spec fn murkiness(segs: Seq<Point3D>, tips: Seq<Point3D>, t: int, n: nat) -> nat
    decreases n,
{
    if n == 0 {
        0
    } else {
        murkiness(segs, tips, t, (n - 1) as nat) + way_to(segs, tips, t, tips[n - 1])
    }
}

/// Segment `i` is part of the trunk: it stands right above the root.
pub open spec fn on_trunk(p: Point3D) -> bool {
    p.x == 0 && p.z == 0
}

/// The least murkiness of one of the first `n` segments that is part of
/// the trunk; `u32::MAX` where none is.
pub open spec fn clearest(segs: Seq<Point3D>, tips: Seq<Point3D>, n: nat) -> nat
    decreases n,
{
    if n == 0 {
        u32::MAX as nat
    } else {
        let before = clearest(segs, tips, (n - 1) as nat);
        let here = murkiness(segs, tips, n - 1, tips.len());
        if on_trunk(segs[n - 1]) && here < before {
            here
        } else {
            before
        }
    }
}

/// The murkiness of every segment of the trunk is above zero and can be
/// counted, and so can the segments.
pub open spec fn trunk_counted(segs: Seq<Point3D>, tips: Seq<Point3D>) -> bool {
    &&& segs.len() <= i32::MAX
    &&& forall|i: int|
        0 <= i < segs.len() && on_trunk(#[trigger] segs[i]) ==> 0 < murkiness(
            segs,
            tips,
            i,
            tips.len(),
        ) <= u32::MAX
}

/// Sums never shrink as more leaves are counted.
pub proof fn lemma_murkiness_grows(
    segs: Seq<Point3D>,
    tips: Seq<Point3D>,
    t: int,
    m: nat,
    n: nat,
)
    requires
        m <= n,
    ensures
        murkiness(segs, tips, t, m) <= murkiness(segs, tips, t, n),
    decreases n,
{
    if m < n {
        lemma_murkiness_grows(segs, tips, t, m, (n - 1) as nat);
    }
}

/// The point next to `p` in the direction at place `k`.
fn next_to(p: Point3D, k: usize) -> (q: Point3D)
    requires
        inside(place_of(p)),
        k < 6,
    ensures
        q == beside(p, k as int),
{
    let d = if k == 0 {
        Direction3D::Left
    } else if k == 1 {
        Direction3D::Right
    } else if k == 2 {
        Direction3D::Up
    } else if k == 3 {
        Direction3D::Down
    } else if k == 4 {
        Direction3D::Forwards
    } else {
        Direction3D::Backwards
    };
    grown(p, d, 1)
}

/// The lists of the nodes next to each node of the plant with the
/// segments `segs` and the leaves `tips`.
fn plant_links(segs: &Registry, tips: &Registry) -> (next: PointMap<Vec<Point>>)
    requires
        segs.wf(),
        tips.wf(),
        all_inside(segs@),
        segs@.len() <= i32::MAX,
    ensures
        lists_view(next@) == plant_lists(segs@, tips@),
        lists_closed(lists_view(next@)),
{
    let mut next: PointMap<Vec<Point>> = PointMap::new();
    let mut i: usize = 0;
    proof {
        segs.lemma_no_duplicates();
    }
    while i < segs.len()
        invariant
            i <= segs@.len(),
            segs.wf(),
            tips.wf(),
            all_inside(segs@),
            segs@.len() <= i32::MAX,
            forall|a: int, b: int|
                0 <= a < segs@.len() && 0 <= b < segs@.len() && segs@[a] == segs@[b] ==> a == b,
            forall|p: Point| #[trigger] next@.contains_key(p) <==> p.y == 0 && 0 <= p.x < i,
            forall|j: int|
                0 <= j < i ==> (#[trigger] next@[node(j)])@ == links(segs@, tips@, j, 6),
        decreases segs@.len() - i,
    {
        let seg = segs.get(i);
        let mut list: Vec<Point> = Vec::new();
        if tips.find(seg).is_none() {
            let mut k: usize = 0;
            while k < 6
                invariant
                    k <= 6,
                    i < segs@.len(),
                    seg == segs@[i as int],
                    segs.wf(),
                    all_inside(segs@),
                    segs@.len() <= i32::MAX,
                    !tips@.contains(seg),
                    forall|a: int, b: int|
                        0 <= a < segs@.len() && 0 <= b < segs@.len() && segs@[a] == segs@[b] ==> a
                            == b,
                    list@ == links(segs@, tips@, i as int, k as nat),
                decreases 6 - k,
            {
                proof {
                    assert(inside(place_of(segs@[i as int])));
                }
                let q = next_to(seg, k);
                match segs.find(q) {
                    Some(j) => {
                        proof {
                            assert(segs@.contains(q));
                            assert(place_in(segs@, q) == j);
                        }
                        list.push(Point::new(j as i32, 0));
                    },
                    None => {},
                }
                k += 1;
            }
        } else {
            proof {
                assert(list@ =~= links(segs@, tips@, i as int, 6));
            }
        }
        let ghost held = next@;
        next.insert(Point::new(i as i32, 0), list);
        proof {
            assert forall|j: int| 0 <= j < i + 1 implies (#[trigger] next@[node(j)])@ == links(
                segs@,
                tips@,
                j,
                6,
            ) by {
                if j < i {
                    assert(node(j) != node(i as int));
                    assert(next@[node(j)] == held[node(j)]);
                }
            }
        }
        i += 1;
    }
    proof {
        let lists = lists_view(next@);
        let wanted = plant_lists(segs@, tips@);
        assert forall|p: Point| lists.contains_key(p) implies lists[p] == wanted[p] by {
            assert(p == node(p.x as int));
        }
        assert(lists =~= wanted);
        assert forall|p: Point, n: int|
            lists.contains_key(p) && 0 <= n < lists[p].len() implies lists.contains_key(
            #[trigger] lists[p][n],
        ) by {
            lemma_links_are_nodes(segs@, tips@, p.x as int, 6, n);
        }
    }
    next
}

/// What is next to a segment of the plant is a segment of it.
pub proof fn lemma_links_are_nodes(
    segs: Seq<Point3D>,
    tips: Seq<Point3D>,
    i: int,
    n: nat,
    k: int,
)
    requires
        0 <= k < links(segs, tips, i, n).len(),
        segs.len() <= i32::MAX,
    ensures
        links(segs, tips, i, n)[k].y == 0,
        0 <= links(segs, tips, i, n)[k].x < segs.len(),
    decreases n,
{
    let before = links(segs, tips, i, (n - 1) as nat);
    if k < before.len() {
        lemma_links_are_nodes(segs, tips, i, (n - 1) as nat, k);
    } else {
        let q = beside(segs[i], n - 1);
        assert(segs.contains(q));
        let j = place_in(segs, q);
        assert(0 <= j < segs.len() && segs[j] == q);
    }
}

/// The least sum of the steps along the plants drawn in `input` from a
/// segment of the trunk to every leaf; a way does not lead through a leaf.
pub fn part3(input: &str) -> (r: u32)
    requires
        plants_drawn(lines(input@)),
        trunk_counted(
            segments(lines(input@), lines(input@).len()),
            leaves(lines(input@), lines(input@).len()),
        ),
    ensures
        r == clearest(
            segments(lines(input@), lines(input@).len()),
            leaves(lines(input@), lines(input@).len()),
            segments(lines(input@), lines(input@).len()).len(),
        ),
{
    let text = chars_of(input);
    let rows = split_lines(&text);
    let ghost drawn = lines(text@);
    let mut segs = Registry::new();
    let mut tips = Registry::new();
    let mut m: usize = 0;
    while m < rows.len()
        invariant
            m <= rows.len(),
            drawn == rows_view(rows@),
            plants_drawn(drawn),
            segs.wf(),
            tips.wf(),
            all_inside(segs@),
            segs@ == segments(drawn, m as nat),
            tips@ == leaves(drawn, m as nat),
        decreases rows.len() - m,
    {
        proof {
            assert(drawn[m as int] == rows@[m as int]@);
        }
        let end = grow(&mut segs, rows[m].as_slice());
        proof {
            assert(end == point_at(end_of(growths_of(drawn[m as int]), growths_of(drawn[m as int]).len())));
        }
        tips.add(end);
        m += 1;
    }
    let ghost all = segs@;
    let ghost ends = tips@;
    let ghost g = plant(all, ends);
    let next = plant_links(&segs, &tips);
    proof {
        segs.lemma_no_duplicates();
    }

    let mut best: u32 = u32::MAX;
    let mut t: usize = 0;
    while t < segs.len()
        invariant
            t <= segs@.len(),
            segs.wf(),
            tips.wf(),
            all == segs@,
            ends == tips@,
            all == segments(lines(input@), lines(input@).len()),
            ends == leaves(lines(input@), lines(input@).len()),
            g == plant(all, ends),
            g == step_graph(lists_view(next@)),
            lists_closed(lists_view(next@)),
            trunk_counted(all, ends),
            forall|a: int, b: int|
                0 <= a < all.len() && 0 <= b < all.len() && all[a] == all[b] ==> a == b,
            best == clearest(all, ends, t as nat),
        decreases segs@.len() - t,
    {
        let seg = segs.get(t);
        if seg.x == 0 && seg.z == 0 {
            let from: [Point; 1] = [Point::new(t as i32, 0)];
            proof {
                assert(from@ =~= seq![node(t as int)]);
                assert(on_trunk(all[t as int]));
            }
            let dist = flood_lists(&next, from.as_slice());
            let mut total: usize = 0;
            let mut k: usize = 0;
            while k < tips.len()
                invariant
                    k <= tips@.len(),
                    t < segs@.len(),
                    segs.wf(),
                    all == segs@,
                    ends == tips@,
                    g == plant(all, ends),
                    all.len() <= i32::MAX,
                    forall|a: int, b: int|
                        0 <= a < all.len() && 0 <= b < all.len() && all[a] == all[b] ==> a == b,
                    forall|p: Point|
                        shortest(g, seq![node(t as int)], p) == (if #[trigger] dist@.contains_key(
                            p,
                        ) {
                            Some(dist@[p])
                        } else {
                            None
                        }),
                    murkiness(all, ends, t as int, ends.len()) <= u32::MAX,
                    total == murkiness(all, ends, t as int, k as nat),
                decreases tips@.len() - k,
            {
                let leaf = tips.get(k);
                proof {
                    lemma_murkiness_grows(all, ends, t as int, (k + 1) as nat, ends.len());
                }
                match segs.find(leaf) {
                    Some(j) => {
                        proof {
                            assert(all.contains(leaf));
                            assert(place_in(all, leaf) == j);
                        }
                        match dist.get(Point::new(j as i32, 0)) {
                            Some(d) => {
                                total += *d;
                            },
                            None => {},
                        }
                    },
                    None => {},
                }
                k += 1;
            }
            if (total as u32) < best {
                best = total as u32;
            }
        }
        t += 1;
    }
    best
}

} // verus!
