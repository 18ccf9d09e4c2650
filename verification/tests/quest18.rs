use everybody_codes::flood::flood;
use everybody_codes::grid::Point;
use everybody_codes::point_map::PointMap;
use everybody_codes::quest18::{parse, part1, part2, part3, time_sum};

const FARM: &str = "##########\n..#......#\n#.P.####P#\n#.#...P#.#\n##########";
const WIDE: &str = "#######################\n...P..P...#P....#.....#\n#.#######.#.#.#.#####.#\n#.....#...#P#.#..P....#\n#.#####.#####.#########\n#...P....P.P.P.....P#.#\n#.#######.#####.#.#.#.#\n...#.....P...P..#P#....\n#######################";
const CLOSED: &str = "##########\n#.#......#\n#.P.####P#\n#.#...P#.#\n##########";

#[test]
fn the_farm_is_read() {
    let (start, points, trees) = parse(FARM);
    assert_eq!(start, vec![Point::new(0, 1)]);
    assert_eq!(trees, vec![Point::new(2, 2), Point::new(8, 2), Point::new(6, 3)]);
    assert!(points.contains_key(Point::new(0, 1)));
    assert!(points.contains_key(Point::new(2, 2)));
    assert!(!points.contains_key(Point::new(0, 0)));
    assert!(!points.contains_key(Point::new(2, 1)));

    let (start, _, _) = parse(WIDE);
    assert_eq!(
        start,
        vec![Point::new(0, 1), Point::new(0, 7), Point::new(22, 7)]
    );
}

#[test]
fn part1_waits_for_the_last_tree() {
    assert_eq!(part1(FARM), 11);
    assert_eq!(part1(".P"), 1);
    assert_eq!(part1("P.P"), 1);
}

#[test]
fn part2_lets_the_water_in_from_all_sides() {
    assert_eq!(part2(WIDE), 21);
}

#[test]
fn part3_digs_the_best_well() {
    assert_eq!(part3(CLOSED), 12);
    assert_eq!(part3(FARM), 12);
    assert_eq!(part3("P.P"), 2);
}

#[test]
fn time_sum_from_one_well() {
    let (_, points, trees) = parse(CLOSED);
    // from the upper left corner: 2 steps to the first tree, 10 to the
    // second along the upper channel, 7 to the third along the lower one
    assert_eq!(time_sum(Point::new(1, 1), &trees, &points), 2 + 10 + 7);
    // from the cell to the right of the first tree
    assert_eq!(time_sum(Point::new(3, 2), &trees, &points), 1 + 7 + 4);
}

#[test]
fn the_flood_counts_steps_from_the_nearest_start() {
    let mut open: PointMap<bool> = PointMap::new();
    for x in 0..10 {
        open.insert(Point::new(x, 0), true);
    }
    open.insert(Point::new(20, 0), true);
    let dist = flood(&open, &[Point::new(0, 0), Point::new(9, 0), Point::new(9, 0)]);
    for x in 0..10 {
        assert_eq!(dist.get(Point::new(x, 0)), Some(&(x.min(9 - x) as usize)));
    }
    // not reached, and not open
    assert_eq!(dist.get(Point::new(20, 0)), None);
    assert_eq!(dist.get(Point::new(0, 1)), None);

    // a start that is not open is a start all the same
    let dist = flood(&open, &[Point::new(0, 1)]);
    assert_eq!(dist.get(Point::new(0, 1)), Some(&0));
    assert_eq!(dist.get(Point::new(3, 0)), Some(&4));
    let dist = flood(&open, &[]);
    assert_eq!(dist.get(Point::new(0, 0)), None);
}
