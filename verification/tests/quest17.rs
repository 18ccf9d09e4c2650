use everybody_codes::grid::Point;
use everybody_codes::point_map::PointMap;
use everybody_codes::quest17::{constellation_size, parse, part1, part2, part3};

#[test]
fn quest17_test_part1_example() {
    let input = ".......................................\n..*.......*...*.....*...*......**.**...\n....*.................*.......*..*..*..\n..*.........*.......*...*.....*.....*..\n......................*........*...*...\n..*.*.....*...*.....*...*........*.....\n.......................................";
    assert_eq!(part3(input), 15624);
}

#[test]
fn stars_are_counted_from_one() {
    assert_eq!(
        parse("*..\n.**"),
        vec![Point::new(1, 1), Point::new(2, 2), Point::new(3, 2)]
    );
    assert_eq!(parse("...\n"), vec![]);
}

#[test]
fn part1_ties_all_stars() {
    let sky = "*...*\n..*..\n.....\n.....\n*.*..";
    assert_eq!(part1(sky), 16);
    assert_eq!(part2(sky), 16);
    assert_eq!(part1("*"), 1);
}

#[test]
fn part3_multiplies_what_there_is() {
    assert_eq!(part3("*"), 1);
    // six apart is too far
    assert_eq!(part3("*.....*"), 1);
    assert_eq!(part3("*....*"), 7);
    assert_eq!(part3(""), 1);
}

#[test]
fn a_constellation_takes_the_stars_within_its_limit() {
    let stars = vec![Point::new(1, 1), Point::new(3, 1), Point::new(10, 1), Point::new(11, 1)];
    let mut seen: PointMap<bool> = PointMap::new();
    // the first two are tied by 2, and two stars they are
    assert_eq!(constellation_size(&stars, stars[0], &mut seen, 6), 2 + 2);
    assert!(seen.contains_key(stars[1]));
    assert!(!seen.contains_key(stars[2]));
    assert_eq!(constellation_size(&stars, stars[3], &mut seen, 6), 1 + 2);
    // what is seen does not join again
    assert_eq!(constellation_size(&stars, stars[2], &mut seen, 100), 1);

    let mut seen: PointMap<bool> = PointMap::new();
    // with no limit to speak of: ties of 2, 7 and 1
    assert_eq!(constellation_size(&stars, stars[0], &mut seen, usize::MAX), 10 + 4);
}

/// The least length of ties that tie `stars` into one tree, by taking the
/// shortest tie between two groups of stars until one group is left.
fn least_ties(stars: &[Point]) -> usize {
    let mut group: Vec<usize> = (0..stars.len()).collect();
    let mut pairs = Vec::new();
    for i in 0..stars.len() {
        for j in i + 1..stars.len() {
            pairs.push((stars[i].manhattan_distance(stars[j]) as usize, i, j));
        }
    }
    pairs.sort();
    let mut total = 0;
    for (gap, i, j) in pairs {
        if group[i] != group[j] {
            let (from, to) = (group[j], group[i]);
            for g in group.iter_mut() {
                if *g == from {
                    *g = to;
                }
            }
            total += gap;
        }
    }
    total
}

#[test]
fn stars_in_a_row_are_tied_to_their_neighbours() {
    let stars = vec![Point::new(0, 0), Point::new(1, 0), Point::new(2, 0)];
    for start in 0..3 {
        let mut seen: PointMap<bool> = PointMap::new();
        assert_eq!(constellation_size(&stars, stars[start], &mut seen, usize::MAX), 2 + 3);
        for star in &stars {
            assert!(seen.contains_key(*star));
        }
    }
}

#[test]
fn a_constellation_is_tied_as_short_as_can_be_from_any_start() {
    let mut stars = Vec::new();
    let mut seed: u64 = 0x9e37_79b9_7f4a_7c15;
    while stars.len() < 24 {
        seed ^= seed << 13;
        seed ^= seed >> 7;
        seed ^= seed << 17;
        let p = Point::new((seed % 40) as i32, ((seed >> 20) % 40) as i32);
        if !stars.contains(&p) {
            stars.push(p);
        }
    }
    let least = least_ties(&stars);
    for start in 0..stars.len() {
        let mut seen: PointMap<bool> = PointMap::new();
        assert_eq!(
            constellation_size(&stars, stars[start], &mut seen, usize::MAX),
            least + stars.len()
        );
    }
}
