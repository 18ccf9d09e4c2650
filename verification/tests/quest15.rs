use everybody_codes::quest15::{count_ones, part1, part2, part3};

#[test]
fn part1_fetches_the_nearest_herb() {
    let garden = "#####.#####\n#.........#\n#.######.##\n#.........#\n###.#.#####\n#H.......H#\n###########";
    assert_eq!(part1(garden), 26);
}

#[test]
fn part2_picks_one_herb_of_each_kind() {
    let garden = "##.##\n#A.B#\n#...#\n#C.A#\n#####";
    assert_eq!(part2(garden), 10);
    assert_eq!(part3("#.#\n#.#\n#A#"), 4);
    assert_eq!(part3("#.#\n#B#"), 2);
}

#[test]
fn a_garden_without_herbs_is_left_at_once() {
    assert_eq!(part1("."), 0);
    assert_eq!(part1("#.#\n#.#"), 0);
}

#[test]
fn kinds_of_herbs_are_counted_by_bits() {
    assert_eq!(count_ones(0), 0);
    assert_eq!(count_ones(0b1011), 3);
    assert_eq!(count_ones(u32::MAX), 32);
    assert_eq!(count_ones(1 << 31), 1);
}
