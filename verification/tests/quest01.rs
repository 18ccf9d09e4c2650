use everybody_codes::quest01::{part1, part2, part3};

#[test]
fn quest01_test_part2_example() {
    let input = "AxBCDDCAxD";
    assert_eq!(part2(input), 28);
}

#[test]
fn part1_counts_each_creature_alone() {
    assert_eq!(part1("ABBAC"), 5);
    assert_eq!(part1(""), 0);
}

#[test]
fn part2_passes_over_a_place_left_over() {
    // the pair BB and one A left over
    assert_eq!(part2("BBA"), 1 + 1 + 2);
}

#[test]
fn part3_counts_threes() {
    // xBx: 1; AAA: 6; BCD: 1 + 3 + 5 + 6; xCC: 3 + 3 + 2
    assert_eq!(part3("xBxAAABCDxCC"), 1 + 6 + 15 + 8);
}
