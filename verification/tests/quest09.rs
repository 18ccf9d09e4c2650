use everybody_codes::quest09::{fewest_stamps, part1, part2, part3, split_and_check};
use std::collections::HashMap;

#[test]
fn quest09_test_part2_example() {
    let input = "33\n41\n55\n99";
    assert_eq!(part2(input), 10);
}

#[test]
fn part1_with_four_stamps() {
    // 2 = 1 + 1, 4 = 3 + 1, 7 = 5 + 1 + 1, 16 = 10 + 5 + 1
    assert_eq!(part1("2\n4\n7\n16"), 10);
}

#[test]
fn lines_without_a_number_are_passed_over() {
    assert_eq!(part1("2\n\nseven\n4\n"), 4);
    assert_eq!(part1(""), 0);
}

#[test]
fn fewest_stamps_is_not_greedy() {
    let mut cache = HashMap::new();
    // greedy would take 30 + 1 + 1 + 1; better is 16 + 16 + 1 or 24 + 5 + ...
    assert_eq!(fewest_stamps(33, &[1, 3, 5, 10, 15, 16, 20, 24, 25, 30], &mut cache), 2);
    assert_eq!(fewest_stamps(0, &[1, 3], &mut cache), 0);
}

#[test]
fn split_in_two_parts() {
    let stamps = [1, 3, 5, 10, 15, 16, 20, 24, 25, 30, 37, 38, 49, 50, 74, 75, 100, 101];
    let mut cache = HashMap::new();
    // 102 = 1 + 101
    assert_eq!(split_and_check(102, &stamps, &mut cache), 2);
    assert_eq!(split_and_check(156, &stamps, &mut cache), 3);
    assert_eq!(split_and_check(1000, &stamps, &mut cache), 10);
}

#[test]
fn part3_sums_the_splits() {
    assert_eq!(part3("102\n103\n2534"), 2 + 2 + 26);
}
