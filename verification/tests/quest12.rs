use everybody_codes::quest12::{intercept, part1, part2, part3};

#[test]
fn quest12_test_part1_example() {
    let input = [
        ".............",
        ".C...........",
        ".B......T....",
        ".A......T.T..",
        "=============",
    ]
    .join("\n")
    .to_string();

    assert_eq!(part1(&input), 13);
}

#[test]
fn quest12_test_part3_example() {
    let input = ["6 5", "6 7", "10 5"].join("\n").to_string();
    assert_eq!(part3(&input), 11);
}

#[test]
fn part2_counts_hard_targets_twice() {
    let soft = [".......T", "========"].join("\n");
    let hard = [".......H", "========"].join("\n");
    // the target is at reach 6: segment 1, power 2
    assert_eq!(part2(&soft), 2);
    assert_eq!(part2(&hard), 4);
}

#[test]
fn intercept_on_the_way_down() {
    assert_eq!(intercept(5, 0), 3);
    assert_eq!(intercept(3, 2), 2);
    assert_eq!(intercept(3, 4), 6);
}
