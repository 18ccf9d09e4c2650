use everybody_codes::quest08::{additional_blocks, additional_blocks_2, part1, part2, part3};

#[test]
fn quest08_test_part1_example() {
    assert_eq!(part1("13"), 21);
}

#[test]
fn quest08_test_part2_example() {
    assert_eq!(additional_blocks(3, 5, 50), 27);
}

#[test]
fn quest08_test_part3_example() {
    assert_eq!(additional_blocks_2(2, 5, 160), 2);
}

#[test]
fn part1_of_a_full_pyramid() {
    assert_eq!(part1("16"), 0);
    assert_eq!(part1(" 1\n"), 0);
    assert_eq!(part1("0"), 1);
}

#[test]
fn part2_reads_the_priests() {
    // thickness 1, 2, 4, 8, ...: far fewer layers than with one priest
    let few = part2("2");
    assert_eq!(few, additional_blocks(2, 1111, 20240000));
}

#[test]
fn part3_reads_the_priests() {
    assert_eq!(part3("2\n"), additional_blocks_2(2, 10, 202400000));
}
