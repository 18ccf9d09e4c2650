use everybody_codes::quest05::{parse_input, part1, part2, part3, shout, simulate_round};

const SQUARE: &str = "2 3 4 5\n3 4 5 2\n4 5 2 3\n5 2 3 4";
const SHORT: &str = "2 3 4 5\n6 7 8 9";

#[test]
fn columns_are_read_from_lines() {
    assert_eq!(
        parse_input(SQUARE),
        vec![vec![2, 3, 4, 5], vec![3, 4, 5, 2], vec![4, 5, 2, 3], vec![5, 2, 3, 4]]
    );
    assert_eq!(
        parse_input(" 7\t8 \n\n9\n"),
        vec![vec![7, 9], vec![8], vec![], vec![]]
    );
}

#[test]
fn a_round_moves_one_clapper() {
    let mut columns = parse_input(SQUARE);
    simulate_round(&mut columns, 0);
    assert_eq!(
        columns,
        vec![vec![3, 4, 5], vec![3, 2, 4, 5, 2], vec![4, 5, 2, 3], vec![5, 2, 3, 4]]
    );
    assert_eq!(shout(&columns), 3345);

    // a clapper that walks down and all the way up again steps in second
    let mut columns = vec![vec![6, 1], vec![10, 20, 30], vec![1], vec![1]];
    simulate_round(&mut columns, 0);
    assert_eq!(columns[1], vec![10, 6, 20, 30]);
    // one that ends at the back on its way up steps in behind
    let mut columns = vec![vec![4, 1], vec![10, 20, 30], vec![1], vec![1]];
    simulate_round(&mut columns, 4);
    assert_eq!(columns[1], vec![10, 20, 30, 4]);
    let mut columns = vec![vec![5, 1], vec![10, 20, 30], vec![1], vec![1]];
    simulate_round(&mut columns, 8);
    assert_eq!(columns[1], vec![10, 20, 5, 30]);
    // the last column hands over to the first
    let mut columns = vec![vec![1], vec![1], vec![1], vec![7, 8]];
    simulate_round(&mut columns, 3);
    assert_eq!(columns, vec![vec![7, 1], vec![1], vec![1], vec![8]]);
}

#[test]
fn shout_writes_the_numbers_one_after_the_other() {
    assert_eq!(shout(&vec![vec![12, 0], vec![0], vec![345], vec![6]]), 1203456);
    assert_eq!(shout(&vec![vec![0], vec![0], vec![0], vec![7]]), 7);
    assert_eq!(
        shout(&vec![vec![1844], vec![6744073], vec![70955], vec![1615]]),
        u64::MAX
    );
}

#[test]
fn part1_shouts_after_ten_rounds() {
    assert_eq!(part1(SQUARE), 2323);
    assert_eq!(part1(SHORT), 6254);
}

#[test]
fn part2_ends_at_the_2024th_shout_of_a_number() {
    assert_eq!(part2(SHORT), 50877075);
    assert_eq!(part2(SQUARE), 22579964);
}

#[test]
fn part3_finds_the_loudest_shout() {
    assert_eq!(part3(SHORT), 6584);
    assert_eq!(part3(SQUARE), 5332);
}
