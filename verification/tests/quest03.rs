use everybody_codes::quest03::{solve, DELTAS, DELTAS_WITH_DIAGONALS};

const FIELD: &str =
    "..........\n..###.##..\n...####...\n..######..\n..######..\n...####...\n..........";

#[test]
fn digging_with_neighbours_on_four_sides() {
    assert_eq!(solve(FIELD, &DELTAS), 35);
    // the middle of a square of nine can be dug twice
    assert_eq!(solve("###\n###\n###", &DELTAS), 10);
}

#[test]
fn digging_with_neighbours_all_around() {
    assert_eq!(solve(FIELD, &DELTAS_WITH_DIAGONALS), 29);
    assert_eq!(solve("###\n###\n###", &DELTAS_WITH_DIAGONALS), 10);
}

#[test]
fn nothing_to_dig() {
    assert_eq!(solve("....", &DELTAS), 0);
    assert_eq!(solve("", &DELTAS), 0);
    assert_eq!(solve("#", &[(1, 0)]), 1);
}
