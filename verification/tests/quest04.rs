use everybody_codes::quest04::{downward_and_upward_strikes, downward_strikes};

#[test]
fn downward_strikes_to_the_lowest_nail() {
    assert_eq!(downward_strikes("3\n4\n7\n8"), 10);
}

#[test]
fn downward_strikes_of_one_nail() {
    assert_eq!(downward_strikes("5"), 0);
}

#[test]
fn strikes_to_the_middle_nail() {
    assert_eq!(downward_and_upward_strikes("2\n4\n5\n6\n8"), 8);
}

#[test]
fn strikes_to_the_middle_sorts_first() {
    // in ascending order: -3, 1, 8, 10; the middle one is 8
    assert_eq!(downward_and_upward_strikes("10\n-3\n8\n1\n"), 11 + 7 + 0 + 2);
}
