use everybody_codes::quest06::{parse_input, part1, part2, part3};

const TREE: &str = "RR:A,B,C\nA:D,E\nB:F,@\nC:G,H\nD:@\nE:@\nF:@\nG:@\nH:@";

#[test]
fn branches_are_read_up_to_a_second_colon() {
    let rules = parse_input("RR:A,B\nA:@:ignored,B\nB:");
    assert_eq!(rules.len(), 3);
    assert_eq!(rules[0].head, vec!['R', 'R']);
    assert_eq!(rules[0].kids, vec![vec!['A'], vec!['B']]);
    assert_eq!(rules[1].kids, vec![vec!['@']]);
    assert_eq!(rules[2].kids, vec![Vec::<char>::new()]);
}

#[test]
fn part1_writes_the_names_in_full() {
    assert_eq!(part1(TREE), "RRB@");
    assert_eq!(part1("RR:AA,AB\nAA:@\nAB:Q\nQ:@,@"), "RRAA@");
}

#[test]
fn part2_writes_first_letters() {
    assert_eq!(part2(TREE), "RB@");
    assert_eq!(part2("RR:AA,AB\nAA:@\nAB:Q\nQ:@,@"), "RA@");
}

#[test]
fn branches_without_a_line_bear_nothing() {
    // `NONE` has no line, and of the two lines for `A` the last counts
    assert_eq!(part1("RR:NONE,A\nA:@,@\nA:B\nB:@"), "RRAB@");
}

#[test]
fn part3_leaves_out_bugs_and_ants() {
    assert_eq!(part3("RR:ANT,XX,BUG\nANT:@\nBUG:@,@\nXX:YY\nYY:@,ZZ\nZZ:@,@"), "RXY@");
    // with the ant two fruits would hang one deep
    assert_eq!(part3("RR:ANT,XX\nANT:@\nXX:@,YY\nYY:@,@"), "RX@");
}
