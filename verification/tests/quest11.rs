use everybody_codes::quest11::{calculate, get_rules, part1, part2, part3};
use everybody_codes::rules::find_rule;
use std::collections::HashMap;

#[test]
fn quest11_test_part3_example() {
    let input = "A:B,C\nB:C,A,A\nC:A";
    assert_eq!(part3(input), 268815);
}

#[test]
fn part1_counts_four_days() {
    // A -> B C -> C A A A -> A, B C, B C, B C: one A, three B and three C
    // on day three, and 2 + 3 * 3 + 3 on day four
    assert_eq!(part1("A:B,C\nB:C,A,A\nC:A"), 14);
    // A -> B C -> C A, A -> A, B C, B C -> B C, C A, A, C A, A
    assert_eq!(part1("A:B,C\nB:C,A\nC:A"), 8);
}

#[test]
fn part2_counts_ten_days_from_z() {
    // each Z turns into two
    assert_eq!(part2("Z:Z,Z"), 1024);
}

#[test]
fn rules_are_read_line_by_line() {
    let rules = get_rules("A:B,C\nLONG:A\nB:");
    assert_eq!(rules.len(), 3);
    assert_eq!(rules[0].head, vec!['A']);
    assert_eq!(rules[0].kids, vec![vec!['B'], vec!['C']]);
    assert_eq!(rules[1].head, vec!['L', 'O', 'N', 'G']);
    assert_eq!(rules[1].kids, vec![vec!['A']]);
    assert_eq!(rules[2].kids, vec![Vec::<char>::new()]);
    assert_eq!(find_rule(&rules, &['B']), Some(2));
    assert_eq!(find_rule(&rules, &['C']), None);
}

#[test]
fn of_two_rules_for_a_kind_the_last_counts() {
    let rules = get_rules("A:A\nA:A,A,A");
    assert_eq!(find_rule(&rules, &['A']), Some(1));
    let mut cache = HashMap::new();
    assert_eq!(calculate(&['A'], 3, &rules, &mut cache), 27);
    assert_eq!(calculate(&['A'], 0, &rules, &mut cache), 1);
}
