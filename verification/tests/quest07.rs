use everybody_codes::quest07::{
    can_race, count_winners, find_track_loop, gather, get_track_loop, parse_plans, part1, part2,
    part3, plans_written, possible_plans, rank, score,
};

fn chars(s: &str) -> Vec<char> {
    s.chars().collect()
}

#[test]
fn quest07_test_part1_example() {
    let input = "A:+,-,=,=\nB:+,=,-,+\nC:=,-,+,+\nD:=,=,=,+";

    assert_eq!(part1(input), "BDCA");
}

#[test]
fn quest07_test_part2_example() {
    let input = "A:+,-,=,=\nB:+,=,-,+\nC:=,-,+,+\nD:=,=,=,+";

    let track = "S+===\n-   +\n=+=-+";

    assert_eq!(part2(input, track), "DCBA");
}

#[test]
fn plans_are_read_line_by_line() {
    let plans = parse_plans("A:+,-,=\nLONG NAME:=");
    assert_eq!(plans.len(), 2);
    assert_eq!(plans[0].name, vec!['A']);
    assert_eq!(plans[0].actions, vec!['+', '-', '=']);
    assert_eq!(plans[1].name, chars("LONG NAME"));
    assert_eq!(plans[1].actions, vec!['=']);
    assert!(plans_written("A:+,-,=\nLONG NAME:="));
    assert!(plans_written(""));
    assert!(!plans_written("A+,-"));
    assert!(!plans_written("A:+,-,"));
    assert!(!plans_written("A:+,x"));
    assert!(!plans_written("A:++"));
    assert!(!plans_written("A:+\n\nB:-"));
}

#[test]
fn essence_over_ten_actions() {
    assert_eq!(gather(&chars("+-==")), 103);
    assert_eq!(gather(&chars("+=-+")), 116);
    assert_eq!(gather(&chars("=-++")), 107);
    assert_eq!(gather(&chars("===+")), 110);
    // the power does not fall below zero: 9, 8, ..., 0
    assert_eq!(gather(&chars("-")), 45);
    assert_eq!(gather(&[]), 0);
}

#[test]
fn of_equal_essences_the_last_is_on_the_board() {
    let names = vec![chars("a"), chars("bb"), chars("c"), chars("d"), chars("")];
    assert_eq!(rank(&vec![5, 9, 5, 0, 7], &names), chars("bbcd"));
    assert_eq!(rank(&vec![1, 1, 1, 1, 1], &names), chars(""));
    assert_eq!(rank(&vec![1, 2, 3, 4, u64::MAX], &names[..].to_vec()), chars("dcbba"));
    assert_eq!(rank(&vec![], &vec![]), chars(""));
}

#[test]
fn the_track_is_followed_round() {
    assert_eq!(get_track_loop("S+===\n-   +\n=+=-+"), "+===++-=+=-S");
    assert_eq!(get_track_loop("S=\n=="), "===S");
    assert_eq!(get_track_loop("S-+\n= =\n=+="), "-+==+==S");
    assert_eq!(get_track_loop("SS"), "S");
    assert_eq!(find_track_loop("S=\n=="), Some("===S".to_string()));
    // no track, too narrow, a row too short, a dead end
    assert_eq!(find_track_loop(""), None);
    assert_eq!(find_track_loop("S\n="), None);
    assert_eq!(find_track_loop("S==\n="), None);
    assert_eq!(find_track_loop("S==\n   "), None);
}

#[test]
fn score_on_a_track() {
    let round = "+===++-=+=-S";
    assert_eq!(score(round, &chars("+-=="), 10), 1290);
    assert_eq!(score(round, &chars("+=-+"), 10), 3640);
    assert_eq!(score(round, &chars("=-++"), 10), 3700);
    assert_eq!(score(round, &chars("===+"), 10), 4280);
    assert_eq!(score(round, &chars("==="), 0), 0);
    assert_eq!(score(round, &[], 10), 0);
    assert_eq!(score("", &chars("+"), 10), 0);
    assert!(can_race(round, 2024));
    assert!(!can_race("+=x", 1));
    assert!(!can_race(round, usize::MAX));
}

#[test]
fn all_plans_of_eleven_actions() {
    let plans = possible_plans();
    assert_eq!(plans.len(), 9240);
    assert_eq!(plans[0], chars("+++++---==="));
    assert_eq!(plans[1], chars("+++++--=-=="));
    assert_eq!(plans[9239], chars("===---+++++"));
    for plan in &plans {
        assert_eq!(plan.len(), 11);
        assert_eq!(plan.iter().filter(|&&c| c == '+').count(), 5);
        assert_eq!(plan.iter().filter(|&&c| c == '-').count(), 3);
    }
    let mut sorted = plans.clone();
    sorted.sort();
    sorted.dedup();
    assert_eq!(sorted.len(), 9240);
}

#[test]
fn part3_counts_the_better_plans() {
    assert_eq!(part3("X:+,-,=,+,-,=,+,-,=,+,+", "S=\n=="), 6618);
    assert_eq!(part3("X:=,-,+\nY:+", "S=\n=="), 9240);
    let few = vec![chars("+"), chars("-"), chars("=")];
    assert_eq!(count_winners(&few, "===S", 1, 10 + 10 + 10 + 10), 1);
    assert_eq!(count_winners(&few, "===S", 1, 0), 3);
}

#[test]
fn a_race_is_accepted_up_to_its_limit() {
    // four cells: two to the twenty-eighth rounds pass two to the thirtieth cells
    assert!(can_race("S+=-", 0x1000_0000));
    assert!(!can_race("S+=-", 0x1000_0001));
    // no rounds, or no cells, pass nothing
    assert!(can_race("S+=-", 0));
    assert!(can_race("", 0x4000_0000));
    assert!(!can_race("", 0x4000_0001));
    assert!(!can_race("S+ -", 1));
}
