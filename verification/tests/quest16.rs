use everybody_codes::quest16::{parse, part1, part2, part3, score, show};
use std::collections::HashMap;

const MACHINE: &str =
    "1,2,3\n\n^_^ -.- ^,-\n>.- ^_^ >.<\n-_- -.- >.<\n    -.^ ^_^\n    >.>    ";

#[test]
fn wheels_are_read_from_columns() {
    let wheels = parse(MACHINE);
    assert_eq!(wheels.len(), 3);
    assert_eq!(wheels[0].moves, 1);
    assert_eq!(wheels[1].moves, 2);
    assert_eq!(wheels[2].moves, 3);
    assert_eq!(wheels[0].faces, vec!["^_^", ">.-", "-_-"]);
    assert_eq!(wheels[1].faces, vec!["-.-", "^_^", "-.-", "-.^", ">.>"]);
    assert_eq!(wheels[2].faces, vec!["^,-", ">.<", ">.<", "^_^"]);
}

#[test]
fn part1_shows_the_faces_after_a_hundred_pulls() {
    assert_eq!(part1(MACHINE), ">.- -.- ^,-");
}

#[test]
fn show_joins_the_faces_with_blanks() {
    let wheels = parse(MACHINE);
    assert_eq!(show(&wheels, 0), "^_^ -.- ^,-");
    assert_eq!(show(&wheels, 1), ">.- -.- ^_^");
    assert_eq!(show(&wheels, 2), "-_- >.> >.<");
    let one = parse("7\n\nabc");
    assert_eq!(show(&one, 5), "abc");
}

#[test]
fn score_pays_for_eyes_after_the_second() {
    let mut counts = HashMap::new();
    // the eyes are ^ ^ - - ^ -: three of each
    assert_eq!(score("^_^ -.- ^,-", &mut counts), 2);
    assert_eq!(counts.get(&b'^'), Some(&3));
    assert_eq!(counts.get(&b'-'), Some(&3));
    assert_eq!(counts.get(&b'_'), None);

    let mut counts = HashMap::new();
    assert_eq!(score("", &mut counts), 0);
    let mut counts = HashMap::new();
    assert_eq!(score(">.< >.< >.<", &mut counts), 1 + 1);
}

#[test]
fn part2_pays_round_after_round() {
    assert_eq!(part2(MACHINE, 1), 1);
    assert_eq!(part2(MACHINE, 2), 2);
    assert_eq!(part2(MACHINE, 3), 4);
    assert_eq!(part2(MACHINE, 5), 7);
    assert_eq!(part2(MACHINE, 10), 15);
    assert_eq!(part2(MACHINE, 100), 149);
    assert_eq!(part2(MACHINE, 1000), 1498);
    assert_eq!(part2(MACHINE, 202420242024), 303630363036);
    assert_eq!(part2(MACHINE, 0), 0);
}

#[test]
fn part3_finds_the_most_and_the_least() {
    assert_eq!(part3(MACHINE), "545 160");
}
