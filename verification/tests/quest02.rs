use everybody_codes::quest02::{count_occurrences, matching_chars, parse, part1, part2, part3};

fn chars(s: &str) -> Vec<char> {
    s.chars().collect()
}

#[test]
fn test_part3_sample() {
    let input = "WORDS:THE,OWE,MES,ROD,RODEO\n\nHELWORLT\nENIGWDXL\nTRODEOAL";
    assert_eq!(part3(input), 10);
}

#[test]
fn words_and_lines_are_told_apart() {
    let (words, texts) = parse("WORDS:THE,OWE\nskipped\nONE LINE\nAND ONE");
    assert_eq!(words, vec![chars("THE"), chars("OWE")]);
    assert_eq!(texts, vec![chars("ONE LINE"), chars("AND ONE")]);
    // every heading is taken off, and a line without one is taken whole
    let (words, texts) = parse("WORDS:WORDS:A,\n");
    assert_eq!(words, vec![chars("A"), chars("")]);
    assert_eq!(texts, Vec::<Vec<char>>::new());
    let (words, _) = parse("ORDS:A\n\n");
    assert_eq!(words, vec![chars("ORDS:A")]);
}

#[test]
fn part1_counts_the_words_in_the_first_line() {
    assert_eq!(
        part1("WORDS:THE,OWE,MES,ROD,HER\n\nAWAKEN THE POWER ADORNED WITH THE FLAMES BRIGHT IRE"),
        4
    );
    // occurrences are counted from the left, and no rune twice for one word
    assert_eq!(part1("WORDS:AA,A\n\nAAAAA"), 2 + 5);
    assert_eq!(part1("WORDS:WORDS:X\n\nXWORDS:X"), 2);
}

#[test]
fn occurrences_as_in_the_standard_library() {
    for (text, word) in [
        ("AAAAA", "AA"),
        ("ABABABA", "ABA"),
        ("ABC", ""),
        ("", ""),
        ("", "A"),
        ("ABC", "ABCD"),
        ("the theme", "the"),
    ] {
        assert_eq!(
            count_occurrences(&chars(text), &chars(word)),
            text.matches(word).count(),
            "{:?} in {:?}",
            word,
            text
        );
    }
}

#[test]
fn part2_counts_the_runes_of_words() {
    let input = "WORDS:THE,OWE,MES,ROD,HER,QAQ\n\nAWAKEN THE POWE ADORNED WITH THE FLAMES BRIGHT IRE\nTHE FLAME SHIELDED THE HEART OF THE KINGS\nPOWE PO WER P OWE R\nTHERE IS THE END\nQAQAQ";
    assert_eq!(part2(input), 42);
    assert_eq!(matching_chars(&chars("THERE"), &vec![chars("THE"), chars("HER")]), 4);
    assert_eq!(matching_chars(&chars("xEHTx"), &vec![chars("THE")]), 3);
    assert_eq!(matching_chars(&chars("xEHTx"), &vec![chars("")]), 0);
}

#[test]
fn part3_goes_round_the_rows_but_not_the_columns() {
    // THE stands across the end of the row; in the column it would not
    assert_eq!(part3("WORDS:THE\n\nHExxT"), 3);
    assert_eq!(part3("WORDS:THE\n\nH\nE\nx\nT"), 0);
    // read backwards down the column
    assert_eq!(part3("WORDS:THE\n\nE\nH\nT"), 3);
    assert_eq!(part3("WORDS:THE\n\nE.\nH.\nT."), 3);
    // a word longer than the row covers it twice over
    assert_eq!(part3("WORDS:ABAB\n\nAB"), 2);
}
