use everybody_codes::text::{
    chars_of, copy_range, div_toward_zero, find_char, parse_digits, parse_i32, parse_u32,
    parse_u64, parse_unsigned, same_text, split_lines, trim, trim_bounds,
};

fn chars(s: &str) -> Vec<char> {
    s.chars().collect()
}

fn lines_of(s: &str) -> Vec<String> {
    split_lines(&chars(s))
        .into_iter()
        .map(|line| line.into_iter().collect())
        .collect()
}

#[test]
fn chars_of_a_string() {
    assert_eq!(chars_of("aé\n"), vec!['a', 'é', '\n']);
    assert_eq!(chars_of(""), Vec::<char>::new());
}

#[test]
fn lines_are_split_as_the_standard_library_does() {
    for text in [
        "",
        "\n",
        "a",
        "a\n",
        "a\nb",
        "a\n\nb\n",
        "a\r\nb\r\n",
        "a\rb\n",
        "a\r",
        "\r\n",
        "\r\r\n",
        "\n\n",
        "one two\n three \n",
    ] {
        let expected: Vec<String> = text.lines().map(|line| line.to_string()).collect();
        assert_eq!(lines_of(text), expected, "for {:?}", text);
    }
}

#[test]
fn numbers_are_read_as_the_standard_library_does() {
    for word in [
        "0", "7", "007", "+5", "-5", "-0", "+", "-", "", " 5", "5 ", "1_000", "4294967295",
        "4294967296", "2147483647", "2147483648", "-2147483648", "-2147483649",
        "18446744073709551615", "18446744073709551616", "99999999999999999999999", "١٢",
        "+-3", "--3", "3-",
    ] {
        assert_eq!(parse_u32(&chars(word)), word.parse::<u32>().ok(), "u32 of {:?}", word);
        assert_eq!(parse_u64(&chars(word)), word.parse::<u64>().ok(), "u64 of {:?}", word);
        assert_eq!(parse_i32(&chars(word)), word.parse::<i32>().ok(), "i32 of {:?}", word);
    }
}

#[test]
fn digits_from_a_place_on() {
    assert_eq!(parse_digits(&chars("ab12"), 2, 100), Some(12));
    assert_eq!(parse_digits(&chars("ab12"), 2, 11), None);
    assert_eq!(parse_digits(&chars("ab12"), 1, 100), None);
    assert_eq!(parse_digits(&chars("ab12"), 4, 100), None);
    assert_eq!(parse_unsigned(&chars("+12"), 12), Some(12));
    assert_eq!(parse_unsigned(&chars("13"), 12), None);
}

#[test]
fn trimming_is_as_in_the_standard_library() {
    for text in [
        "",
        " ",
        "a",
        "  a b \t\n",
        "\u{a0}x\u{3000}",
        "\u{2003}\u{85}mid dle\u{1680}\u{2028}",
        "\u{200b}zero width is no space\u{200b}",
        "\r\n  13\r\n",
    ] {
        let trimmed: String = trim(&chars(text)).into_iter().collect();
        assert_eq!(trimmed, text.trim(), "for {:?}", text);
        let (from, to) = trim_bounds(&chars(text));
        let part: String = chars(text)[from..to].iter().collect();
        assert_eq!(part, text.trim());
    }
}

#[test]
fn finding_and_copying() {
    let s = chars("6 15 x");
    assert_eq!(find_char(&s, ' '), Some(1));
    assert_eq!(find_char(&s, 'x'), Some(5));
    assert_eq!(find_char(&s, 'y'), None);
    assert_eq!(copy_range(&s, 2, 4), chars("15"));
    assert_eq!(copy_range(&s, 3, 3), chars(""));
}

#[test]
fn division_rounds_towards_zero() {
    for x in [-7i64, -6, -1, 0, 1, 6, 7, i64::MAX, i64::MIN + 1] {
        for d in [1i64, 2, 3, 10] {
            assert_eq!(div_toward_zero(x, d), x / d);
        }
    }
}

#[test]
fn numbers_are_written_in_base_ten() {
    for n in [0u64, 7, 10, 99, 100, 12345, 1 << 32, u64::MAX] {
        let written: String = everybody_codes::text::decimal(n).into_iter().collect();
        assert_eq!(written, n.to_string());
    }
}

#[test]
fn texts_of_characters_and_parts() {
    assert_eq!(everybody_codes::text::text_of(&['a', 'ß', ' ']), "aß ");
    assert_eq!(everybody_codes::text::text_of(&[]), "");
    let parts = |s: &str| -> Vec<String> {
        everybody_codes::text::split_at(&chars(s), ',')
            .into_iter()
            .map(|part| part.into_iter().collect())
            .collect()
    };
    for text in ["", ",", "a", "a,b", "a,,b,", ",a"] {
        let expected: Vec<String> = text.split(',').map(|p| p.to_string()).collect();
        assert_eq!(parts(text), expected, "for {:?}", text);
    }
    assert_eq!(everybody_codes::text::parse_usize(&chars("18")), Some(18));
    assert_eq!(everybody_codes::text::parse_usize(&chars("-1")), None);
}

#[test]
fn words_are_split_at_white_space() {
    let words_of = |s: &str| -> Vec<String> {
        everybody_codes::text::split_words(&chars(s))
            .into_iter()
            .map(|w| w.into_iter().collect())
            .collect()
    };
    for text in ["", " ", "a", " a  b\tc\n", "12 34", "\u{c}x\r\ny", "a\u{a0}b c", "\u{b}v"] {
        let expected: Vec<String> = text.split_ascii_whitespace().map(|w| w.to_string()).collect();
        assert_eq!(words_of(text), expected, "for {:?}", text);
    }
}

#[test]
fn texts_are_compared_character_by_character() {
    assert!(same_text(&chars("abc"), &chars("abc")));
    assert!(same_text(&[], &[]));
    assert!(!same_text(&chars("abc"), &chars("abd")));
    assert!(!same_text(&chars("abc"), &chars("ab")));
}
