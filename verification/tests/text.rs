use massif::text::{
    chars_of, is_white_space, number_text, parse_number, split_lines, split_pieces, split_words,
};

fn chars(s: &str) -> Vec<char> {
    s.chars().collect()
}

fn strings(parts: Vec<Vec<char>>) -> Vec<String> {
    parts.into_iter().map(|part| part.into_iter().collect()).collect()
}

#[test]
fn numbers_are_written_in_digits() {
    assert_eq!(number_text(0), "0");
    assert_eq!(number_text(1234567890), "1234567890");
    assert_eq!(number_text(u64::MAX), "18446744073709551615");
}

#[test]
fn numbers_are_read_back() {
    for n in [0, 1, 9, 10, 99, 100, 255, 4_294_967_295, u64::MAX] {
        assert_eq!(parse_number(&chars(&number_text(n)), u64::MAX), Some(n));
    }
}

#[test]
fn numbers_stop_at_their_limit() {
    assert_eq!(parse_number(&chars("255"), 255), Some(255));
    assert_eq!(parse_number(&chars("256"), 255), None);
    assert_eq!(parse_number(&chars("18446744073709551616"), u64::MAX), None);
    assert_eq!(parse_number(&chars("0"), 0), Some(0));
    assert_eq!(parse_number(&chars("7"), 5), None);
    assert_eq!(parse_number(&chars("000000000000000000000000012"), 255), Some(12));
}

#[test]
fn numbers_are_digits_after_at_most_one_plus() {
    assert_eq!(parse_number(&chars("+12"), 255), Some(12));
    for text in ["", "+", "-1", "++1", "1+", " 1", "1 ", "1.0", "0x1"] {
        assert_eq!(parse_number(&chars(text), 255), None, "{}", text);
    }
}

#[test]
fn texts_come_apart_at_separators() {
    assert_eq!(strings(split_pieces(&chars("a_b__c"), '_')), ["a", "b", "", "c"]);
    assert_eq!(strings(split_pieces(&chars(""), '_')), [""]);
    assert_eq!(strings(split_pieces(&chars("_"), '_')), ["", ""]);
}

#[test]
fn lines_end_at_line_feeds() {
    assert_eq!(strings(split_lines(&chars("a\nb\n"))), ["a", "b"]);
    assert_eq!(strings(split_lines(&chars("a\nb"))), ["a", "b"]);
    assert_eq!(strings(split_lines(&chars("a\n\n"))), ["a", ""]);
    assert!(split_lines(&chars("")).is_empty());
}

#[test]
fn words_stand_between_white_space() {
    assert_eq!(strings(split_words(&chars("  12 7\t3\r"))), ["12", "7", "3"]);
    assert_eq!(strings(split_words(&chars("a\u{3000}b\u{a0}c"))), ["a", "b", "c"]);
    assert!(split_words(&chars(" \t ")).is_empty());
}

#[test]
fn white_space_is_that_of_the_standard() {
    for c in '\0'..='\u{ffff}' {
        assert_eq!(is_white_space(c), c.is_whitespace(), "{:?}", c);
    }
}

#[test]
fn characters_of_a_text() {
    assert_eq!(chars_of("a\u{e9}\u{1f30d}"), ['a', '\u{e9}', '\u{1f30d}']);
    assert!(chars_of("").is_empty());
}
