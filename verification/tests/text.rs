use garfeo::number::{decimal_of, padded_of, parse_u32};
use garfeo::render::{is_clean_line, join_lines};
use garfeo::text::{
    chars_of, find_text, is_whitespace, is_word, lines, same_chars, slice_of, split, starts_with,
    string_of, trim,
};

fn chars(text: &str) -> Vec<char> {
    text.chars().collect()
}

fn texts(pieces: &[Vec<char>]) -> Vec<String> {
    pieces.iter().map(|piece| piece.iter().collect()).collect()
}

#[test]
fn text_and_characters_convert_both_ways() {
    assert_eq!(chars_of("aĉ\u{1F600}"), vec!['a', 'ĉ', '\u{1F600}']);
    assert_eq!(chars_of(""), Vec::<char>::new());
    assert_eq!(string_of(&chars("aĉ\u{1F600}")), "aĉ\u{1F600}");
    assert_eq!(string_of(&vec![]), "");
    assert_eq!(slice_of(&chars("abcdef"), 2, 4), chars("cd"));
    assert_eq!(slice_of(&chars("abcdef"), 3, 3), chars(""));
}

#[test]
fn white_space_is_what_unicode_says() {
    for code in 0..=0x10FFFFu32 {
        if let Some(c) = char::from_u32(code) {
            assert_eq!(is_whitespace(c), c.is_whitespace(), "U+{:04X}", code);
        }
    }
}

#[test]
fn trimming_takes_white_space_from_both_ends() {
    for text in ["", " ", "a", "  a b  ", "\t\r\na\u{3000}", "\u{a0}x\u{2003}y\u{85}", " \n "] {
        assert_eq!(string_of(&trim(&chars(text))), text.trim());
    }
}

#[test]
fn splitting_keeps_empty_pieces() {
    for text in ["", "a", "a-b", "-", "--", "a--b-", "-a", "2020-01-31"] {
        let expected: Vec<String> = text.split('-').map(|piece| piece.to_string()).collect();
        assert_eq!(texts(&split(&chars(text), '-')), expected);
    }
}

#[test]
fn lines_are_trimmed_and_blank_ones_dropped() {
    assert_eq!(texts(&lines(&chars(" a \r\n\r\n\tb\n \nc"))), vec!["a", "b", "c"]);
    assert_eq!(texts(&lines(&chars(""))), Vec::<String>::new());
    assert_eq!(texts(&lines(&chars("\n \n"))), Vec::<String>::new());
    assert_eq!(texts(&lines(&chars("nur unu"))), vec!["nur unu"]);
}

#[test]
fn lines_are_joined_with_a_separator_between() {
    assert_eq!(string_of(&join_lines(&vec![], ',')), "");
    assert_eq!(string_of(&join_lines(&vec![chars("a")], ',')), "a");
    assert_eq!(string_of(&join_lines(&vec![chars("a"), chars(""), chars("bc")], ',')), "a,,bc");
    assert_eq!(string_of(&join_lines(&vec![chars(""), chars("")], '\n')), "\n");
}

#[test]
fn texts_are_compared_by_character() {
    assert!(same_chars(&chars("ĉu"), &chars("ĉu")));
    assert!(!same_chars(&chars("ĉu"), &chars("cu")));
    assert!(!same_chars(&chars("a"), &chars("ab")));
    assert!(is_word(&chars("good"), "good"));
    assert!(!is_word(&chars("good "), "good"));
    assert!(starts_with(&chars("Garfildo dormas"), "Garfildo "));
    assert!(starts_with(&chars("Garfildo "), "Garfildo "));
    assert!(!starts_with(&chars("Garfildo"), "Garfildo "));
    assert!(starts_with(&chars("x"), ""));
    let held = vec!["a".to_string(), "b".to_string(), "a".to_string()];
    assert_eq!(find_text(&held, &chars("a")), Some(0));
    assert_eq!(find_text(&held, &chars("b")), Some(1));
    assert_eq!(find_text(&held, &chars("c")), None);
    assert!(is_clean_line(&chars("a b")));
    assert!(!is_clean_line(&chars("")));
    assert!(!is_clean_line(&chars("a\nb")));
    assert!(!is_clean_line(&chars(" a")));
}

#[test]
fn numbers_are_written_in_decimal() {
    for n in [0u64, 7, 10, 99, 100, 12345, u64::MAX] {
        assert_eq!(string_of(&decimal_of(n)), n.to_string());
        assert_eq!(string_of(&padded_of(n, 4)), format!("{:04}", n));
        assert_eq!(string_of(&padded_of(n, 0)), n.to_string());
    }
    assert_eq!(string_of(&padded_of(5, 2)), "05");
}

#[test]
fn numbers_are_read_as_the_standard_library_reads_them() {
    for text in [
        "0", "7", "007", "+7", "4294967295", "4294967296", "99999999999999999999999", "", "+",
        "-1", "1 ", " 1", "1a", "++1", "１", "0000000000000000000000000001",
    ] {
        assert_eq!(parse_u32(&chars(text)), text.parse::<u32>().ok(), "{:?}", text);
    }
}
