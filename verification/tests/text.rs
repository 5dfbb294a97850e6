use downtime::number::{read_i64, read_u64, write_u64};
use downtime::text::{
    char_width, chars_of, cut_at, first_line, has_prefix, join_texts, position_of,
    position_of_either, position_of_text, same_text, split_at_first, stands_at, string_of,
    takes_bytes, trimmed, trimmed_end, trimmed_start, white_char, word_at_start,
};

#[test]
fn strings_and_characters_convert_both_ways() {
    let v = chars_of("naïve ☃");
    assert_eq!(v, vec!['n', 'a', 'ï', 'v', 'e', ' ', '☃']);
    assert_eq!(string_of(&v), "naïve ☃");
    assert_eq!(string_of(&[]), "");
}

#[test]
fn white_space_is_that_of_unicode() {
    for u in 0..=0x10ffffu32 {
        if let Some(c) = char::from_u32(u) {
            assert_eq!(white_char(c), c.is_whitespace(), "U+{u:04X}");
        }
    }
}

#[test]
fn widths_are_those_of_utf8() {
    for u in 0..=0x10ffffu32 {
        if let Some(c) = char::from_u32(u) {
            assert_eq!(char_width(c), c.len_utf8(), "U+{u:04X}");
        }
    }
}

#[test]
fn cuts_are_at_character_boundaries() {
    let text = "aé☃😀z";
    let v = chars_of(text);
    for n in 0..=text.len() + 3 {
        let expected = if text.is_char_boundary(n) { Some(text[..n].chars().count()) } else { None };
        assert_eq!(cut_at(&v, n), expected, "at {n}");
        assert_eq!(takes_bytes(&v, n), text.len() >= n, "at {n}");
    }
}

#[test]
fn searches_find_the_first_place() {
    let v = chars_of("abcabc");
    assert_eq!(position_of(&v, 'b'), Some(1));
    assert_eq!(position_of(&v, 'x'), None);
    assert_eq!(position_of_either(&v, 'c', 'b'), Some(1));
    assert_eq!(position_of_either(&v, 'x', 'c'), Some(2));
    assert_eq!(position_of_either(&v, 'x', 'y'), None);
    assert_eq!(position_of_text(&v, &chars_of("bca")), Some(1));
    assert_eq!(position_of_text(&v, &chars_of("cb")), None);
    assert_eq!(position_of_text(&v, &chars_of("")), Some(0));
    assert_eq!(position_of_text(&[], &chars_of("")), Some(0));
    assert_eq!(position_of_text(&[], &chars_of("a")), None);
    assert!(stands_at(&v, &chars_of("abc"), 3));
    assert!(!stands_at(&v, &chars_of("abc"), 4));
    assert!(!stands_at(&v, &chars_of("a"), 7));
    assert!(same_text(&v, "abcabc"));
    assert!(!same_text(&v, "abc"));
    assert!(has_prefix(&v, "abc"));
    assert!(!has_prefix(&v, "bc"));
}

#[test]
fn trimming_takes_white_space_off_the_ends() {
    for text in ["", "  ", "a", " a", "a ", "\t a b \u{3000}\n", "\u{85}x\u{a0}"] {
        let v = chars_of(text);
        assert_eq!(string_of(trimmed(&v)), text.trim());
        assert_eq!(string_of(trimmed_start(&v)), text.trim_start());
        assert_eq!(string_of(trimmed_end(&v)), text.trim_end());
    }
}

#[test]
fn the_first_word_is_what_white_space_ends() {
    for text in ["", " \n", "one", "  one two", "one\ttwo", "\u{2003}é\u{2003}"] {
        let v = chars_of(text);
        assert_eq!(
            word_at_start(&v).map(|w| string_of(w)),
            text.split_whitespace().next().map(|w| w.to_string())
        );
    }
}

#[test]
fn splitting_is_at_the_first_separator() {
    let v = chars_of("a=b=c");
    let (a, b) = split_at_first(&v, '=').unwrap();
    assert_eq!(string_of(a), "a");
    assert_eq!(string_of(b), "b=c");
    assert!(split_at_first(&v, '.').is_none());
}

#[test]
fn lines_end_at_line_feeds() {
    for text in ["a", "a\n", "a\r\nb", "\n\nx", "a\rb\n", "a\r", "a\r\r\nb\n\n", "é\r\n☃"] {
        let v = chars_of(text);
        let mut rest: &[char] = &v;
        let mut found = Vec::new();
        while !rest.is_empty() {
            let (line, after) = first_line(rest);
            found.push(string_of(line));
            rest = after;
        }
        let expected: Vec<String> = text.lines().map(|l| l.to_string()).collect();
        assert_eq!(found, expected, "{text:?}");
    }
}

#[test]
fn joining_puts_the_separator_between() {
    let none: Vec<String> = Vec::new();
    assert_eq!(join_texts(&none, ", "), "");
    assert_eq!(join_texts(&vec!["a".to_string()], ", "), "a");
    let parts = vec!["a".to_string(), "".to_string(), "c".to_string()];
    assert_eq!(join_texts(&parts, ", "), "a, , c");
}

#[test]
fn numbers_are_read_as_they_are_written() {
    for text in [
        "", "+", "-", "0", "7", "+7", "-7", "007", "1 ", " 1", "12a", "١", "--1", "+-1",
        "18446744073709551615", "18446744073709551616", "99999999999999999999999",
        "9223372036854775807", "9223372036854775808", "-9223372036854775808",
        "-9223372036854775809", "-0", "00000000000000000000000000001",
    ] {
        let v = chars_of(text);
        assert_eq!(read_u64(&v), text.parse::<u64>().ok(), "{text:?}");
        assert_eq!(read_i64(&v), text.parse::<i64>().ok(), "{text:?}");
    }
}

#[test]
fn a_number_in_decimal_reads_back() {
    for n in [0, 1, 9, 10, 99, 100, 1234567890, u64::MAX - 1, u64::MAX] {
        let text = write_u64(n);
        assert_eq!(text, n.to_string());
        assert_eq!(read_u64(&chars_of(&text)), Some(n));
    }
}
