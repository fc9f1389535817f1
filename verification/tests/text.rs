use geosearch::text::{
    chars_of, clone_list, clone_optional, joined, keep_filled, same_text, split, split_lines,
    split_once, split_words, starts_with, string_of, trimmed, trimmed_set, CharSet,
};

fn owned(parts: &[&str]) -> Vec<String> {
    parts.iter().map(|part| part.to_string()).collect()
}

#[test]
fn white_space_is_that_of_unicode() {
    for number in 0..=0x10ffff_u32 {
        if let Some(c) = char::from_u32(number) {
            assert_eq!(CharSet::Space.contains(c), c.is_whitespace(), "{number:x}");
        }
    }
}

#[test]
fn characters_come_apart_and_together() {
    let chars = chars_of("Bogotá");
    assert_eq!(chars, vec!['B', 'o', 'g', 'o', 't', 'á']);
    assert_eq!(string_of(&chars, 1, 4), "ogo");
    assert_eq!(string_of(&chars, 6, 6), "");
}

#[test]
fn trimming_takes_both_ends() {
    assert_eq!(trimmed(" \t Calle 72\u{3000}\n"), "Calle 72");
    assert_eq!(trimmed(" \n "), "");
    assert_eq!(trimmed_set("\"\"a\"b\"", CharSet::Only('"')), "a\"b");
    assert_eq!(trimmed_set("[[es]", CharSet::Either('[', ']')), "es");
}

#[test]
fn splitting_keeps_empty_pieces() {
    for line in ["", ",", "a,b", ",a,,b,", "á,é"] {
        let expected: Vec<String> = line.split(',').map(str::to_string).collect();
        assert_eq!(split(line, CharSet::Only(',')), expected);
    }
    assert_eq!(keep_filled(&owned(&["", "a", "", "b"])), owned(&["a", "b"]));
}

#[test]
fn words_are_runs_without_white_space() {
    for line in ["", "  ", "GET /healthz HTTP/1.1", "\u{a0}a\u{2003}b c\r"] {
        let expected: Vec<String> = line.split_whitespace().map(str::to_string).collect();
        assert_eq!(split_words(line), expected);
    }
}

#[test]
fn lines_end_in_line_feeds() {
    for text in ["", "\n", "a", "a\n", "a\nb", "a\r\nb\r", "\r\n\r\n", "a\n\nb\r\n", "\r"] {
        let expected: Vec<String> = text.lines().map(str::to_string).collect();
        assert_eq!(split_lines(text), expected, "{text:?}");
    }
}

#[test]
fn joining_puts_separators_between_neighbours() {
    assert_eq!(joined(&owned(&[]), ", "), "");
    assert_eq!(joined(&owned(&["a"]), ", "), "a");
    assert_eq!(joined(&owned(&["a", "", "b"]), ", "), "a, , b");
}

#[test]
fn splitting_once_cuts_at_the_first() {
    for text in ["", "=", "a=b=c", "ab", "á=ñ"] {
        let expected = text.split_once('=').map(|(a, b)| (a.to_string(), b.to_string()));
        assert_eq!(split_once(text, '='), expected);
    }
}

#[test]
fn prefixes_and_copies() {
    assert!(starts_with("calle", "call"));
    assert!(starts_with("calle", ""));
    assert!(!starts_with("calle", "calles"));
    assert!(!starts_with("calle", "cal1"));
    assert!(same_text("GET", "GET"));
    assert!(!same_text("GET", "get"));
    assert_eq!(clone_optional(&Some("a".to_string())), Some("a".to_string()));
    assert_eq!(clone_optional(&None), None);
    assert_eq!(clone_list(&owned(&["a", "b"])), owned(&["a", "b"]));
}
