use std::io::BufRead;
use todo_store::text::{
    chars_of, decimal, find, matches_at, split, split_lines, split_pieces, strip_leading,
};

fn chars(s: &str) -> Vec<char> {
    s.chars().collect()
}

#[test]
fn chars_of_gives_the_characters() {
    assert_eq!(chars_of(""), Vec::<char>::new());
    assert_eq!(chars_of("aé☕"), vec!['a', 'é', '☕']);
}

#[test]
fn matches_at_compares_in_place() {
    let hay = chars("abcabc");
    assert!(matches_at(&hay, &chars("abc"), 0));
    assert!(matches_at(&hay, &chars("abc"), 3));
    assert!(!matches_at(&hay, &chars("abc"), 1));
    assert!(!matches_at(&hay, &chars("abc"), 4));
    assert!(!matches_at(&hay, &chars("abc"), 7));
    assert!(!matches_at(&hay, &chars("abcabcd"), 0));
    assert!(matches_at(&hay, &chars(""), 6));
    assert!(!matches_at(&hay, &chars(""), 7));
    assert!(!matches_at(&hay, &chars("c"), usize::MAX));
}

#[test]
fn find_gives_the_leftmost_offset() {
    let hay = chars("xx, yy, zz");
    let sep = chars(", ");
    assert_eq!(find(&hay, &sep, 0), Some(2));
    assert_eq!(find(&hay, &sep, 2), Some(2));
    assert_eq!(find(&hay, &sep, 3), Some(6));
    assert_eq!(find(&hay, &sep, 7), None);
    assert_eq!(find(&hay, &sep, 100), None);
    assert_eq!(find(&hay, &chars(""), 10), Some(10));
    assert_eq!(find(&hay, &chars(""), 11), None);
    assert_eq!(find(&chars(""), &sep, 0), None);
}

#[test]
fn split_agrees_with_the_standard_split() {
    for text in ["", "a", "a, b", "a, ", ", a", ", ", ", , ", "a,, b", "a , b", "é, ☕, ü", ",", " ,"] {
        let expected: Vec<String> = text.split(", ").map(|f| f.to_string()).collect();
        assert_eq!(split(text, ", "), expected, "{:?}", text);
    }
}

#[test]
fn split_gives_exact_fields() {
    assert_eq!(split("a, b", ", "), vec!["a", "b"]);
    assert_eq!(split("a, b, ", ", "), vec!["a", "b", ""]);
    assert_eq!(split("", ", "), vec![""]);
}

#[test]
fn split_does_not_overlap() {
    assert_eq!(split("aaa", "aa"), vec!["", "a"]);
    assert_eq!(split("aaaa", "aa"), vec!["", "", ""]);
}

#[test]
fn split_with_an_empty_separator_is_one_field() {
    assert_eq!(split("abc", ""), vec!["abc"]);
    assert_eq!(split("", ""), vec![""]);
}

#[test]
fn strip_leading_agrees_with_the_standard_strip_prefix() {
    for text in ["", "tag", "tag: ", "tag: x", "xtag: ", "tag: tag: x", "tatag: g: x", "ü tag: ☕", " tag: "] {
        let expected = text.strip_prefix("tag: ").unwrap_or(text);
        assert_eq!(strip_leading(text, "tag: "), expected, "{:?}", text);
    }
}

#[test]
fn strip_leading_gives_exact_text() {
    assert_eq!(strip_leading("description: buy milk", "description: "), "buy milk");
    assert_eq!(strip_leading("description: description: x", "description: "), "description: x");
    assert_eq!(strip_leading("my description: x", "description: "), "my description: x");
    assert_eq!(strip_leading("description:", "description: "), "description:");
    assert_eq!(strip_leading("description: ", "description: "), "");
    assert_eq!(strip_leading("ééé", "é"), "éé");
    assert_eq!(strip_leading("abc", ""), "abc");
    assert_eq!(strip_leading("", "a"), "");
}

#[test]
fn split_pieces_agrees_with_the_standard_split_inclusive() {
    for text in ["", "\n", "a", "a\n", "a\nb", "a\r\nb\r\n", "\n\n", "a\n\nb\n", "é\n☕"] {
        let expected: Vec<String> = text.split_inclusive('\n').map(|p| p.to_string()).collect();
        assert_eq!(split_pieces(text), expected, "{:?}", text);
        assert_eq!(split_pieces(text).concat(), text);
    }
}

#[test]
fn split_pieces_gives_exact_pieces() {
    assert_eq!(split_pieces(""), Vec::<String>::new());
    assert_eq!(split_pieces("a\nb\n"), vec!["a\n", "b\n"]);
    assert_eq!(split_pieces("a\r\n\nb"), vec!["a\r\n", "\n", "b"]);
}

#[test]
fn split_lines_agrees_with_buffered_reading() {
    for text in ["", "\n", "a", "a\n", "a\nb", "a\r\nb\r\n", "a\r", "\r\n", "a\n\nb\n", "a\r\r\n", "\ra\n", "é\n☕"] {
        let expected: Vec<String> = std::io::Cursor::new(text.as_bytes())
            .lines()
            .map(|l| l.unwrap())
            .collect();
        assert_eq!(split_lines(text), expected, "{:?}", text);
    }
}

#[test]
fn split_lines_gives_exact_lines() {
    assert_eq!(split_lines(""), Vec::<String>::new());
    assert_eq!(split_lines("a\nb\n"), vec!["a", "b"]);
    assert_eq!(split_lines("a\nb"), vec!["a", "b"]);
    assert_eq!(split_lines("a\r\n\nb\r"), vec!["a", "", "b\r"]);
    assert_eq!(split_lines("\n"), vec![""]);
}

#[test]
fn decimal_writes_numbers() {
    assert_eq!(decimal(0), "0");
    assert_eq!(decimal(7), "7");
    assert_eq!(decimal(9), "9");
    assert_eq!(decimal(10), "10");
    assert_eq!(decimal(1234567890), "1234567890");
    assert_eq!(decimal(65535), "65535");
    assert_eq!(decimal(usize::MAX), usize::MAX.to_string());
}

#[test]
fn decimal_agrees_with_the_standard_formatting() {
    for n in 0..2000 {
        assert_eq!(decimal(n), n.to_string());
    }
}
