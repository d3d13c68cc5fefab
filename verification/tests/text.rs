use tablestrip::bytes::slice_bytes;
use tablestrip::text::{
    chars_of, contains_char, cut, join, join_strings, split_lines, split_on, starts_with,
    strip_return, to_decimal, trim, white_space,
};

const SAMPLES: [&str; 16] = [
    "",
    " ",
    "\n",
    "\r\n",
    "a",
    "a\r",
    "a\nb",
    "a\r\nb\r\n",
    "a\r\r\nb\r",
    "\n\na\n\n",
    " \t a b \u{3000}\u{a0}",
    "|a||b|",
    "| caf\u{e9}\u{2615} | x |",
    "\u{85}x\u{2028}",
    "\u{200b}not white\u{200b}",
    "\u{1f600}|\u{1f600}\n|\u{7ff}",
];

#[test]
fn white_space_is_what_std_says_it_is() {
    for code in 0..=0x10ffffu32 {
        if let Some(c) = char::from_u32(code) {
            assert_eq!(white_space(c), c.is_whitespace(), "{:x}", code);
        }
    }
}

#[test]
fn trimming_agrees_with_std() {
    for s in SAMPLES {
        assert_eq!(trim(s), s.trim());
        assert_eq!(trim(trim(s)), trim(s));
    }
}

#[test]
fn trimming_takes_padding_and_nothing_else() {
    assert_eq!(trim("  \ta b\n "), "a b");
    assert_eq!(trim(" \u{2003}x\u{202f}"), "x");
    assert_eq!(trim("   "), "");
    assert_eq!(trim(&format!("\t{}  ", " a b ")), trim(" a b "));
}

#[test]
fn lines_agree_with_std() {
    for s in SAMPLES {
        let expected: Vec<&str> = s.lines().collect();
        assert_eq!(split_lines(s), expected);
        for line in split_lines(s) {
            assert!(!line.contains('\n'));
        }
    }
}

#[test]
fn lines_come_back_from_joined_lines() {
    let lines = vec!["a", "", "b\tc"];
    assert_eq!(split_lines(&join(&lines, "\n")), lines);
    // A return counts as part of the line end, an empty last line is lost.
    let lines = vec!["a\r", "b\r", ""];
    assert_eq!(split_lines(&join(&lines, "\n")), vec!["a", "b"]);
    let lines = vec!["a\r", "b\r"];
    assert_eq!(split_lines(&join(&lines, "\n")), vec!["a", "b\r"]);
}

#[test]
fn pieces_agree_with_std_and_restore_the_text() {
    for s in SAMPLES {
        let expected: Vec<&str> = s.split('|').collect();
        let parts = split_on(s, '|');
        assert_eq!(parts, expected);
        assert_eq!(join(&parts, "|"), s);
    }
    assert_eq!(split_on("a||b", '|'), vec!["a", "", "b"]);
}

#[test]
fn cutting_stops_at_the_first_separator() {
    assert_eq!(cut("a|b|c", '|'), Some(("a", "b|c")));
    assert_eq!(cut("|", '|'), Some(("", "")));
    assert_eq!(cut("\u{e9}|\u{2615}", '|'), Some(("\u{e9}", "\u{2615}")));
    assert_eq!(cut("abc", '|'), None);
}

#[test]
fn joining() {
    assert_eq!(join(&vec![], ", "), "");
    assert_eq!(join(&vec!["a"], ", "), "a");
    assert_eq!(join(&vec!["a", "", "b"], ", "), "a, , b");
    let owned = vec!["x".to_string(), "y".to_string()];
    assert_eq!(join_strings(&owned, "\t"), "x\ty");
}

#[test]
fn decimal_notation() {
    for n in [0usize, 5, 9, 10, 19, 99, 100, 4096, 1000000, usize::MAX] {
        assert_eq!(to_decimal(n), n.to_string());
    }
}

#[test]
fn searching() {
    assert!(contains_char("caf\u{e9}", '\u{e9}'));
    assert!(!contains_char("cafe", '\u{e9}'));
    assert!(!contains_char("", 'a'));
    assert!(starts_with("--password=x", "--password="));
    assert!(starts_with("x", ""));
    assert!(!starts_with("-P", "-p"));
    assert!(!starts_with("-", "-p"));
    assert_eq!(chars_of("a\u{2615}"), vec!['a', '\u{2615}']);
    assert_eq!(strip_return("a\r"), "a");
    assert_eq!(strip_return("a\r\r"), "a\r");
    assert_eq!(strip_return("\ra"), "\ra");
}

#[test]
fn slices_by_byte() {
    let text = "a\u{e9}|\u{2615}";
    assert_eq!(slice_bytes(text, 0, 1), "a");
    assert_eq!(slice_bytes(text, 1, 3), "\u{e9}");
    assert_eq!(slice_bytes(text, 4, 7), "\u{2615}");
    assert_eq!(slice_bytes(text, 7, 7), "");
}
