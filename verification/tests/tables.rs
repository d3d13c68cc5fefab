use tablestrip::ascii_table::{
    junction_offsets, naive_split, split_by_offsets, strip_ascii_table, TableShape,
};
use tablestrip::truncate::CAP_LIST;

fn boxed(body: &str) -> String {
    strip_ascii_table(body, TableShape { has_outer_pipes: true })
}

fn unboxed(body: &str) -> String {
    strip_ascii_table(body, TableShape { has_outer_pipes: false })
}

#[test]
fn junctions_are_byte_offsets_in_the_first_border() {
    assert_eq!(junction_offsets("+--+-+\n|a |b|"), vec![0, 3, 5]);
    assert_eq!(junction_offsets(" a | b\n---+---\n-+-"), vec![3]);
    // Indentation counts, in bytes.
    assert_eq!(junction_offsets("\u{3000}+-+"), vec![3, 5]);
    // A border without junctions is passed over.
    assert_eq!(junction_offsets("----\n+-+"), vec![0, 2]);
}

#[test]
fn no_border_no_junctions() {
    assert!(junction_offsets("").is_empty());
    assert!(junction_offsets("| a | b |\n----\na + b").is_empty());
}

#[test]
fn cells_by_column_with_outer_bars() {
    let cells = split_by_offsets("| 1  | a|b|c |", &[0, 5, 13], true);
    assert_eq!(cells, Some(vec!["1".to_string(), "a|b|c".to_string()]));
    // The row does not line up, or there are no columns to speak of.
    assert_eq!(split_by_offsets("| 1 | a |", &[0, 5, 13], true), None);
    assert_eq!(split_by_offsets("| 1 |", &[0], true), None);
    assert_eq!(split_by_offsets("| 1 |", &[], true), None);
    assert_eq!(split_by_offsets("| 1 |", &[0, 40], true), None);
    // Junctions out of order do no harm where the row does not line up.
    assert_eq!(split_by_offsets("abc", &[2, 1], true), None);
}

#[test]
fn cells_by_column_without_outer_bars() {
    let cells = split_by_offsets("  1 | a|b|c", &[4], false);
    assert_eq!(cells, Some(vec!["1".to_string(), "a|b|c".to_string()]));
    let cells = split_by_offsets("|", &[0], false);
    assert_eq!(cells, Some(vec![String::new(), String::new()]));
    assert_eq!(split_by_offsets("  1 | x", &[], false), None);
}

#[test]
fn a_wide_character_before_a_bar_shifts_it() {
    // Five characters, seven bytes: the bar stands at byte 6.
    assert_eq!(split_by_offsets("\u{2615}   |x", &[4], false), None);
    let cells = split_by_offsets("\u{2615}   |x", &[6], false);
    assert_eq!(cells, Some(vec!["\u{2615}".to_string(), "x".to_string()]));
}

#[test]
fn cells_by_separator() {
    assert_eq!(naive_split("| a |  | c |", true), "a\t\tc");
    assert_eq!(naive_split(" a |  | c ", false), "a\t\tc");
    assert_eq!(naive_split("| a", true), "");
    assert_eq!(naive_split("plain", true), "plain");
    assert_eq!(naive_split("| a |", false), "\ta\t");
}

#[test]
fn a_row_without_interior_bars_reads_alike_either_way() {
    let row = "| ab | c  |";
    let cells = split_by_offsets(row, &[0, 5, 10], true).unwrap();
    assert_eq!(cells.join("\t"), naive_split(row, true));
    let row = " ab | c ";
    let cells = split_by_offsets(row, &[4], false).unwrap();
    assert_eq!(cells.join("\t"), naive_split(row.trim(), false));
}

#[test]
fn cells_with_padding_restore_the_row() {
    let row = "|  x |y|z  |";
    let cells = split_by_offsets(row, &[0, 5, 11], true).unwrap();
    assert_eq!(cells, vec!["x", "y|z"]);
    assert_eq!(["  x ", "y|z  "].join("|"), row[1..11]);
}

#[test]
fn decoration_leaves_no_trace() {
    let plain = "| a | b |\n| 1 | 2 |";
    let decorated = "\n----\n| a | b |\n   \n---\n| 1 | 2 |\n--\n";
    assert_eq!(boxed(plain), "a\tb\n1\t2");
    assert_eq!(boxed(decorated), boxed(plain));
}

#[test]
fn notes_pass_through_in_their_place() {
    let body = "  before \n| a |\nbetween\n| 1 |\n after";
    assert_eq!(boxed(body), "before\na\nbetween\n1\nafter");
}

#[test]
fn line_ends_make_no_difference() {
    let unix = "+---+\n| a |\n+---+\n| 1 |\n+---+\n";
    let dos = unix.replace('\n', "\r\n");
    assert_eq!(boxed(unix), "a\n1");
    assert_eq!(boxed(&dos), "a\n1");
    assert_eq!(unboxed(" a | b\r\n---+---\r\n 1 | 2\r"), "a\tb\n1\t2");
}

#[test]
fn a_full_list_has_no_marker() {
    let mut lines = vec!["| id |".to_string()];
    for i in 1..=CAP_LIST {
        lines.push(format!("| {} |", i));
    }
    let out = boxed(&lines.join("\n"));
    assert_eq!(out.lines().count(), CAP_LIST + 1);
    assert!(!out.contains("more rows"));
    assert!(out.ends_with(&format!("\n{}", CAP_LIST)));
}

#[test]
fn a_long_list_ends_with_the_exact_marker() {
    let mut lines = vec!["| id |".to_string()];
    for i in 1..=CAP_LIST + 12 {
        lines.push(format!("| {} |", i));
    }
    lines.push("done".to_string());
    let out = boxed(&lines.join("\n"));
    let shown: Vec<&str> = out.lines().collect();
    assert_eq!(shown.len(), CAP_LIST + 3);
    assert_eq!(shown[0], "id");
    assert_eq!(shown[CAP_LIST], CAP_LIST.to_string());
    assert_eq!(shown[CAP_LIST + 1], "done");
    assert_eq!(shown[CAP_LIST + 2], "... +12 more rows");
}

#[test]
fn a_drawn_boxed_table_reads_back() {
    let body = "\
+----+---------+--+
| k  | v       |  |
+----+---------+--+
| a| | |||     |  |
| \u{2615} | x |  |
|  z | (1 + 1) |  |
+----+---------+--+";
    assert_eq!(boxed(body), "k\tv\t\na|\t|||\t\n\u{2615}\tx\t\nz\t(1 + 1)\t");
}

#[test]
fn a_drawn_open_table_reads_back() {
    let body = " k  | v\n----+---\n a| | b|c|d and more\n z  | \u{2615}|";
    assert_eq!(unboxed(body), "k\tv\na|\tb|c|d and more\nz\t\u{2615}|");
}
