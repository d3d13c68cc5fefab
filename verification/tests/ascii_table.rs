use tablestrip::ascii_table::{strip_ascii_table, TableShape};
use tablestrip::truncate::CAP_LIST;

fn count_tokens(text: &str) -> usize {
    text.split_whitespace().count()
}

#[test]
fn test_outer_pipes_mysql_style() {
    let input = "\
+----+-------------+
| id | username    |
+----+-------------+
|  1 | alice_smith |
|  2 | bob_jones   |
+----+-------------+";
    let out = strip_ascii_table(
        input,
        TableShape {
            has_outer_pipes: true,
        },
    );
    assert_eq!(out, "id\tusername\n1\talice_smith\n2\tbob_jones");
}

#[test]
fn test_no_outer_pipes_psql_style() {
    let input = " id | username\n----+-------------\n  1 | alice_smith\n  2 | bob_jones";
    let out = strip_ascii_table(
        input,
        TableShape {
            has_outer_pipes: false,
        },
    );
    assert_eq!(out, "id\tusername\n1\talice_smith\n2\tbob_jones");
}

#[test]
fn test_pipe_inside_cell_not_split() {
    // A `|` inside a cell value must stay in that cell, not become a column
    // boundary. Border offsets pin the real columns; interior pipes never
    // sit at a junction. Regression for the split('|') bug.
    let input = "\
+----+-------+
| id | val   |
+----+-------+
| 1  | a|b|c |
+----+-------+";
    let out = strip_ascii_table(
        input,
        TableShape {
            has_outer_pipes: true,
        },
    );
    assert_eq!(out, "id\tval\n1\ta|b|c");
}

#[test]
fn test_regex_inside_cell_not_split() {
    let input = "\
+----+-----------------+
| id | pattern         |
+----+-----------------+
| 1  | ^(foo|bar|baz)$ |
+----+-----------------+";
    let out = strip_ascii_table(
        input,
        TableShape {
            has_outer_pipes: true,
        },
    );
    assert_eq!(out, "id\tpattern\n1\t^(foo|bar|baz)$");
}

#[test]
fn test_pipe_inside_cell_psql_style() {
    // Same guarantee for the no-outer-bars (psql) offset path.
    let input = " id | pattern\n----+-------------\n  1 | a|b|c";
    let out = strip_ascii_table(
        input,
        TableShape {
            has_outer_pipes: false,
        },
    );
    assert_eq!(out, "id\tpattern\n1\ta|b|c");
}

#[test]
fn test_unicode_cell_falls_back_cleanly() {
    // Multi-byte content shifts the byte offsets so the junction check
    // fails on that row → naive-split fallback. The cell has no interior
    // pipe, so the fallback is correct; must not panic or corrupt.
    let input = "\
+----+--------+
| id | name   |
+----+--------+
| 1  | café☕ |
+----+--------+";
    let out = strip_ascii_table(
        input,
        TableShape {
            has_outer_pipes: true,
        },
    );
    assert_eq!(out, "id\tname\n1\tcafé☕");
}

#[test]
fn ascii_table_test_interior_null_preserved() {
    // Middle cell is an empty NULL — must survive, only edges dropped.
    let input = "| 1 |  | c |";
    let out = strip_ascii_table(
        input,
        TableShape {
            has_outer_pipes: true,
        },
    );
    assert_eq!(out, "1\t\tc");
}

#[test]
fn test_row_cap_and_overflow() {
    let mut lines = vec!["| id | val |".to_string()];
    for i in 1..=CAP_LIST + 5 {
        lines.push(format!("| {} | v{} |", i, i));
    }
    let input = lines.join("\n");
    let out = strip_ascii_table(
        &input,
        TableShape {
            has_outer_pipes: true,
        },
    );

    assert!(out.contains("... +5 more rows"));
    // header + CAP_LIST data rows + overflow marker
    assert_eq!(out.lines().count(), CAP_LIST + 2);
}

#[test]
fn ascii_table_test_empty_input() {
    assert_eq!(
        strip_ascii_table(
            "",
            TableShape {
                has_outer_pipes: true
            }
        ),
        ""
    );
}

#[test]
fn ascii_table_test_token_savings() {
    let input = "\
+----+-------------+-------------------+--------+
| id | username    | email             | status |
+----+-------------+-------------------+--------+
|  1 | alice_smith | alice@example.com | active |
|  2 | bob_jones   | bob@example.com   | active |
+----+-------------+-------------------+--------+";
    let out = strip_ascii_table(
        input,
        TableShape {
            has_outer_pipes: true,
        },
    );
    let savings = 100.0 - (count_tokens(&out) as f64 / count_tokens(input) as f64 * 100.0);
    assert!(
        savings >= 40.0,
        "expected >=40% savings, got {:.1}%",
        savings
    );
}
