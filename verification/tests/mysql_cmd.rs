use tablestrip::mysql_cmd::{
    filter_mysql_output, is_footer_line, is_table_format, redact_credentials,
};

fn count_tokens(text: &str) -> usize {
    text.split_whitespace().count()
}

#[test]
fn test_table_format_stripped() {
    let input = "\
+----+-------------+-------------------+--------+
| id | username    | email             | status |
+----+-------------+-------------------+--------+
|  1 | alice_smith | alice@example.com | active |
|  2 | bob_jones   | bob@example.com   | active |
+----+-------------+-------------------+--------+
2 rows in set (0.00 sec)";
    let out = filter_mysql_output(input);
    assert_eq!(
        out,
        "id\tusername\temail\tstatus\n\
         1\talice_smith\talice@example.com\tactive\n\
         2\tbob_jones\tbob@example.com\tactive"
    );
    assert!(!out.contains('+'));
    assert!(!out.contains("2 rows in set"));
}

#[test]
fn test_footer_variants_stripped() {
    for footer in [
        "2 rows in set (0.00 sec)",
        "Empty set (0.00 sec)",
        "1 row in set, 1 warning (0.01 sec)",
    ] {
        let input = format!("+----+\n| id |\n+----+\n|  1 |\n+----+\n{}", footer);
        let out = filter_mysql_output(&input);
        assert!(!out.contains("sec)"), "footer leaked: {}", footer);
    }
}

#[test]
fn test_footer_shaped_cell_content_preserved() {
    // Regression: an unanchored, pipe-blind footer match deleted any data
    // row whose cell text happened to contain `(N.NN sec)`.
    let input = "\
+----+------------------------------+
| id | note                         |
+----+------------------------------+
|  1 | backup done (12.34 sec) ok   |
|  2 | second row                   |
+----+------------------------------+
2 rows in set (0.00 sec)";
    let out = filter_mysql_output(input);
    assert_eq!(
        out,
        "id\tnote\n1\tbackup done (12.34 sec) ok\n2\tsecond row"
    );
    assert!(!out.contains("2 rows in set"));
}

#[test]
fn test_footer_shaped_cell_at_row_end_preserved() {
    // Worst case: the timing substring is the last thing on the line before
    // the closing bar, so even an end-anchored match must not fire.
    let input = "\
+----+---------------------+
| id | note                |
+----+---------------------+
|  1 | done (12.34 sec)    |
+----+---------------------+
1 row in set (0.00 sec)";
    let out = filter_mysql_output(input);
    assert_eq!(out, "id\tnote\n1\tdone (12.34 sec)");
}

#[test]
fn test_is_footer_line() {
    assert!(is_footer_line("2 rows in set (0.00 sec)"));
    assert!(is_footer_line("Query OK, 1 row affected (0,01 sec)"));
    assert!(!is_footer_line("|  1 | backup done (12.34 sec) ok |"));
    // Mentions a duration but is not a status line.
    assert!(!is_footer_line(
        "ERROR 1205 (HY000): Lock wait timeout (51.00 sec) exceeded"
    ));
}

#[test]
fn test_batch_mode_passthrough() {
    // `-B` output is already tab-separated with no borders — leave it alone.
    let input = "id\tusername\temail\n1\talice_smith\talice@example.com\n2\tbob_jones\tbob@example.com";
    let out = filter_mysql_output(input);
    assert_eq!(out, input);
}

#[test]
fn test_vertical_passthrough() {
    // `\G` vertical output is not table-mode; deferred to a follow-up.
    let input = "*************************** 1. row ***************************\n      id: 1\nusername: alice_smith";
    let out = filter_mysql_output(input);
    assert_eq!(out, input);
}

#[test]
fn mysql_cmd_test_interior_null_preserved() {
    let input = "+----+------+------+\n| id | name | note |\n+----+------+------+\n|  1 | foo  |      |\n+----+------+------+\n1 row in set (0.00 sec)";
    let out = filter_mysql_output(input);
    // The empty NULL cell must survive as an empty tab-delimited field.
    assert!(out.contains("1\tfoo\t"));
}

#[test]
fn mysql_cmd_test_empty_input() {
    assert_eq!(filter_mysql_output(""), "");
}

#[test]
fn test_is_table_format() {
    assert!(is_table_format("+----+\n| id |\n+----+"));
    assert!(!is_table_format("id\tname\n1\tfoo"));
    assert!(!is_table_format("Query OK, 1 row affected (0.00 sec)"));
}

#[test]
fn mysql_cmd_test_token_savings() {
    let input = "\
+----+-------------+-------------------+--------+
| id | username    | email             | status |
+----+-------------+-------------------+--------+
|  1 | alice_smith | alice@example.com | active |
|  2 | bob_jones   | bob@example.com   | active |
+----+-------------+-------------------+--------+
2 rows in set (0.00 sec)";
    let out = filter_mysql_output(input);
    let savings = 100.0 - (count_tokens(&out) as f64 / count_tokens(input) as f64 * 100.0);
    assert!(savings >= 60.0, "expected >=60% savings, got {:.1}%", savings);
}

// --- credential safety ---

#[test]
fn test_redact_inline_password() {
    let args = vec!["-t".to_string(), "-pSecret123".to_string()];
    let display = redact_credentials(&args);
    assert_eq!(display, "-t -p***");
    assert!(!display.contains("Secret123"));
}

#[test]
fn test_redact_password_flag() {
    let args = vec!["--password=hunter2".to_string()];
    let display = redact_credentials(&args);
    assert_eq!(display, "--password=***");
    assert!(!display.contains("hunter2"));
}

#[test]
fn test_defaults_file_preserved() {
    let args = vec![
        "--defaults-file=/tmp/.my.cnf".to_string(),
        "-t".to_string(),
        "-e".to_string(),
        "SELECT 1".to_string(),
    ];
    let display = redact_credentials(&args);
    // A path is not a credential — it must remain intact for readability.
    assert!(display.contains("--defaults-file=/tmp/.my.cnf"));
    assert!(display.contains("SELECT 1"));
}

#[test]
fn test_non_credential_flags_untouched() {
    // Bare `-p` (prompt), `-P` (port), `--password` (prompt) are not secrets.
    let args = vec![
        "-p".to_string(),
        "-P3306".to_string(),
        "--password".to_string(),
        "-uroot".to_string(),
    ];
    let display = redact_credentials(&args);
    assert_eq!(display, "-p -P3306 --password -uroot");
}
