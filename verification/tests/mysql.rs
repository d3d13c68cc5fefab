use tablestrip::mysql_cmd::{
    filter_mysql_output, filter_table, is_footer_line, is_table_format, redact_credentials,
};

fn redacted(args: &[&str]) -> String {
    let owned: Vec<String> = args.iter().map(|arg| arg.to_string()).collect();
    redact_credentials(&owned)
}

#[test]
fn a_label_does_not_depend_on_the_password() {
    let a = redacted(&["-t", "-pfirst", "--password=one", "db"]);
    let b = redacted(&["-t", "-psecond word", "--password=\u{2615}", "db"]);
    assert_eq!(a, "-t -p*** --password=*** db");
    assert_eq!(a, b);
}

#[test]
fn a_label_keeps_what_is_no_password() {
    let args = ["-p", "--password", "--password=", "-P3306", "--passwords=x", "p", ""];
    assert_eq!(redacted(&args), args.join(" "));
    assert_eq!(redacted(&[]), "");
}

#[test]
fn redacting_twice_is_redacting_once() {
    assert_eq!(redacted(&["-p***"]), "-p***");
    assert_eq!(redacted(&["--password=***"]), "--password=***");
}

#[test]
fn footers_close_with_a_duration() {
    assert!(is_footer_line("(0.0 sec)"));
    assert!(is_footer_line("  Empty set (12,345 sec)\t"));
    // Digits of any script count.
    assert!(is_footer_line("(\u{660}.\u{661}\u{662} sec)"));
    assert!(is_footer_line("((1.2 sec)"));
    for line in [
        "",
        "(0.00 sec) ok",
        "(.00 sec)",
        "(0. sec)",
        "(0.00sec)",
        "(0;00 sec)",
        "(0.0.0 sec)",
        "(\u{b2}.0 sec)",
        "0.00 sec)",
        "| (0.00 sec)",
    ] {
        assert!(!is_footer_line(line), "{}", line);
    }
}

#[test]
fn table_lines_are_no_footers() {
    for line in ["| a (0.00 sec)", "+----+", "-----", "", "   "] {
        assert!(!is_footer_line(line));
    }
}

#[test]
fn box_borders() {
    for line in ["+-+", "+++", "+--+--+", "  +----+  "] {
        assert!(is_table_format(line), "{}", line);
    }
    for line in ["", "+", "++", "---", "-+-", "+--", "--+", "+- -+", "+-+x"] {
        assert!(!is_table_format(line), "{}", line);
    }
    assert!(is_table_format("notice\n+-+\n"));
}

#[test]
fn filtering_drops_footers_and_nothing_else() {
    let output = "warning: x\n+---+\n| a |\n+---+\n| 1 |\n+---+\n1 row in set (0.00 sec)\n\nbye";
    assert_eq!(filter_table(output), "warning: x\na\n1\nbye");
    assert_eq!(filter_mysql_output(output), "warning: x\na\n1\nbye");
}

#[test]
fn rows_that_mention_durations_stay() {
    let output = "+----------+\n| a        |\n+----------+\n| (1.2 sec)|\n+----------+\n";
    assert_eq!(filter_mysql_output(output), "a\n(1.2 sec)");
}

#[test]
fn blank_output_is_empty() {
    assert_eq!(filter_mysql_output(" \n\t\r\n"), "");
}

#[test]
fn other_output_is_unchanged() {
    for output in [
        "Query OK, 1 row affected (0.00 sec)\n",
        " a | b \n---+---\n 1 | 2 \n",
        "\r\nid\tname\r\n",
    ] {
        assert_eq!(filter_mysql_output(output), output);
    }
}

#[test]
fn a_result_reads_back() {
    let output = "\
+----+---------+
| k  | v       |
+----+---------+
| a| | |||     |
| \u{2615} | x |
+----+---------+
2 rows in set (0.00 sec)

";
    assert_eq!(filter_mysql_output(output), "k\tv\na|\t|||\n\u{2615}\tx");
}
