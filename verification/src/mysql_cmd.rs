//! MySQL client (mysql) output compression.
//!
//! Detects table-mode output (`+----+` box borders, as produced by `-t` or the
//! interactive default), strips the borders, padding, and `... (N.NN sec)`
//! footer, and delegates row de-formatting to the shared [`strip_ascii_table`].
//! Batch mode (`-B`, already tab-separated) and vertical `\G` output are passed
//! through unchanged.
//!
//! Credential safety: the child command receives every argument untouched (so
//! `--defaults-file` and any auth flags work), but the label handed to the
//! runner for tracking/logging is scrubbed: an inline `-p<password>` or
//! `--password=<value>` is never persisted. See [`redact_credentials`].
//!
//! # Example
//!
//! Raw `mysql -t` table output:
//!
//! ```text
//! +----+-------------+-------------------+--------+
//! | id | username    | email             | status |
//! +----+-------------+-------------------+--------+
//! |  1 | alice_smith | alice@example.com | active |
//! |  2 | bob_jones   | bob@example.com   | active |
//! +----+-------------+-------------------+--------+
//! 2 rows in set (0.00 sec)
//! ```
//!
//! Compressed to tab-separated rows (`\t` marks each tab; borders and footer
//! gone):
//!
//! ```text
//! id\tusername\temail\tstatus
//! 1\talice_smith\talice@example.com\tactive
//! 2\tbob_jones\tbob@example.com\tactive
//! ```
use crate::ascii_table::{compact_table, strip_ascii_table, TableShape, SEPARATOR};
use crate::mysql_laws::{
    is_boxed_border, is_status_line, law_status_lines_are_footers, law_table_has_a_boxed_border,
};
use crate::patterns::{
    compiled, ends_with_timing, is_box_border, BOX_BORDER_PATTERN, TIMING_PATTERN,
};
use crate::text::{
    chars_of, contains_char, join, join_strings, joined, lines_of, split_lines, starts_with,
    string_views, trim, trimmed, views,
};
use regex::Regex;
use vstd::prelude::*;

verus! {

/// The flag that carries a password in its long form.
pub open spec fn long_flag() -> Seq<char> {
    "--password="@
}

/// The flag that carries a password in its short form.
pub open spec fn short_flag() -> Seq<char> {
    "-p"@
}

/// An argument that carries a password after the given flag.
pub open spec fn carries(arg: Seq<char>, flag: Seq<char>) -> bool {
    flag.is_prefix_of(arg) && arg.len() > flag.len()
}

/// An argument as it may be shown: a password becomes three asterisks, and
/// whatever carries none stays as it is.
pub open spec fn redacted(arg: Seq<char>) -> Seq<char> {
    if carries(arg, long_flag()) {
        long_flag() + "***"@
    } else if carries(arg, short_flag()) {
        short_flag() + "***"@
    } else {
        arg
    }
}

/// The arguments as they may be shown.
pub open spec fn label(args: Seq<Seq<char>>) -> Seq<char> {
    joined(args.map_values(|arg: Seq<char>| redacted(arg)), seq![' '])
}

/// The closing status line of a result, such as `2 rows in set (0.00 sec)`.
/// It has no bars, which every table row has.
pub open spec fn is_footer(line: Seq<char>) -> bool {
    !trimmed(line).contains(SEPARATOR) && ends_with_timing(trimmed(line))
}

/// The lines that are no footers, in their order.
pub open spec fn without_footers(lines: Seq<Seq<char>>) -> Seq<Seq<char>> {
    lines.filter(|line: Seq<char>| !is_footer(line))
}

/// One of the lines is a border of a boxed table.
pub open spec fn has_box_border(lines: Seq<Seq<char>>) -> bool {
    exists|i: int| 0 <= i < lines.len() && is_box_border(trimmed(#[trigger] lines[i]))
}

/// The compact form of table-mode output.
pub open spec fn filtered_table(output: Seq<char>) -> Seq<char> {
    compact_table(joined(without_footers(lines_of(output)), seq!['\n']), true)
}

/// The compact form of any output. Only a table can be made shorter.
pub open spec fn filtered(output: Seq<char>) -> Seq<char> {
    if trimmed(output).len() == 0 {
        Seq::empty()
    } else if has_box_border(lines_of(output)) {
        filtered_table(output)
    } else {
        output
    }
}

/// One argument as it may be shown.
fn redact(arg: &str) -> (shown: String)
    ensures
        shown@ == redacted(arg@),
{
    proof {
        reveal_strlit("--password=");
        reveal_strlit("-p");
        reveal_strlit("***");
        reveal_strlit("--password=***");
        reveal_strlit("-p***");
        assert("--password=***"@ =~= long_flag() + "***"@);
        assert("-p***"@ =~= short_flag() + "***"@);
    }
    let length = chars_of(arg).len();
    if starts_with(arg, "--password=") {
        if length == 11 {
            // Its second character is a dash, so it has no short flag either.
            assert(arg@.subrange(0, 11)[1] == '-');
            assert(short_flag().is_prefix_of(arg@) ==> arg@.subrange(0, 2)[1] == 'p');
            arg.to_owned()
        } else {
            "--password=***".to_owned()
        }
    } else if starts_with(arg, "-p") && length > 2 {
        "-p***".to_owned()
    } else {
        arg.to_owned()
    }
}

/// Build a display string with inline credentials redacted. Only the *label*
/// is affected; the executed command still receives the real values.
///
/// MySQL only accepts a password *attached* to the flag (`-pSECRET`,
/// `--password=SECRET`); a bare `-p`/`--password` prompts interactively and a
/// space-separated token is treated as a database name, so a single-arg scan is
/// sufficient. `-P` (uppercase, port) and `--defaults-file` are left intact.
pub fn redact_credentials(args: &[String]) -> (display: String)
    ensures
        display@ == label(string_views(args@)),
{
    let mut shown: Vec<String> = Vec::new();
    let ghost all = string_views(args@).map_values(|arg: Seq<char>| redacted(arg));
    let mut i: usize = 0;
    while i < args.len()
        invariant
            i <= args.len(),
            all == string_views(args@).map_values(|arg: Seq<char>| redacted(arg)),
            string_views(shown@) == all.take(i as int),
        decreases args.len() - i,
    {
        let ghost before = shown@;
        let arg = redact(args[i].as_str());
        shown.push(arg);
        assert(string_views(shown@) =~= string_views(before).push(arg@));
        assert(all.take(i + 1) =~= all.take(i as int).push(all[i as int]));
        i = i + 1;
    }
    proof {
        assert(all.take(i as int) =~= all);
        reveal_strlit(" ");
        assert(" "@ =~= seq![' ']);
    }
    join_strings(&shown, " ")
}

/// Does the output hold a box table?
pub fn is_table_format(output: &str) -> (b: bool)
    ensures
        b == has_box_border(lines_of(output@)),
        b <==> exists|i: int|
            0 <= i < lines_of(output@).len() && is_boxed_border(#[trigger] lines_of(output@)[i]),
{
    proof {
        law_table_has_a_boxed_border(lines_of(output@));
    }
    let border = Regex::new(BOX_BORDER_PATTERN).unwrap();
    let lines = split_lines(output);
    let mut i: usize = 0;
    while i < lines.len()
        invariant
            border == compiled(BOX_BORDER_PATTERN@),
            views(lines@) == lines_of(output@),
            i <= lines.len(),
            forall|k: int| 0 <= k < i ==> !is_box_border(trimmed(#[trigger] views(lines@)[k])),
        decreases lines.len() - i,
    {
        assert(views(lines@)[i as int] == lines@[i as int]@);
        if border.is_match(trim(lines[i])) {
            return true;
        }
        i = i + 1;
    }
    false
}

/// Is this line a footer, given the compiled timing pattern?
fn matches_footer(timing: &Regex, line: &str) -> (b: bool)
    requires
        *timing == compiled(TIMING_PATTERN@),
    ensures
        b == is_footer(line@),
{
    let inner = trim(line);
    !contains_char(inner, SEPARATOR) && timing.is_match(inner)
}

/// Is this line the trailing `N rows in set (0.00 sec)` status line?
///
/// A cell value can legitimately contain a `(N.NN sec)`-shaped substring, so
/// matching the timing pattern alone would silently delete data rows. mysql
/// wraps every table row in `|` bars and never puts one in a status line, so
/// the bar is the discriminator.
pub fn is_footer_line(line: &str) -> (b: bool)
    ensures
        b == is_footer(line@),
        b <==> is_status_line(line@),
{
    proof {
        law_status_lines_are_footers(line@);
    }
    let timing = Regex::new(TIMING_PATTERN).unwrap();
    matches_footer(&timing, line)
}

/// Drop the `(N.NN sec)` footer, then hand the rest to the shared ASCII-table
/// stripper. mysql wraps every row in outer bars, so `has_outer_pipes` is true.
pub fn filter_table(output: &str) -> (table: String)
    ensures
        table@ == filtered_table(output@),
{
    let timing = Regex::new(TIMING_PATTERN).unwrap();
    let lines = split_lines(output);
    let ghost all = lines_of(output@);
    let mut kept: Vec<&str> = Vec::new();
    let mut i: usize = 0;
    proof {
        reveal(Seq::filter);
        assert(views(kept@) =~= without_footers(all.take(0)));
    }
    while i < lines.len()
        invariant
            timing == compiled(TIMING_PATTERN@),
            all == views(lines@),
            i <= lines.len(),
            views(kept@) == without_footers(all.take(i as int)),
        decreases lines.len() - i,
    {
        let line = lines[i];
        let ghost before = kept@;
        proof {
            reveal(Seq::filter);
            assert(all.take(i + 1).drop_last() =~= all.take(i as int));
            assert(all.take(i + 1).last() == line@);
        }
        if !matches_footer(&timing, line) {
            kept.push(line);
            assert(views(kept@) =~= views(before).push(line@));
        }
        i = i + 1;
    }
    proof {
        assert(all.take(i as int) =~= all);
        reveal_strlit("\n");
        assert("\n"@ =~= seq!['\n']);
    }
    let body = join(&kept, "\n");
    strip_ascii_table(body.as_str(), TableShape { has_outer_pipes: true })
}

/// Compress what mysql printed.
pub fn filter_mysql_output(output: &str) -> (compact: String)
    ensures
        compact@ == filtered(output@),
        trimmed(output@).len() == 0 ==> compact@.len() == 0,
        trimmed(output@).len() > 0 && (forall|i: int|
            0 <= i < lines_of(output@).len() ==> !is_boxed_border(
                #[trigger] lines_of(output@)[i],
            )) ==> compact@ == output@,
{
    proof {
        law_table_has_a_boxed_border(lines_of(output@));
    }
    if trim(output).is_empty() {
        return String::new();
    }
    if is_table_format(output) {
        filter_table(output)
    } else {
        // Batch mode (`-B`, already TSV), vertical `\G`, `Query OK` status
        // lines, notices: nothing to compress, pass through untouched.
        output.to_owned()
    }
}

} // verus!
