//! What holds of every label and every filtered result.
use crate::ascii_table::{
    compact_lines, is_decoration, is_row, junctions_in, marks_columns, row_count, JUNCTION,
    SEPARATOR,
};
use crate::drawing::boxed;
use crate::mysql_cmd::{
    carries, filtered, filtered_table, has_box_border, is_footer, label, long_flag, redacted,
    short_flag, without_footers,
};
use crate::pattern_laws::{is_number, law_box_border_characters, law_timing_is_found, timing};
use crate::patterns::{ends_with_timing, is_border, is_border_char, is_box_border, timing_at};
use crate::table_laws::{
    law_decoration_vanishes, law_table_of_lines, lemma_junctions_push, lemma_resplit,
    lemma_return_is_harmless, without_returns,
};
use crate::table_reading::{
    are_rules, boxed_table, capped, is_readable, lemma_boxed_border, lemma_boxed_lines,
    tabbed_rows,
};
use crate::text::{joined, lines_of, trimmed, without_return};
use crate::text_laws::{
    law_joined_grows, law_line_is_part, law_lines_hold_no_line_feed, law_lines_of_joined,
    law_trim_keeps_content, lemma_joined_first,
};
use vstd::prelude::*;

verus! {

/// An argument that carries a password.
pub open spec fn is_credential(arg: Seq<char>) -> bool {
    carries(arg, long_flag()) || carries(arg, short_flag())
}

/// These are the arguments that start with one of the flags and go on behind
/// it; a redacted one no longer tells how.
pub proof fn law_credentials_follow_a_flag(arg: Seq<char>)
    ensures
        is_credential(arg) <==> {
            ||| "-p"@.is_prefix_of(arg) && arg.len() > 2
            ||| "--password="@.is_prefix_of(arg) && arg.len() > 11
        },
        is_credential(arg) ==> redacted(arg) == "-p***"@ || redacted(arg) == "--password=***"@,
        !is_credential(arg) ==> redacted(arg) == arg,
{
    reveal_strlit("--password=");
    reveal_strlit("-p");
    reveal_strlit("***");
    reveal_strlit("--password=***");
    reveal_strlit("-p***");
    assert("--password=***"@ =~= "--password="@ + "***"@);
    assert("-p***"@ =~= "-p"@ + "***"@);
}

/// No argument starts with both flags.
proof fn lemma_flags_differ(arg: Seq<char>)
    ensures
        !("--password="@.is_prefix_of(arg) && "-p"@.is_prefix_of(arg)),
{
    reveal_strlit("--password=");
    reveal_strlit("-p");
    if "--password="@.is_prefix_of(arg) && "-p"@.is_prefix_of(arg) {
        assert(arg.subrange(0, 11)[1] == '-');
        assert(arg.subrange(0, 2)[1] == 'p');
    }
}

/// Whatever a password is, and however long, three asterisks are shown in
/// its place.
pub proof fn law_password_is_redacted(password: Seq<char>)
    requires
        password.len() > 0,
    ensures
        redacted("-p"@ + password) == "-p***"@,
        redacted("--password="@ + password) == "--password=***"@,
        label(seq!["-p"@ + password]) == "-p***"@,
        label(seq!["--password="@ + password]) == "--password=***"@,
{
    reveal_strlit("--password=");
    reveal_strlit("-p");
    reveal_strlit("***");
    reveal_strlit("--password=***");
    reveal_strlit("-p***");
    let short = "-p"@ + password;
    let long = "--password="@ + password;
    assert(short.subrange(0, 2) =~= "-p"@);
    assert(long.subrange(0, 11) =~= "--password="@);
    lemma_flags_differ(short);
    assert("--password=***"@ =~= "--password="@ + "***"@);
    assert("-p***"@ =~= "-p"@ + "***"@);
    lemma_label_of_one(short);
    lemma_label_of_one(long);
}

/// An argument that starts with neither flag is shown as it is, and so is a
/// flag that nothing is attached to.
pub proof fn law_other_arguments_are_shown(arg: Seq<char>)
    requires
        "-p"@.is_prefix_of(arg) ==> arg == "-p"@,
        "--password="@.is_prefix_of(arg) ==> arg == "--password="@,
    ensures
        redacted(arg) == arg,
        label(seq![arg]) == arg,
{
    lemma_label_of_one(arg);
}

proof fn lemma_label_of_one(arg: Seq<char>)
    ensures
        label(seq![arg]) == redacted(arg),
{
    let shown = seq![arg].map_values(|a: Seq<char>| redacted(a));
    assert(shown =~= seq![redacted(arg)]);
}

/// Each argument has a place of its own in a label: one argument more is
/// shown behind the others and a space, as it would be shown alone.
pub proof fn law_label_grows(args: Seq<Seq<char>>, arg: Seq<char>)
    ensures
        label(Seq::empty()) == Seq::<char>::empty(),
        args.len() >= 1 ==> label(args.push(arg)) == label(args) + seq![' '] + label(seq![arg]),
{
    let f = |a: Seq<char>| redacted(a);
    assert(Seq::<Seq<char>>::empty().map_values(f) =~= Seq::empty());
    assert(args.push(arg).map_values(f) =~= args.map_values(f).push(redacted(arg)));
    law_joined_grows(args.map_values(f), redacted(arg), seq![' ']);
    lemma_label_of_one(arg);
}

/// The two arguments are the same, or the same flag with some password.
pub open spec fn differ_by_password(a: Seq<char>, b: Seq<char>) -> bool {
    ||| a == b
    ||| "-p"@.is_prefix_of(a) && "-p"@.is_prefix_of(b) && a.len() > 2 && b.len() > 2
    ||| "--password="@.is_prefix_of(a) && "--password="@.is_prefix_of(b) && a.len() > 11
        && b.len() > 11
}

/// A label never tells a password: arguments that differ only in the
/// passwords they carry have the same label.
pub proof fn law_label_hides_passwords(a: Seq<Seq<char>>, b: Seq<Seq<char>>)
    requires
        a.len() == b.len(),
        forall|i: int|
            #![trigger a[i]]
            #![trigger b[i]]
            0 <= i < a.len() ==> differ_by_password(a[i], b[i]),
    ensures
        label(a) == label(b),
{
    let f = |arg: Seq<char>| redacted(arg);
    reveal_strlit("--password=");
    reveal_strlit("-p");
    assert forall|i: int| 0 <= i < a.len() implies a.map_values(f)[i] == b.map_values(f)[i] by {
        assert(differ_by_password(a[i], b[i]));
        lemma_flags_differ(a[i]);
        lemma_flags_differ(b[i]);
    }
    assert(a.map_values(f) =~= b.map_values(f));
}

/// Arguments without a password are shown as they are.
pub proof fn law_label_keeps_the_rest(args: Seq<Seq<char>>)
    requires
        forall|i: int|
            0 <= i < args.len() ==> ("-p"@.is_prefix_of(#[trigger] args[i]) ==> args[i] == "-p"@)
                && ("--password="@.is_prefix_of(args[i]) ==> args[i] == "--password="@),
    ensures
        label(args) == joined(args, seq![' ']),
{
    assert forall|i: int| 0 <= i < args.len() implies redacted(#[trigger] args[i]) == args[i] by {
        law_other_arguments_are_shown(args[i]);
    }
    assert(args.map_values(|arg: Seq<char>| redacted(arg)) =~= args);
}

/// Redacting an argument that was redacted before changes nothing.
pub proof fn law_redaction_is_final(arg: Seq<char>)
    ensures
        redacted(redacted(arg)) == redacted(arg),
{
    reveal_strlit("--password=");
    reveal_strlit("-p");
    reveal_strlit("***");
    let long = long_flag() + "***"@;
    let short = short_flag() + "***"@;
    assert(long.subrange(0, 11) =~= long_flag());
    assert(short.subrange(0, 2) =~= short_flag());
    lemma_flags_differ(short);
}

/// A line without bars that closes with a duration.
pub open spec fn is_status_line(line: Seq<char>) -> bool {
    !line.contains('|') && ends_with_timing(trimmed(line))
}

/// Such lines are footers, and no others are.
pub proof fn law_status_lines_are_footers(line: Seq<char>)
    ensures
        is_footer(line) <==> is_status_line(line),
{
    law_trim_keeps_content(line, '|');
}

/// Whatever a line without bars says first, and however it is padded, it is a
/// footer where it closes with a duration.
pub proof fn law_timing_makes_a_footer(
    line: Seq<char>,
    head: Seq<char>,
    whole: Seq<char>,
    mark: char,
    fraction: Seq<char>,
)
    requires
        trimmed(line) == head + timing(whole, mark, fraction),
        is_number(whole),
        is_number(fraction),
        mark == '.' || mark == ',',
        !line.contains('|'),
    ensures
        is_footer(line),
{
    law_timing_is_found(head, whole, mark, fraction);
    law_status_lines_are_footers(line);
}

/// The lines that are left are those that are no such lines, all of them and
/// in their order.
pub proof fn law_only_status_lines_are_dropped(lines: Seq<Seq<char>>)
    ensures
        without_footers(lines) == lines.filter(|line: Seq<char>| !is_status_line(line)),
    decreases lines.len(),
{
    reveal(Seq::filter);
    if lines.len() > 0 {
        law_only_status_lines_are_dropped(lines.drop_last());
        law_status_lines_are_footers(lines.last());
    }
}

/// A line with a bar, a blank line or a border is never taken for a footer.
pub proof fn law_table_lines_are_no_footers(line: Seq<char>)
    ensures
        line.contains(SEPARATOR) ==> !is_footer(line),
        is_row(line) ==> !is_footer(line),
        is_decoration(line) ==> !is_footer(line),
        marks_columns(line) ==> !is_footer(line),
{
    let inner = trimmed(line);
    law_trim_keeps_content(line, SEPARATOR);
    if ends_with_timing(inner) {
        let (open, mark) = choose|open: int, mark: int| #[trigger] timing_at(inner, open, mark);
        assert(inner[open] == '(');
        assert(is_border(inner) ==> is_border_char(inner[open]));
    }
}

/// Dropping footers drops no row, and takes no border away.
pub proof fn law_footers_hold_no_rows(lines: Seq<Seq<char>>)
    ensures
        row_count(without_footers(lines)) == row_count(lines),
        junctions_in(without_footers(lines)) == junctions_in(lines),
        forall|k: int|
            0 <= k < without_footers(lines).len() ==> !is_footer(
                #[trigger] without_footers(lines)[k],
            ) && lines.contains(without_footers(lines)[k]),
    decreases lines.len(),
{
    reveal(Seq::filter);
    let kept = without_footers(lines);
    if lines.len() > 0 {
        let init = lines.drop_last();
        let last = lines.last();
        let before = without_footers(init);
        law_footers_hold_no_rows(init);
        law_table_lines_are_no_footers(last);
        assert(lines =~= init.push(last));
        lemma_junctions_push(init, last);
        if !is_footer(last) {
            assert(kept =~= before.push(last));
            assert(kept.drop_last() =~= before);
            lemma_junctions_push(before, last);
        } else {
            assert(kept =~= before);
        }
        assert forall|k: int| 0 <= k < kept.len() implies !is_footer(#[trigger] kept[k])
            && lines.contains(kept[k]) by {
            if k < before.len() {
                assert(kept[k] == before[k]);
                let i = init.index_of(before[k]);
                assert(lines[i] == kept[k]);
            } else {
                assert(lines[lines.len() - 1] == last);
            }
        }
    } else {
        assert(kept =~= lines);
    }
}

/// Table-mode output is stripped line by line, with its status lines left out
/// and nothing else lost.
pub proof fn law_filtering_only_drops_footers(output: Seq<char>)
    ensures
        filtered_table(output) == joined(
            compact_lines(
                lines_of(output).filter(|line: Seq<char>| !is_status_line(line)),
                junctions_in(lines_of(output)),
                true,
            ),
            seq!['\n'],
        ),
{
    let lines = lines_of(output);
    let kept = without_footers(lines);
    law_only_status_lines_are_dropped(lines);
    law_footers_hold_no_rows(lines);
    law_lines_hold_no_line_feed(output);
    assert forall|k: int| 0 <= k < kept.len() implies !(#[trigger] kept[k]).contains('\n') by {
        let i = lines.index_of(kept[k]);
        assert(!lines[i].contains('\n'));
    }
    law_table_of_lines(kept, true);
}

/// A plus sign at both ends, dashes and plus signs in between, at least one,
/// and any space around it all.
pub open spec fn is_boxed_border(line: Seq<char>) -> bool {
    let inner = trimmed(line);
    &&& inner.len() >= 3
    &&& inner[0] == '+' && inner[inner.len() - 1] == '+'
    &&& forall|i: int| 0 <= i < inner.len() ==> #[trigger] inner[i] == '-' || inner[i] == '+'
}

/// Output is a table exactly where one of its lines is such a border.
pub proof fn law_table_has_a_boxed_border(lines: Seq<Seq<char>>)
    ensures
        has_box_border(lines) <==> exists|i: int|
            0 <= i < lines.len() && is_boxed_border(#[trigger] lines[i]),
{
    assert forall|i: int| 0 <= i < lines.len() implies (is_box_border(
        trimmed(#[trigger] lines[i]),
    ) <==> is_boxed_border(lines[i])) by {
        law_box_border_characters(trimmed(lines[i]));
    }
}

/// Output without such a border is not touched, unless it is blank; then
/// nothing is left of it.
pub proof fn law_other_output_is_unchanged(output: Seq<char>)
    requires
        forall|i: int|
            0 <= i < lines_of(output).len() ==> !is_boxed_border(#[trigger] lines_of(output)[i]),
    ensures
        trimmed(output).len() > 0 ==> filtered(output) == output,
        trimmed(output).len() == 0 ==> filtered(output) == Seq::<char>::empty(),
{
    law_table_has_a_boxed_border(lines_of(output));
}

/// Output with such a border, wherever it stands, is stripped line by line,
/// with its status lines left out and nothing else lost.
pub proof fn law_table_output_is_stripped(output: Seq<char>, i: int)
    requires
        0 <= i < lines_of(output).len(),
        is_boxed_border(lines_of(output)[i]),
    ensures
        filtered(output) == joined(
            compact_lines(
                lines_of(output).filter(|line: Seq<char>| !is_status_line(line)),
                junctions_in(lines_of(output)),
                true,
            ),
            seq!['\n'],
        ),
{
    law_table_has_a_boxed_border(lines_of(output));
    law_filtering_only_drops_footers(output);
    law_line_is_part(output, i);
    law_trim_keeps_content(lines_of(output)[i], '+');
    law_trim_keeps_content(output, '+');
    assert(trimmed(lines_of(output)[i])[0] == '+');
}

/// A line that may follow a table: a status line or a blank line.
pub open spec fn is_closing(line: Seq<char>) -> bool {
    &&& is_status_line(line) || trimmed(line).len() == 0
    &&& !line.contains('\n')
}

/// Lines without footers lose nothing.
proof fn lemma_no_footers(lines: Seq<Seq<char>>)
    requires
        forall|k: int| 0 <= k < lines.len() ==> !is_footer(#[trigger] lines[k]),
    ensures
        without_footers(lines) == lines,
    decreases lines.len(),
{
    reveal(Seq::filter);
    if lines.len() > 0 {
        let init = lines.drop_last();
        assert forall|k: int| 0 <= k < init.len() implies !is_footer(#[trigger] init[k]) by {
            assert(init[k] == lines[k]);
        }
        lemma_no_footers(init);
        assert(!is_footer(lines[lines.len() - 1]));
        assert(without_footers(lines) =~= lines);
    } else {
        assert(without_footers(lines) =~= lines);
    }
}

/// Decoration at the end of a table changes nothing.
proof fn lemma_trailing_decoration(
    lines: Seq<Seq<char>>,
    more: Seq<Seq<char>>,
    junctions: Seq<int>,
)
    requires
        forall|k: int| 0 <= k < more.len() ==> is_decoration(#[trigger] more[k]),
    ensures
        compact_lines(lines + more, junctions, true) == compact_lines(lines, junctions, true),
    decreases more.len(),
{
    if more.len() == 0 {
        assert(lines + more =~= lines);
    } else {
        let init = more.drop_last();
        let none = Seq::<Seq<char>>::empty();
        assert forall|k: int| 0 <= k < init.len() implies is_decoration(#[trigger] init[k]) by {
            assert(init[k] == more[k]);
        }
        assert(is_decoration(more[more.len() - 1]));
        lemma_trailing_decoration(lines, init, junctions);
        law_decoration_vanishes(lines + init, more.last(), none, junctions, true);
        assert((lines + init) + seq![more.last()] + none =~= lines + more);
        assert((lines + init) + none =~= lines + init);
    }
}

/// A drawn table is no footer and ends every line with a mark.
proof fn lemma_boxed_table_lines(rules: Seq<Seq<char>>, rows: Seq<Seq<Seq<char>>>)
    requires
        rows.len() >= 1,
        are_rules(rules),
    ensures
        ({
            let lines = boxed_table(rules, rows);
            &&& lines.first() == boxed(rules, JUNCTION)
            &&& marks_columns(lines.first())
            &&& trimmed(lines.first()) == lines.first()
            &&& forall|k: int|
                0 <= k < lines.len() ==> {
                    &&& !is_footer(#[trigger] lines[k])
                    &&& without_return(lines[k]) == lines[k]
                    &&& lines[k].len() > 0
                }
        }),
{
    let lines = boxed_table(rules, rows);
    let border = boxed(rules, JUNCTION);
    lemma_boxed_border(rules);
    law_table_lines_are_no_footers(border);
    assert(border.last() == JUNCTION);
    assert forall|k: int| 0 <= k < lines.len() implies {
        &&& !is_footer(#[trigger] lines[k])
        &&& without_return(lines[k]) == lines[k]
        &&& lines[k].len() > 0
    } by {
        if k == 1 || 3 <= k < lines.len() - 1 {
            let row = if k == 1 { rows[0] } else { rows[k - 2] };
            assert(lines[k] == boxed(row, SEPARATOR));
            assert(lines[k][0] == SEPARATOR);
            assert(lines[k].last() == SEPARATOR);
            law_table_lines_are_no_footers(lines[k]);
        } else {
            assert(lines[k] == border);
        }
    }
}

/// A joined text starts with its first part.
proof fn lemma_joined_starts(parts: Seq<Seq<char>>, separator: Seq<char>)
    requires
        parts.len() >= 1,
    ensures
        parts[0].is_prefix_of(joined(parts, separator)),
{
    if parts.len() == 1 {
        assert(parts[0] =~= parts[0].subrange(0, parts[0].len() as int));
    } else {
        lemma_joined_first(parts, separator);
        let whole = joined(parts, separator);
        assert(whole.subrange(0, parts[0].len() as int) =~= parts[0]);
    }
}

/// Behind the lines of a table, lines that close it come back as such lines.
proof fn lemma_closing_lines(table: Seq<Seq<char>>, after: Seq<Seq<char>>) -> (rest: Seq<
    Seq<char>,
>)
    requires
        table.len() > 0,
        forall|k: int| 0 <= k < table.len() ==> !(#[trigger] table[k]).contains('\n'),
        forall|k: int|
            0 <= k < table.len() ==> {
                &&& !is_footer(#[trigger] table[k])
                &&& without_return(table[k]) == table[k]
                &&& table[k].len() > 0
            },
        forall|k: int| 0 <= k < after.len() ==> is_closing(#[trigger] after[k]),
    ensures
        lines_of(joined(table + after, seq!['\n'])) == table + rest,
        forall|k: int| 0 <= k < rest.len() ==> is_closing(#[trigger] rest[k]),
{
    let lines = table + after;
    assert forall|k: int| 0 <= k < lines.len() implies !(#[trigger] lines[k]).contains('\n') by {
        if k < table.len() {
            assert(lines[k] == table[k]);
        } else {
            assert(lines[k] == after[k - table.len()]);
            assert(is_closing(after[k - table.len()]));
        }
    }
    law_lines_of_joined(lines);
    lemma_resplit(lines);
    let init = lines.drop_last();
    if after.len() == 0 {
        assert(lines =~= table);
        assert(lines.last() == table[table.len() - 1]);
        assert(without_returns(init).push(lines.last()) =~= table + after);
        after
    } else {
        let less = after.drop_last();
        let stripped = without_returns(less);
        assert(init =~= table + less);
        assert(without_returns(init) =~= table + stripped);
        assert forall|k: int| 0 <= k < stripped.len() implies is_closing(
            #[trigger] stripped[k],
        ) by {
            assert(less[k] == after[k]);
            assert(is_closing(after[k]));
            lemma_return_is_harmless(less[k], Seq::empty(), true);
            if stripped[k].contains('\n') {
                let i = stripped[k].index_of('\n');
                assert(less[k][i] == '\n');
            }
        }
        assert(lines.last() == after[after.len() - 1]);
        assert(is_closing(after[after.len() - 1]));
        if lines.last().len() == 0 {
            stripped
        } else {
            let rest = stripped.push(lines.last());
            assert(without_returns(init).push(lines.last()) =~= table + rest);
            rest
        }
    }
}

/// What closes a table is not shown.
proof fn lemma_closing_is_dropped(
    table: Seq<Seq<char>>,
    rest: Seq<Seq<char>>,
    junctions: Seq<int>,
)
    requires
        forall|k: int| 0 <= k < table.len() ==> !is_footer(#[trigger] table[k]),
        forall|k: int| 0 <= k < rest.len() ==> is_closing(#[trigger] rest[k]),
    ensures
        compact_lines(without_footers(table + rest), junctions, true) == compact_lines(
            table,
            junctions,
            true,
        ),
{
    let pred = |line: Seq<char>| !is_footer(line);
    let blank = without_footers(rest);
    Seq::filter_distributes_over_add(table, rest, pred);
    lemma_no_footers(table);
    assert(without_footers(table + rest) == table + blank);
    law_footers_hold_no_rows(rest);
    assert forall|k: int| 0 <= k < blank.len() implies is_decoration(#[trigger] blank[k]) by {
        let i = rest.index_of(blank[k]);
        assert(is_closing(rest[i]));
        law_status_lines_are_footers(rest[i]);
    }
    lemma_trailing_decoration(table, blank, junctions);
}

/// Output that opens with a boxed border is filtered as a table.
proof fn lemma_opens_with_border(lines: Seq<Seq<char>>, again: Seq<Seq<char>>)
    requires
        lines.len() > 0,
        again.len() > 0,
        again[0] == lines[0],
        trimmed(lines[0]) == lines[0],
        is_box_border(lines[0]),
        lines_of(joined(lines, seq!['\n'])) == again,
    ensures
        filtered(joined(lines, seq!['\n'])) == filtered_table(joined(lines, seq!['\n'])),
{
    let output = joined(lines, seq!['\n']);
    lemma_joined_starts(lines, seq!['\n']);
    assert(output.subrange(0, lines[0].len() as int)[0] == '+');
    assert(output[0] == JUNCTION);
    law_trim_keeps_content(output, JUNCTION);
    assert(is_box_border(trimmed(again[0])));
}

/// A result is read back: a boxed table comes out as lines of bare cells
/// with tabs between them, without borders and padding, and without the
/// footer and the blank lines that may follow. A bar inside a cell stays in
/// it.
pub proof fn law_result_reads_back(
    rules: Seq<Seq<char>>,
    rows: Seq<Seq<Seq<char>>>,
    after: Seq<Seq<char>>,
)
    requires
        rules.len() >= 1,
        rows.len() >= 1,
        are_rules(rules),
        boxed(rules, JUNCTION).len() >= 3,
        forall|r: int|
            0 <= r < rows.len() ==> is_readable(#[trigger] rows[r], rules, rules.len() as int),
        forall|k: int| 0 <= k < after.len() ==> is_closing(#[trigger] after[k]),
    ensures
        filtered(joined(boxed_table(rules, rows) + after, seq!['\n'])) == joined(
            capped(tabbed_rows(rows)),
            seq!['\n'],
        ),
{
    let table = boxed_table(rules, rows);
    let border = boxed(rules, JUNCTION);
    let lines = table + after;
    let output = joined(lines, seq!['\n']);
    lemma_boxed_lines(rules, rows);
    lemma_boxed_table_lines(rules, rows);
    lemma_boxed_border(rules);
    let rest = lemma_closing_lines(table, after);
    let again = table + rest;
    assert(again.first() == border && table.first() == border);
    assert(junctions_in(again) == junctions_in(table));
    lemma_closing_is_dropped(table, rest, junctions_in(table));
    law_filtering_only_drops_footers(output);
    law_only_status_lines_are_dropped(again);
    assert(border.first() == '+' && border.last() == '+');
    lemma_opens_with_border(lines, again);
}

} // verus!
