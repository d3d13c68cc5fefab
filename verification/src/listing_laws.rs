//! What is shown of the lines of a table, and what is said of the rest.
use crate::ascii_table::{
    compact_lines, compact_table, is_decoration, is_row, junctions_in, overflow_marker, row_count,
    shown,
};
use crate::cell_laws::{cells_of, law_compact_row_keeps_every_cell};
use crate::pattern_laws::law_border_characters;
use crate::table_reading::lemma_bar_makes_row;
use crate::text::{decimal, joined, lines_of, trimmed};
use crate::text_laws::{law_decimal_tells_the_number, law_trim_keeps_content, value_of};
use crate::truncate::CAP_LIST;
use vstd::prelude::*;

verus! {

/// Twenty data rows are shown.
pub proof fn law_cap()
    ensures
        CAP_LIST == 20,
{
}

/// Nothing but dashes and plus signs, or nothing at all, but for the space
/// around it.
pub open spec fn is_blank_or_border(line: Seq<char>) -> bool {
    forall|i: int|
        0 <= i < trimmed(line).len() ==> #[trigger] trimmed(line)[i] == '-' || trimmed(line)[i]
            == '+'
}

/// Such lines are decoration, and no others are.
pub proof fn law_decoration(line: Seq<char>)
    ensures
        is_decoration(line) <==> is_blank_or_border(line),
{
    law_border_characters(trimmed(line));
}

/// The lines with a bar in them are the rows.
pub proof fn law_rows_have_bars(line: Seq<char>)
    ensures
        is_row(line) <==> line.contains('|'),
{
    law_trim_keeps_content(line, '|');
    if line.contains('|') {
        lemma_bar_makes_row(line);
    }
}

/// The number of rows is the number of lines with a bar in them.
pub proof fn law_row_count(lines: Seq<Seq<char>>)
    ensures
        row_count(lines) == lines.filter(|line: Seq<char>| line.contains('|')).len(),
    decreases lines.len(),
{
    reveal(Seq::filter);
    if lines.len() > 0 {
        law_row_count(lines.drop_last());
        law_rows_have_bars(lines.last());
    }
}

/// One line more: a row is added with all its cells, so long as no more than
/// the header and `CAP_LIST` data rows are shown; a blank line or a border
/// is not; any other line is, without the space around it. What was shown
/// before stays as it is.
pub proof fn law_shown_grows(
    lines: Seq<Seq<char>>,
    line: Seq<char>,
    junctions: Seq<int>,
    has_outer_pipes: bool,
)
    ensures
        shown(Seq::empty(), junctions, has_outer_pipes) == Seq::<Seq<char>>::empty(),
        ({
            let before = shown(lines, junctions, has_outer_pipes);
            let after = shown(lines.push(line), junctions, has_outer_pipes);
            let rows = lines.filter(|l: Seq<char>| l.contains('|')).len();
            if line.contains('|') {
                if rows <= CAP_LIST {
                    after == before.push(
                        joined(cells_of(line, junctions, has_outer_pipes), seq!['\t']),
                    )
                } else {
                    after == before
                }
            } else if is_blank_or_border(line) {
                after == before
            } else {
                after == before.push(trimmed(line))
            }
        }),
{
    assert(lines.push(line).drop_last() =~= lines);
    law_row_count(lines);
    law_rows_have_bars(line);
    law_decoration(line);
    law_compact_row_keeps_every_cell(line, junctions, has_outer_pipes);
}

/// The marker is `... +`, the number of dropped rows in decimal notation, and
/// ` more rows`.
pub proof fn law_marker_tells_the_number(dropped: nat) -> (digits: Seq<char>)
    ensures
        overflow_marker(dropped) == "... +"@ + digits + " more rows"@,
        value_of(digits) == dropped,
        digits.len() >= 1,
        forall|i: int| 0 <= i < digits.len() ==> '0' <= #[trigger] digits[i] <= '9',
        digits.len() > 1 ==> digits[0] != '0',
{
    law_decimal_tells_the_number(dropped);
    decimal(dropped)
}

/// Different numbers of dropped rows have different markers.
pub proof fn law_markers_differ(a: nat, b: nat)
    requires
        overflow_marker(a) == overflow_marker(b),
    ensures
        a == b,
{
    let x = law_marker_tells_the_number(a);
    let y = law_marker_tells_the_number(b);
    let n = "... +"@.len() as int;
    let m = overflow_marker(a);
    let end = m.len() - " more rows"@.len();
    assert(m.subrange(n, end) =~= x);
    assert(m.subrange(n, end) =~= y);
}

/// Up to a header and `CAP_LIST` data rows, what is shown is all there is.
/// Beyond that, one line is added at the end, which tells how many data rows
/// were dropped.
pub proof fn law_dropped_rows_are_counted(
    lines: Seq<Seq<char>>,
    junctions: Seq<int>,
    has_outer_pipes: bool,
) -> (digits: Seq<char>)
    ensures
        ({
            let rows = lines.filter(|line: Seq<char>| line.contains('|')).len();
            let before = shown(lines, junctions, has_outer_pipes);
            let all = compact_lines(lines, junctions, has_outer_pipes);
            &&& rows <= CAP_LIST + 1 ==> all == before
            &&& rows > CAP_LIST + 1 ==> {
                &&& all == before.push("... +"@ + digits + " more rows"@)
                &&& value_of(digits) == rows - 1 - CAP_LIST
                &&& digits.len() >= 1
                &&& forall|i: int| 0 <= i < digits.len() ==> '0' <= #[trigger] digits[i] <= '9'
                &&& digits.len() > 1 ==> digits[0] != '0'
            }
        }),
{
    law_row_count(lines);
    let rows = row_count(lines);
    if rows > CAP_LIST + 1 {
        law_marker_tells_the_number((rows - 1 - CAP_LIST) as nat)
    } else {
        Seq::empty()
    }
}

/// A body is compacted line by line, with a line feed between any two lines.
pub proof fn law_body_is_compacted_by_line(body: Seq<char>, has_outer_pipes: bool)
    ensures
        compact_table(body, has_outer_pipes) == joined(
            compact_lines(lines_of(body), junctions_in(lines_of(body)), has_outer_pipes),
            seq!['\n'],
        ),
{
}

} // verus!
