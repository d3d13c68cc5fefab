//! Strips ASCII table decoration (box borders and cell padding) into compact
//! tab-separated rows. Generic: it knows nothing about SQL. Footer lines and
//! any format-specific quirks are the caller's responsibility to strip before
//! calling here.
//!
//! # Example
//!
//! Raw table body (borders + alignment padding):
//!
//! ```text
//! +----+-------------+-------------------+--------+
//! | id | username    | email             | status |
//! +----+-------------+-------------------+--------+
//! |  1 | alice_smith | alice@example.com | active |
//! |  2 | bob_jones   | bob@example.com   | active |
//! +----+-------------+-------------------+--------+
//! ```
//!
//! Compressed to tab-separated rows (`\t` marks each tab; borders and padding
//! gone):
//!
//! ```text
//! id\tusername\temail\tstatus
//! 1\talice_smith\talice@example.com\tactive
//! 2\tbob_jones\tbob@example.com\tactive
//! ```
use crate::bytes::{
    byte_slice, lemma_ascii_byte_char, lemma_start_is_boundary, lemma_start_step, slice_bytes,
};
use crate::patterns::{compiled, is_border, BORDER_PATTERN};
use crate::text::{
    contains_char, decimal, join, join_strings, joined, lines_of, pieces, split_lines, split_on,
    string_views, to_decimal, trim, trimmed, views,
};
use crate::truncate::CAP_LIST;
use regex::Regex;
use vstd::prelude::*;
use vstd::string::StringExecFns;
use vstd::utf8::{
    encode_utf8, encode_utf8_valid_utf8, is_char_boundary, is_char_boundary_start_end_of_seq,
};

verus! {

/// Column junction character in the border row (`----+----`).
pub const JUNCTION: char = '+';

/// Cell separator character in data rows (`| a | b |`).
pub const SEPARATOR: char = '|';

pub struct TableShape {
    /// Rows are wrapped in outer bars (`| a | b |`) as in mysql. psql tables
    /// have no outer bars, so this is `false` for them.
    pub has_outer_pipes: bool,
}

/// The positions of a byte, in ascending order.
pub open spec fn positions(bytes: Seq<u8>, byte: u8) -> Seq<int>
    decreases bytes.len(),
{
    if bytes.len() == 0 {
        Seq::empty()
    } else {
        let before = positions(bytes.drop_last(), byte);
        if bytes.last() == byte {
            before.push(bytes.len() - 1)
        } else {
            before
        }
    }
}

/// Machine offsets as numbers.
pub open spec fn offsets(v: Seq<usize>) -> Seq<int> {
    v.map_values(|j: usize| j as int)
}

/// A border row, possibly indented, that marks column junctions.
pub open spec fn marks_columns(line: Seq<char>) -> bool {
    is_border(trimmed(line)) && line.contains(JUNCTION)
}

/// The byte offsets of the junctions in the first line that marks columns;
/// none where no line does.
pub open spec fn junctions_in(lines: Seq<Seq<char>>) -> Seq<int>
    decreases lines.len(),
{
    if lines.len() == 0 {
        Seq::empty()
    } else if marks_columns(lines.first()) {
        positions(encode_utf8(lines.first()), JUNCTION as u8)
    } else {
        junctions_in(lines.drop_first())
    }
}

/// The junctions of a table body.
pub open spec fn junctions_of(body: Seq<char>) -> Seq<int> {
    junctions_in(lines_of(body))
}

/// The row carries a separator at every junction.
pub open spec fn lines_up(line: Seq<char>, junctions: Seq<int>) -> bool {
    forall|k: int|
        0 <= k < junctions.len() ==> 0 <= #[trigger] junctions[k] < encode_utf8(line).len()
            && encode_utf8(line)[junctions[k]] == SEPARATOR as u8
}

/// Each junction lies beyond the one before it.
pub open spec fn ascending(junctions: Seq<int>) -> bool {
    forall|i: int, k: int|
        0 <= i < k < junctions.len() ==> #[trigger] junctions[i] < #[trigger] junctions[k]
}

/// The byte ranges of the columns. With outer bars they lie between
/// neighbouring junctions; without, the two ends of the row bound the first
/// and the last column as well.
pub open spec fn columns(junctions: Seq<int>, end: int, has_outer_pipes: bool) -> Seq<(int, int)> {
    if has_outer_pipes {
        Seq::new((junctions.len() - 1) as nat, |k: int| (junctions[k] + 1, junctions[k + 1]))
    } else {
        Seq::new(
            junctions.len() + 1,
            |k: int|
                (
                    if k == 0 { 0 } else { junctions[k - 1] + 1 },
                    if k == junctions.len() { end } else { junctions[k] },
                ),
        )
    }
}

/// The text of one column of a row, without its padding.
pub open spec fn cell_in(line: Seq<char>, column: (int, int)) -> Seq<char> {
    trimmed(byte_slice(line, column.0, column.1))
}

/// The cells of a row by column. There are none to be had where no junctions
/// are known, where outer bars leave no column between them, or where the
/// row does not line up.
pub open spec fn cells_by_column(
    line: Seq<char>,
    junctions: Seq<int>,
    has_outer_pipes: bool,
) -> Option<Seq<Seq<char>>> {
    if junctions.len() == 0 || (has_outer_pipes && junctions.len() < 2) || !lines_up(
        line,
        junctions,
    ) {
        None
    } else {
        let all = columns(junctions, encode_utf8(line).len() as int, has_outer_pipes);
        Some(all.map_values(|column: (int, int)| cell_in(line, column)))
    }
}

/// The cells of a row by separator: what stands between any two, without
/// padding. The empty edges outside the outer bars are no cells.
pub open spec fn cells_by_separator(row: Seq<char>, has_outer_pipes: bool) -> Seq<Seq<char>> {
    let all = pieces(row, SEPARATOR).map_values(|piece: Seq<char>| trimmed(piece));
    if has_outer_pipes && all.len() >= 2 {
        all.subrange(1, all.len() - 1)
    } else {
        all
    }
}

/// Cells in a row, with a tab between any two.
pub open spec fn tabbed(cells: Seq<Seq<char>>) -> Seq<char> {
    joined(cells, seq!['\t'])
}

/// A table row in compact form.
pub open spec fn compact_row(
    line: Seq<char>,
    junctions: Seq<int>,
    has_outer_pipes: bool,
) -> Seq<char> {
    match cells_by_column(line, junctions, has_outer_pipes) {
        Some(cells) => tabbed(cells),
        None => tabbed(cells_by_separator(trimmed(line), has_outer_pipes)),
    }
}

/// A blank line or a border.
pub open spec fn is_decoration(line: Seq<char>) -> bool {
    trimmed(line).len() == 0 || is_border(trimmed(line))
}

/// A line of cells: the header or a data row.
pub open spec fn is_row(line: Seq<char>) -> bool {
    !is_decoration(line) && trimmed(line).contains(SEPARATOR)
}

/// How many of the lines are rows.
pub open spec fn row_count(lines: Seq<Seq<char>>) -> nat
    decreases lines.len(),
{
    if lines.len() == 0 {
        0
    } else {
        row_count(lines.drop_last()) + if is_row(lines.last()) { 1nat } else { 0 }
    }
}

/// What is shown of the lines: no decoration, the header and the first
/// `CAP_LIST` data rows in compact form, and any other line without the
/// space around it.
pub open spec fn shown(
    lines: Seq<Seq<char>>,
    junctions: Seq<int>,
    has_outer_pipes: bool,
) -> Seq<Seq<char>>
    decreases lines.len(),
{
    if lines.len() == 0 {
        Seq::empty()
    } else {
        let before = shown(lines.drop_last(), junctions, has_outer_pipes);
        let line = lines.last();
        if is_decoration(line) {
            before
        } else if !is_row(line) {
            before.push(trimmed(line))
        } else if row_count(lines.drop_last()) <= CAP_LIST {
            before.push(compact_row(line, junctions, has_outer_pipes))
        } else {
            before
        }
    }
}

/// The line that tells how many rows were dropped.
pub open spec fn overflow_marker(dropped: nat) -> Seq<char> {
    "... +"@ + decimal(dropped) + " more rows"@
}

/// The lines of the compact form of a table.
pub open spec fn compact_lines(
    lines: Seq<Seq<char>>,
    junctions: Seq<int>,
    has_outer_pipes: bool,
) -> Seq<Seq<char>> {
    let rows = row_count(lines);
    if rows > CAP_LIST + 1 {
        shown(lines, junctions, has_outer_pipes).push(
            overflow_marker((rows - 1 - CAP_LIST) as nat),
        )
    } else {
        shown(lines, junctions, has_outer_pipes)
    }
}

/// The compact form of a table body.
pub open spec fn compact_table(body: Seq<char>, has_outer_pipes: bool) -> Seq<char> {
    joined(compact_lines(lines_of(body), junctions_of(body), has_outer_pipes), seq!['\n'])
}

/// The positions of a byte, in ascending order.
fn byte_positions(bytes: &[u8], byte: u8) -> (found: Vec<usize>)
    ensures
        offsets(found@) == positions(bytes@, byte),
{
    let mut found: Vec<usize> = Vec::new();
    let mut i: usize = 0;
    while i < bytes.len()
        invariant
            i <= bytes.len(),
            offsets(found@) == positions(bytes@.take(i as int), byte),
        decreases bytes.len() - i,
    {
        let ghost before = found@;
        assert(bytes@.take(i + 1).drop_last() =~= bytes@.take(i as int));
        if bytes[i] == byte {
            found.push(i);
            assert(offsets(found@) =~= offsets(before).push(i as int));
        }
        i = i + 1;
    }
    assert(bytes@.take(i as int) =~= bytes@);
    found
}

/// Positions ascend, lie inside, and are those of the byte.
pub proof fn lemma_positions(bytes: Seq<u8>, byte: u8)
    ensures
        ascending(positions(bytes, byte)),
        forall|k: int|
            0 <= k < positions(bytes, byte).len() ==> 0 <= #[trigger] positions(bytes, byte)[k]
                < bytes.len() && bytes[positions(bytes, byte)[k]] == byte,
    decreases bytes.len(),
{
    if bytes.len() > 0 {
        lemma_positions(bytes.drop_last(), byte);
    }
}

/// The junctions of a table ascend.
pub proof fn lemma_junctions_ascend(lines: Seq<Seq<char>>)
    ensures
        ascending(junctions_in(lines)),
    decreases lines.len(),
{
    if lines.len() > 0 {
        lemma_positions(encode_utf8(lines.first()), JUNCTION as u8);
        lemma_junctions_ascend(lines.drop_first());
    }
}

/// Byte positions of the column junctions (`+`) in the first border row.
/// Returns `[]` when no `+`-bearing border exists, which disables offset
/// slicing and falls the caller back to naive splitting.
pub fn junction_offsets(body: &str) -> (junctions: Vec<usize>)
    ensures
        offsets(junctions@) == junctions_of(body@),
{
    let border = Regex::new(BORDER_PATTERN).unwrap();
    let lines = split_lines(body);
    let ghost all = lines_of(body@);
    let mut i: usize = 0;
    assert(all.skip(0) =~= all);
    while i < lines.len()
        invariant
            border == compiled(BORDER_PATTERN@),
            all == lines_of(body@),
            all == views(lines@),
            i <= lines.len(),
            junctions_in(all) == junctions_in(all.skip(i as int)),
        decreases lines.len() - i,
    {
        let line = lines[i];
        assert(all.skip(i as int).first() == line@);
        if border.is_match(trim(line)) && contains_char(line, JUNCTION) {
            return byte_positions(line.as_bytes(), JUNCTION as u8);
        }
        assert(all.skip(i as int).drop_first() =~= all.skip(i + 1));
        i = i + 1;
    }
    let none: Vec<usize> = Vec::new();
    assert(offsets(none@) =~= junctions_in(all));
    none
}

/// Both ends of a separator are character boundaries.
proof fn lemma_separator_bounds(line: Seq<char>, at: int)
    requires
        0 <= at < encode_utf8(line).len(),
        encode_utf8(line)[at] == SEPARATOR as u8,
    ensures
        is_char_boundary(encode_utf8(line), at),
        is_char_boundary(encode_utf8(line), at + 1),
        at + 1 <= encode_utf8(line).len(),
{
    let k = lemma_ascii_byte_char(line, at, SEPARATOR);
    lemma_start_is_boundary(line, k);
    lemma_start_step(line, k);
    lemma_start_is_boundary(line, k + 1);
}

/// Slice a data row at the fixed column boundaries derived from the border,
/// so a `|` *inside* a cell value (config strings, stored regexes) is never
/// mistaken for a column separator.
///
/// Returns `None`, signalling the caller to fall back to naive splitting,
/// when the row doesn't carry a `|` at every junction offset. That happens for
/// borderless input or when a multi-byte cell shifts the byte offsets; the
/// fallback already handles those correctly (they have no interior pipes).
pub fn split_by_offsets(line: &str, junctions: &[usize], has_outer_pipes: bool) -> (cells: Option<
    Vec<String>,
>)
    requires
        lines_up(line@, offsets(junctions@)) ==> ascending(offsets(junctions@)),
    ensures
        cells is Some <==> cells_by_column(line@, offsets(junctions@), has_outer_pipes) is Some,
        cells matches Some(c) ==> Some(string_views(c@)) == cells_by_column(
            line@,
            offsets(junctions@),
            has_outer_pipes,
        ),
{
    let ghost js = offsets(junctions@);
    if junctions.len() == 0 {
        return None;
    }
    // Every junction offset must line up with a `|` in this row.
    let bytes = line.as_bytes();
    let mut k: usize = 0;
    while k < junctions.len()
        invariant
            bytes@ == encode_utf8(line@),
            js == offsets(junctions@),
            k <= junctions.len(),
            forall|i: int|
                0 <= i < k ==> 0 <= #[trigger] js[i] < bytes@.len() && bytes@[js[i]]
                    == SEPARATOR as u8,
        decreases junctions.len() - k,
    {
        let j = junctions[k];
        assert(js[k as int] == j);
        if j >= bytes.len() || bytes[j] != SEPARATOR as u8 {
            return None;
        }
        k = k + 1;
    }
    assert(lines_up(line@, js));
    let end: usize = bytes.len();
    let ghost all = columns(js, end as int, has_outer_pipes);
    let mut cells: Vec<String> = Vec::new();
    let mut start: usize = 0;
    let mut i: usize = 0;
    proof {
        encode_utf8_valid_utf8(line@);
        is_char_boundary_start_end_of_seq(encode_utf8(line@));
    }
    if has_outer_pipes {
        // The outer `+` are the bars; columns are the interior windows. The
        // slice bounds (`j + 1` and `j`) are ASCII `|` positions, so they are
        // always valid char boundaries.
        if junctions.len() < 2 {
            return None;
        }
        proof {
            lemma_separator_bounds(line@, js[0]);
        }
        assert(js[0] == junctions@[0]);
        start = junctions[0] + 1;
        i = 1;
    }
    // Without outer bars the first cell starts at 0 (content, not a
    // separator), and the end of the row closes the last one.
    let ghost skipped: int = if has_outer_pipes { 1 } else { 0 };
    assert(string_views(cells@) =~= all.take(0).map_values(|c: (int, int)| cell_in(line@, c)));
    while i < junctions.len()
        invariant
            js == offsets(junctions@),
            lines_up(line@, js),
            ascending(js),
            0 < js.len(),
            end == encode_utf8(line@).len(),
            all == columns(js, end as int, has_outer_pipes),
            skipped == if has_outer_pipes { 1int } else { 0int },
            skipped <= i <= junctions.len(),
            start == if i == 0 { 0 } else { js[i - 1] + 1 },
            is_char_boundary(encode_utf8(line@), start as int),
            string_views(cells@) == all.take(i - skipped).map_values(
                |c: (int, int)| cell_in(line@, c),
            ),
        decreases junctions.len() - i,
    {
        let j = junctions[i];
        let ghost before = cells@;
        proof {
            assert(js[i as int] == j);
            lemma_separator_bounds(line@, js[i as int]);
        }
        let cell = trim(slice_bytes(line, start, j)).to_owned();
        cells.push(cell);
        proof {
            assert(string_views(cells@) =~= string_views(before).push(cell@));
            assert(all.take(i - skipped + 1) =~= all.take(i - skipped).push(all[i - skipped]));
            assert(string_views(cells@) =~= all.take(i - skipped + 1).map_values(
                |c: (int, int)| cell_in(line@, c),
            ));
        }
        start = j + 1;
        i = i + 1;
    }
    if !has_outer_pipes {
        let ghost before = cells@;
        let cell = trim(slice_bytes(line, start, end)).to_owned();
        cells.push(cell);
        proof {
            assert(string_views(cells@) =~= string_views(before).push(cell@));
            assert(all =~= all.take(i as int).push(all[i as int]));
        }
    } else {
        assert(all.take(i - 1) =~= all);
    }
    assert(string_views(cells@) =~= all.map_values(|c: (int, int)| cell_in(line@, c)));
    Some(cells)
}

/// Fallback used when the border-offset slice can't apply: split on every `|`.
/// Correct for borderless tables and unicode rows without interior pipes.
pub fn naive_split(row: &str, has_outer_pipes: bool) -> (compact: String)
    ensures
        compact@ == tabbed(cells_by_separator(row@, has_outer_pipes)),
        compact@ == joined(cells_by_separator(row@, has_outer_pipes), seq!['\t']),
{
    let parts = split_on(row, SEPARATOR);
    let ghost all = pieces(row@, SEPARATOR).map_values(|piece: Seq<char>| trimmed(piece));
    // Drop the empty edge cells produced by the outer bars. Interior empty
    // cells (NULLs) are preserved.
    let inner = has_outer_pipes && parts.len() >= 2;
    let from: usize = if inner { 1 } else { 0 };
    let to: usize = if inner { parts.len() - 1 } else { parts.len() };
    let mut cells: Vec<&str> = Vec::new();
    let mut i: usize = from;
    while i < to
        invariant
            from <= i <= to <= parts.len(),
            all == views(parts@).map_values(|piece: Seq<char>| trimmed(piece)),
            views(cells@) == all.subrange(from as int, i as int),
        decreases to - i,
    {
        let ghost before = cells@;
        let cell = trim(parts[i]);
        cells.push(cell);
        assert(views(cells@) =~= views(before).push(cell@));
        assert(all.subrange(from as int, i + 1) =~= all.subrange(from as int, i as int).push(
            all[i as int],
        ));
        i = i + 1;
    }
    proof {
        reveal_strlit("\t");
        assert("\t"@ =~= seq!['\t']);
        assert(all.subrange(from as int, to as int) =~= cells_by_separator(row@, has_outer_pipes));
    }
    join(&cells, "\t")
}

/// A table row in compact form.
fn compact(line: &str, junctions: &Vec<usize>, has_outer_pipes: bool) -> (row: String)
    requires
        ascending(offsets(junctions@)),
    ensures
        row@ == compact_row(line@, offsets(junctions@), has_outer_pipes),
{
    match split_by_offsets(line, junctions.as_slice(), has_outer_pipes) {
        Some(cells) => {
            proof {
                reveal_strlit("\t");
                assert("\t"@ =~= seq!['\t']);
            }
            join_strings(&cells, "\t")
        },
        None => naive_split(trim(line), has_outer_pipes),
    }
}

/// De-decorate an ASCII table body. The first row containing `|` is treated as
/// the header (always kept); data rows are capped at [`CAP_LIST`], with an
/// `... +N more rows` marker when truncated.
pub fn strip_ascii_table(body: &str, shape: TableShape) -> (stripped: String)
    ensures
        stripped@ == compact_table(body@, shape.has_outer_pipes),
        stripped@ == joined(
            compact_lines(
                lines_of(body@),
                junctions_in(lines_of(body@)),
                shape.has_outer_pipes,
            ),
            seq!['\n'],
        ),
{
    let outer = shape.has_outer_pipes;
    let junctions = junction_offsets(body);
    let border = Regex::new(BORDER_PATTERN).unwrap();
    let lines = split_lines(body);
    let ghost js = junctions_of(body@);
    let ghost all = lines_of(body@);
    let mut out: Vec<String> = Vec::new();
    let mut rows: usize = 0;  // header + data rows encountered
    let mut i: usize = 0;
    proof {
        lemma_junctions_ascend(all);
        assert(all.take(0) =~= Seq::empty());
        assert(string_views(out@) =~= shown(all.take(0), js, outer));
    }
    while i < lines.len()
        invariant
            border == compiled(BORDER_PATTERN@),
            js == offsets(junctions@),
            ascending(js),
            all == views(lines@),
            rows <= i <= lines.len(),
            rows == row_count(all.take(i as int)),
            string_views(out@) == shown(all.take(i as int), js, outer),
        decreases lines.len() - i,
    {
        let line = lines[i];
        let inner = trim(line);
        let ghost before = out@;
        proof {
            assert(all.take(i + 1).drop_last() =~= all.take(i as int));
            assert(all.take(i + 1).last() == line@);
        }
        if !inner.is_empty() && !border.is_match(inner) {
            if contains_char(inner, SEPARATOR) {
                // Keep the header and the first CAP_LIST data rows; drop the rest.
                if rows <= CAP_LIST {
                    let row = compact(line, &junctions, outer);
                    out.push(row);
                    assert(string_views(out@) =~= string_views(before).push(row@));
                }
                rows = rows + 1;
            } else {
                // Non-table line the caller left in (notice, etc.): pass through.
                let note = inner.to_owned();
                out.push(note);
                assert(string_views(out@) =~= string_views(before).push(note@));
            }
        }
        i = i + 1;
    }
    assert(all.take(i as int) =~= all);
    if rows > 0 && rows - 1 > CAP_LIST {
        let ghost before = out@;
        let mut marker = String::new();
        marker.append("... +");
        marker.append(to_decimal(rows - 1 - CAP_LIST).as_str());
        marker.append(" more rows");
        assert(marker@ =~= overflow_marker((rows - 1 - CAP_LIST) as nat));
        out.push(marker);
        assert(string_views(out@) =~= string_views(before).push(marker@));
    }
    proof {
        reveal_strlit("\n");
        assert("\n"@ =~= seq!['\n']);
    }
    join_strings(&out, "\n")
}

} // verus!
