//! What the columns of a table and the cells of a row are.
use crate::ascii_table::{
    cells_by_column, cells_by_separator, compact_row, junctions_in, junctions_of, lemma_positions,
    marks_columns, offsets, positions, tabbed,
};
use crate::bytes::{byte_slice, lemma_byte_slice, lemma_encode_concat};
use crate::drawing::lemma_positions_complete;
use crate::pattern_laws::law_border_characters;
use crate::text::{joined, lines_of, pieces, trimmed};
use crate::text_laws::law_pieces_of_joined;
use vstd::prelude::*;
use vstd::utf8::{decode_utf8, encode_utf8};

verus! {

/// The offsets of a list are those in it, each in its place.
pub proof fn law_offsets_are_complete(v: Seq<usize>)
    ensures
        offsets(v).len() == v.len(),
        forall|i: int| 0 <= i < v.len() ==> #[trigger] offsets(v)[i] == v[i] as int,
{
}

/// The positions of a byte are all the places where it stands, and no
/// others, from the first to the last.
pub proof fn law_positions_are_complete(bytes: Seq<u8>, byte: u8)
    ensures
        forall|i: int|
            #[trigger] positions(bytes, byte).contains(i) <==> 0 <= i < bytes.len() && bytes[i]
                == byte,
        forall|i: int, k: int|
            0 <= i < k < positions(bytes, byte).len() ==> #[trigger] positions(bytes, byte)[i]
                < #[trigger] positions(bytes, byte)[k],
{
    let all = positions(bytes, byte);
    lemma_positions(bytes, byte);
    assert forall|i: int| #[trigger] all.contains(i) <==> 0 <= i < bytes.len() && bytes[i]
        == byte by {
        if 0 <= i < bytes.len() && bytes[i] == byte {
            let k = lemma_positions_complete(bytes, byte, i);
            assert(all[k] == i);
        }
    }
}

/// Between two widths of a text lies the part that has these widths before
/// it and up to its end.
pub proof fn law_byte_slice_is_the_part(before: Seq<char>, part: Seq<char>, after: Seq<char>)
    ensures
        byte_slice(
            before + part + after,
            encode_utf8(before).len() as int,
            encode_utf8(before).len() + encode_utf8(part).len() as int,
        ) == part,
{
    let text = before + part + after;
    let i = before.len() as int;
    let k = i + part.len() as int;
    assert(text.take(i) =~= before);
    assert(text.take(k) =~= before + part);
    lemma_encode_concat(before, part);
    lemma_byte_slice(text, i, k);
    assert(text.subrange(i, k) =~= part);
}

/// A line of dashes and plus signs, at least one plus sign among them, with
/// any space around it.
pub open spec fn is_column_border(line: Seq<char>) -> bool {
    &&& trimmed(line).len() > 0
    &&& forall|i: int|
        0 <= i < trimmed(line).len() ==> #[trigger] trimmed(line)[i] == '-' || trimmed(line)[i]
            == '+'
    &&& line.contains('+')
}

/// Columns are marked by such a line, and by no other.
pub proof fn law_column_borders(line: Seq<char>)
    ensures
        marks_columns(line) <==> is_column_border(line),
{
    law_border_characters(trimmed(line));
}

/// The junctions of a table are the byte offsets of every plus sign in its
/// first such line, wherever that stands and whatever follows.
pub proof fn law_junctions_of_the_first_border(
    before: Seq<Seq<char>>,
    line: Seq<char>,
    after: Seq<Seq<char>>,
)
    requires
        forall|k: int| 0 <= k < before.len() ==> !is_column_border(#[trigger] before[k]),
        is_column_border(line),
    ensures
        ({
            let junctions = junctions_in(before + seq![line] + after);
            let bytes = encode_utf8(line);
            &&& forall|j: int|
                #[trigger] junctions.contains(j) <==> 0 <= j < bytes.len() && bytes[j] == 0x2b
            &&& forall|i: int, k: int|
                0 <= i < k < junctions.len() ==> #[trigger] junctions[i] < #[trigger] junctions[k]
        }),
    decreases before.len(),
{
    let lines = before + seq![line] + after;
    law_column_borders(lines.first());
    if before.len() == 0 {
        assert(lines.first() == line);
        assert('+' as u8 == 0x2b);
        law_positions_are_complete(encode_utf8(line), '+' as u8);
        assert(junctions_in(lines) == positions(encode_utf8(line), '+' as u8));
    } else {
        assert(lines.first() == before[0]);
        assert(!is_column_border(before[0]));
        let rest = before.drop_first();
        assert forall|k: int| 0 <= k < rest.len() implies !is_column_border(#[trigger] rest[k]) by {
            assert(rest[k] == before[k + 1]);
        }
        law_junctions_of_the_first_border(rest, line, after);
        assert(lines.drop_first() =~= rest + seq![line] + after);
        assert(junctions_in(lines) == junctions_in(rest + seq![line] + after));
    }
}

/// Without such a line there are no junctions.
pub proof fn law_no_junctions_without_a_border(lines: Seq<Seq<char>>)
    requires
        forall|k: int| 0 <= k < lines.len() ==> !is_column_border(#[trigger] lines[k]),
    ensures
        junctions_in(lines) == Seq::<int>::empty(),
    decreases lines.len(),
{
    if lines.len() > 0 {
        assert(!is_column_border(lines[0]));
        law_column_borders(lines[0]);
        let rest = lines.drop_first();
        assert forall|k: int| 0 <= k < rest.len() implies !is_column_border(#[trigger] rest[k]) by {
            assert(rest[k] == lines[k + 1]);
        }
        law_no_junctions_without_a_border(rest);
    }
}

/// The junctions of a body are those of its lines.
pub proof fn law_junctions_of_a_body(body: Seq<char>)
    ensures
        junctions_of(body) == junctions_in(lines_of(body)),
{
}

/// A bar stands at every one of the offsets.
pub open spec fn has_bars_at(line: Seq<char>, junctions: Seq<int>) -> bool {
    forall|k: int|
        0 <= k < junctions.len() ==> 0 <= #[trigger] junctions[k] < encode_utf8(line).len()
            && encode_utf8(line)[junctions[k]] == 0x7c
}

/// A boxed row is cut by column exactly where there are two junctions or
/// more and a bar at each. It then has one cell between any two neighbouring
/// junctions: all that stands there, but for the space around it.
pub proof fn law_boxed_cells_by_column(line: Seq<char>, junctions: Seq<int>)
    ensures
        cells_by_column(line, junctions, true) is Some <==> junctions.len() >= 2 && has_bars_at(
            line,
            junctions,
        ),
        cells_by_column(line, junctions, true) matches Some(cells) ==> {
            &&& cells.len() == junctions.len() - 1
            &&& forall|k: int|
                0 <= k < cells.len() ==> #[trigger] cells[k] == trimmed(
                    decode_utf8(encode_utf8(line).subrange(junctions[k] + 1, junctions[k + 1])),
                )
        },
{
    assert('|' as u8 == 0x7c);
    if cells_by_column(line, junctions, true) is Some {
        assert(has_bars_at(line, junctions));
    }
}

/// An open row is cut by column exactly where there is a junction and a bar
/// at each. It then has one cell before the first junction, one behind each
/// junction, and the last one reaches to the end of the row.
pub proof fn law_open_cells_by_column(line: Seq<char>, junctions: Seq<int>)
    ensures
        cells_by_column(line, junctions, false) is Some <==> junctions.len() >= 1 && has_bars_at(
            line,
            junctions,
        ),
        cells_by_column(line, junctions, false) matches Some(cells) ==> {
            let bytes = encode_utf8(line);
            let n = junctions.len() as int;
            &&& cells.len() == n + 1
            &&& cells[0] == trimmed(decode_utf8(bytes.subrange(0, junctions[0])))
            &&& cells[n] == trimmed(
                decode_utf8(bytes.subrange(junctions[n - 1] + 1, bytes.len() as int)),
            )
            &&& forall|k: int|
                0 < k < n ==> #[trigger] cells[k] == trimmed(
                    decode_utf8(bytes.subrange(junctions[k - 1] + 1, junctions[k])),
                )
        },
{
    assert('|' as u8 == 0x7c);
    if cells_by_column(line, junctions, false) is Some {
        assert(has_bars_at(line, junctions));
    }
}

/// A row that is put together from parts with bars between them is split
/// into these parts, but for the space around each. With outer bars, the
/// first and the last part are no cells.
pub proof fn law_cells_by_separator(parts: Seq<Seq<char>>, has_outer_pipes: bool)
    requires
        parts.len() >= 1,
        forall|k: int| 0 <= k < parts.len() ==> !(#[trigger] parts[k]).contains('|'),
    ensures
        ({
            let cells = cells_by_separator(joined(parts, seq!['|']), has_outer_pipes);
            if has_outer_pipes && parts.len() >= 2 {
                &&& cells.len() == parts.len() - 2
                &&& forall|k: int|
                    0 <= k < cells.len() ==> #[trigger] cells[k] == trimmed(parts[k + 1])
            } else {
                &&& cells.len() == parts.len()
                &&& forall|k: int| 0 <= k < cells.len() ==> #[trigger] cells[k] == trimmed(parts[k])
            }
        }),
{
    law_pieces_of_joined(parts, '|');
}

/// A line of cells has a tab between any two of them; where no cell holds a
/// tab, taking the line apart at its tabs gives every cell back.
pub proof fn law_tabs_keep_every_cell(cells: Seq<Seq<char>>)
    ensures
        tabbed(cells) == joined(cells, seq!['\t']),
        cells.len() >= 1 && (forall|k: int|
            0 <= k < cells.len() ==> !(#[trigger] cells[k]).contains('\t')) ==> pieces(
            tabbed(cells),
            '\t',
        ) == cells,
{
    if cells.len() >= 1 && (forall|k: int|
        0 <= k < cells.len() ==> !(#[trigger] cells[k]).contains('\t')) {
        law_pieces_of_joined(cells, '\t');
    }
}

/// The cells of a row: by column where that can be, else by separator.
pub open spec fn cells_of(line: Seq<char>, junctions: Seq<int>, has_outer_pipes: bool) -> Seq<
    Seq<char>,
> {
    match cells_by_column(line, junctions, has_outer_pipes) {
        Some(cells) => cells,
        None => cells_by_separator(trimmed(line), has_outer_pipes),
    }
}

/// The compact form of a row holds all of its cells, in their order, with a
/// tab between any two. Where no cell holds a tab, they can all be read back
/// from it.
pub proof fn law_compact_row_keeps_every_cell(
    line: Seq<char>,
    junctions: Seq<int>,
    has_outer_pipes: bool,
)
    ensures
        compact_row(line, junctions, has_outer_pipes) == joined(
            cells_of(line, junctions, has_outer_pipes),
            seq!['\t'],
        ),
        cells_of(line, junctions, has_outer_pipes).len() >= 1 && (forall|k: int|
            0 <= k < cells_of(line, junctions, has_outer_pipes).len() ==> !(#[trigger] cells_of(
                line,
                junctions,
                has_outer_pipes,
            )[k]).contains('\t')) ==> pieces(compact_row(line, junctions, has_outer_pipes), '\t')
            == cells_of(line, junctions, has_outer_pipes),
{
    law_tabs_keep_every_cell(cells_of(line, junctions, has_outer_pipes));
}

} // verus!
