//! What holds of every stripped table.
use crate::ascii_table::{
    ascending, cell_in, cells_by_column, cells_by_separator, columns, compact_lines, compact_row,
    compact_table, is_decoration, is_row, junctions_in, lemma_junctions_ascend, lines_up,
    marks_columns, positions, row_count, shown, JUNCTION, SEPARATOR,
};
use crate::bytes::{
    byte_slice, lemma_ascii_byte_char, lemma_ascii_char_byte, lemma_byte_slice,
    lemma_encode_concat, lemma_encode_one, lemma_start_order, lemma_start_step, start_of,
};
use crate::drawing::{bare_cells, lemma_positions_complete, lemma_positions_more};
use crate::text::{decimal, joined, trimmed, without_return};
use crate::text_laws::{
    is_bare, is_padding, law_lines_of_joined, law_trim_ignores_padding, law_trim_is_bare,
    law_trim_keeps_content, lemma_bare_is_trimmed, resplit,
};
use crate::truncate::CAP_LIST;
use vstd::prelude::*;
use vstd::utf8::encode_utf8;

verus! {

/// Neither decoration nor a row.
pub open spec fn is_note(line: Seq<char>) -> bool {
    !is_decoration(line) && !is_row(line)
}

/// How many of the lines are notes.
pub open spec fn note_count(lines: Seq<Seq<char>>) -> nat
    decreases lines.len(),
{
    if lines.len() == 0 {
        0
    } else {
        note_count(lines.drop_last()) + if is_note(lines.last()) { 1nat } else { 0 }
    }
}

/// How many of so many rows are shown: the header and `CAP_LIST` data rows.
pub open spec fn shown_rows(rows: nat) -> nat {
    if rows <= CAP_LIST + 1 { rows } else { (CAP_LIST + 1) as nat }
}

/// Every note is shown, and of the rows the header and up to `CAP_LIST`
/// more. A marker is added exactly when rows were dropped; it counts those.
pub proof fn law_rows_are_capped(
    lines: Seq<Seq<char>>,
    junctions: Seq<int>,
    has_outer_pipes: bool,
)
    ensures
        shown(lines, junctions, has_outer_pipes).len() == note_count(lines) + shown_rows(
            row_count(lines),
        ),
        row_count(lines) <= CAP_LIST + 1 ==> compact_lines(lines, junctions, has_outer_pipes)
            == shown(lines, junctions, has_outer_pipes),
        row_count(lines) > CAP_LIST + 1 ==> compact_lines(lines, junctions, has_outer_pipes)
            == shown(lines, junctions, has_outer_pipes).push(
            "... +"@ + decimal((row_count(lines) - shown_rows(row_count(lines))) as nat)
                + " more rows"@,
        ),
    decreases lines.len(),
{
    if lines.len() > 0 {
        law_rows_are_capped(lines.drop_last(), junctions, has_outer_pipes);
    }
}

/// A blank line or a border leaves no trace, wherever it stands.
pub proof fn law_decoration_vanishes(
    before: Seq<Seq<char>>,
    line: Seq<char>,
    after: Seq<Seq<char>>,
    junctions: Seq<int>,
    has_outer_pipes: bool,
)
    requires
        is_decoration(line),
    ensures
        row_count(before + seq![line] + after) == row_count(before + after),
        shown(before + seq![line] + after, junctions, has_outer_pipes) == shown(
            before + after,
            junctions,
            has_outer_pipes,
        ),
    decreases after.len(),
{
    let with = before + seq![line] + after;
    if after.len() == 0 {
        assert(with.drop_last() =~= before);
        assert(before + after =~= before);
    } else {
        assert(with.drop_last() =~= before + seq![line] + after.drop_last());
        assert((before + after).drop_last() =~= before + after.drop_last());
        law_decoration_vanishes(before, line, after.drop_last(), junctions, has_outer_pipes);
    }
}

/// What is shown of the first lines comes first, and in the same order.
pub proof fn law_order_is_kept(
    lines: Seq<Seq<char>>,
    i: int,
    junctions: Seq<int>,
    has_outer_pipes: bool,
)
    requires
        0 <= i <= lines.len(),
    ensures
        shown(lines.take(i), junctions, has_outer_pipes).is_prefix_of(
            shown(lines, junctions, has_outer_pipes),
        ),
    decreases lines.len(),
{
    if i == lines.len() {
        assert(lines.take(i) =~= lines);
    } else {
        assert(lines.drop_last().take(i) =~= lines.take(i));
        law_order_is_kept(lines.drop_last(), i, junctions, has_outer_pipes);
    }
}

/// The header, the first data rows and every note are there to be found:
/// each in its place, a row in compact form and a note without the space
/// around it.
pub proof fn law_line_is_shown(
    lines: Seq<Seq<char>>,
    i: int,
    junctions: Seq<int>,
    has_outer_pipes: bool,
)
    requires
        0 <= i < lines.len(),
        is_note(lines[i]) || (is_row(lines[i]) && row_count(lines.take(i)) <= CAP_LIST),
    ensures
        ({
            let place = shown(lines.take(i), junctions, has_outer_pipes).len() as int;
            let all = shown(lines, junctions, has_outer_pipes);
            &&& 0 <= place < all.len()
            &&& all[place] == if is_row(lines[i]) {
                compact_row(lines[i], junctions, has_outer_pipes)
            } else {
                trimmed(lines[i])
            }
        }),
{
    let upto = lines.take(i + 1);
    let place = shown(lines.take(i), junctions, has_outer_pipes).len() as int;
    assert(upto.drop_last() =~= lines.take(i));
    law_order_is_kept(lines, i + 1, junctions, has_outer_pipes);
    let first = shown(upto, junctions, has_outer_pipes);
    let all = shown(lines, junctions, has_outer_pipes);
    assert(first[place] == all.subrange(0, first.len() as int)[place]);
}

/// No cell keeps any of its padding.
pub proof fn law_cells_are_bare(line: Seq<char>, junctions: Seq<int>, has_outer_pipes: bool)
    ensures
        cells_by_column(line, junctions, has_outer_pipes) matches Some(cells) ==> forall|k: int|
            0 <= k < cells.len() ==> is_bare(#[trigger] cells[k]),
        forall|k: int|
            0 <= k < cells_by_separator(line, has_outer_pipes).len() ==> is_bare(
                #[trigger] cells_by_separator(line, has_outer_pipes)[k],
            ),
{
    assert forall|text: Seq<char>| is_bare(#[trigger] trimmed(text)) by {
        law_trim_is_bare(text);
    }
}

/// The parts of a row between `from`, the junctions, and `to`.
pub open spec fn parts_between(
    line: Seq<char>,
    from: int,
    junctions: Seq<int>,
    to: int,
) -> Seq<Seq<char>> {
    Seq::new(
        junctions.len() + 1,
        |k: int|
            byte_slice(
                line,
                if k == 0 { from } else { junctions[k - 1] + 1 },
                if k == junctions.len() { to } else { junctions[k] },
            ),
    )
}

proof fn lemma_parts_join(line: Seq<char>, i: int, junctions: Seq<int>, k: int)
    requires
        0 <= i <= k <= line.len(),
        lines_up(line, junctions),
        ascending(junctions),
        junctions.len() > 0 ==> start_of(line, i) <= junctions.first() && junctions.last()
            < start_of(line, k),
    ensures
        joined(
            parts_between(line, start_of(line, i), junctions, start_of(line, k)),
            seq![SEPARATOR],
        ) == line.subrange(i, k),
    decreases junctions.len(),
{
    let parts = parts_between(line, start_of(line, i), junctions, start_of(line, k));
    if junctions.len() == 0 {
        lemma_byte_slice(line, i, k);
    } else {
        let init = junctions.drop_last();
        let j = junctions.last();
        let n = init.len() as int;
        assert(j == junctions[n]);
        let m = lemma_ascii_byte_char(line, j, SEPARATOR);
        if m < i {
            lemma_start_order(line, m, i);
            assert(n > 0 ==> junctions[0] < junctions[n]);
        }
        if k <= m {
            lemma_start_order(line, k, m);
        }
        lemma_start_step(line, m);
        assert(lines_up(line, init)) by {
            assert forall|q: int| 0 <= q < init.len() implies 0 <= #[trigger] init[q]
                < encode_utf8(line).len() && encode_utf8(line)[init[q]] == SEPARATOR as u8 by {
                assert(init[q] == junctions[q]);
            }
        }
        assert(ascending(init)) by {
            assert forall|p: int, q: int| 0 <= p < q < init.len() implies #[trigger] init[p]
                < #[trigger] init[q] by {
                assert(junctions[p] < junctions[q]);
            }
        }
        if n > 0 {
            assert(init.last() == junctions[n - 1]);
            assert(junctions[n - 1] < junctions[n]);
        }
        lemma_parts_join(line, i, init, m);
        lemma_byte_slice(line, m + 1, k);
        let before = parts_between(line, start_of(line, i), init, start_of(line, m));
        assert(parts.drop_last() =~= before);
        assert(parts.last() == line.subrange(m + 1, k));
        assert(joined(parts, seq![SEPARATOR]) =~= line.subrange(i, k));
    }
}

/// Cutting a boxed row at junctions loses nothing and cuts nowhere else:
/// there is one cell less than there are junctions, and the cells with their
/// padding and one bar between any two are what stands between the outer
/// bars.
pub proof fn law_columns_restore_boxed_row(line: Seq<char>, junctions: Seq<int>)
    requires
        junctions.len() >= 2,
        lines_up(line, junctions),
        ascending(junctions),
    ensures
        ({
            let inner = junctions.subrange(1, junctions.len() - 1);
            let parts = parts_between(line, junctions.first() + 1, inner, junctions.last());
            &&& cells_by_column(line, junctions, true) == Some(bare_cells(parts))
            &&& parts.len() == junctions.len() - 1
            &&& joined(parts, seq![SEPARATOR]) == byte_slice(
                line,
                junctions.first() + 1,
                junctions.last(),
            )
        }),
{
    let n = junctions.len() - 1;
    let inner = junctions.subrange(1, n);
    let parts = parts_between(line, junctions.first() + 1, inner, junctions.last());
    let i = lemma_ascii_byte_char(line, junctions[0], SEPARATOR);
    let k = lemma_ascii_byte_char(line, junctions[n], SEPARATOR);
    lemma_start_step(line, i);
    assert(junctions[0] < junctions[n]);
    if k <= i {
        lemma_start_order(line, k, i);
    }
    assert(lines_up(line, inner)) by {
        assert forall|q: int| 0 <= q < inner.len() implies 0 <= #[trigger] inner[q] < encode_utf8(
            line,
        ).len() && encode_utf8(line)[inner[q]] == SEPARATOR as u8 by {
            assert(inner[q] == junctions[q + 1]);
        }
    }
    assert(ascending(inner)) by {
        assert forall|p: int, q: int| 0 <= p < q < inner.len() implies #[trigger] inner[p]
            < #[trigger] inner[q] by {
            assert(junctions[p + 1] < junctions[q + 1]);
        }
    }
    if inner.len() > 0 {
        assert(junctions[0] < junctions[1]);
        assert(junctions[n - 1] < junctions[n]);
    }
    lemma_parts_join(line, i + 1, inner, k);
    lemma_byte_slice(line, i + 1, k);
    let all = columns(junctions, encode_utf8(line).len() as int, true);
    let cells = all.map_values(|column: (int, int)| cell_in(line, column));
    assert(cells =~= bare_cells(parts));
}

/// In an open row there is one cell more than there are junctions, and the
/// cells with their padding and the bars between them are the whole row.
pub proof fn law_columns_restore_unboxed_row(line: Seq<char>, junctions: Seq<int>)
    requires
        junctions.len() >= 1,
        lines_up(line, junctions),
        ascending(junctions),
    ensures
        ({
            let parts = parts_between(line, 0, junctions, encode_utf8(line).len() as int);
            &&& cells_by_column(line, junctions, false) == Some(bare_cells(parts))
            &&& parts.len() == junctions.len() + 1
            &&& joined(parts, seq![SEPARATOR]) == line
        }),
{
    let end = encode_utf8(line).len() as int;
    let parts = parts_between(line, 0, junctions, end);
    lemma_start_order(line, 0, line.len() as int);
    assert(junctions.first() == junctions[0]);
    assert(junctions.last() == junctions[junctions.len() - 1]);
    lemma_parts_join(line, 0, junctions, line.len() as int);
    assert(line.subrange(0, line.len() as int) =~= line);
    let all = columns(junctions, end, false);
    let cells = all.map_values(|column: (int, int)| cell_in(line, column));
    assert(cells =~= bare_cells(parts));
}

/// A carriage return that closes a line changes nothing about it.
pub proof fn lemma_return_is_harmless(line: Seq<char>, junctions: Seq<int>, has_outer_pipes: bool)
    ensures
        trimmed(without_return(line)) == trimmed(line),
        marks_columns(without_return(line)) == marks_columns(line),
        positions(encode_utf8(without_return(line)), JUNCTION as u8) == positions(
            encode_utf8(line),
            JUNCTION as u8,
        ),
        ascending(junctions) ==> compact_row(without_return(line), junctions, has_outer_pipes)
            == compact_row(line, junctions, has_outer_pipes),
{
    if without_return(line) != line {
        let short = without_return(line);
        let cr = seq!['\r'];
        let none = Seq::<char>::empty();
        assert(line =~= short + cr);
        assert(is_padding(cr));
        law_trim_ignores_padding(none, short, cr);
        assert(none + short + cr =~= line);
        assert(line.contains(JUNCTION) <==> short.contains(JUNCTION)) by {
            law_trim_keeps_content(line, JUNCTION);
            law_trim_keeps_content(short, JUNCTION);
        }
        lemma_positions_more(encode_utf8(short), cr, JUNCTION);
        lemma_encode_concat(short, cr);
        if ascending(junctions) {
            lemma_return_is_no_cell(short, junctions, has_outer_pipes);
        }
    }
}

proof fn lemma_return_is_no_cell(short: Seq<char>, junctions: Seq<int>, has_outer_pipes: bool)
    requires
        ascending(junctions),
    ensures
        cells_by_column(short, junctions, has_outer_pipes) == cells_by_column(
            short + seq!['\r'],
            junctions,
            has_outer_pipes,
        ),
{
    let cr = seq!['\r'];
    let none = Seq::<char>::empty();
    let line = short + cr;
    let end = encode_utf8(short).len() as int;
    lemma_encode_concat(short, cr);
    lemma_encode_one('\r');
    assert(encode_utf8(line) =~= encode_utf8(short).push('\r' as u8));
    if lines_up(line, junctions) {
        assert forall|k: int| 0 <= k < junctions.len() implies 0 <= #[trigger] junctions[k] < end
            && encode_utf8(short)[junctions[k]] == SEPARATOR as u8 by {
            assert(encode_utf8(line)[junctions[k]] == SEPARATOR as u8);
        }
    }
    if lines_up(short, junctions) {
        assert forall|k: int| 0 <= k < junctions.len() implies 0 <= #[trigger] junctions[k] < end
            + 1 && encode_utf8(line)[junctions[k]] == SEPARATOR as u8 by {
            assert(encode_utf8(short)[junctions[k]] == SEPARATOR as u8);
        }
        let a = columns(junctions, end, has_outer_pipes);
        let b = columns(junctions, end + 1, has_outer_pipes);
        let short_cells = a.map_values(|column: (int, int)| cell_in(short, column));
        let line_cells = b.map_values(|column: (int, int)| cell_in(line, column));
        if junctions.len() > 0 {
            assert forall|k: int| 0 <= k < a.len() implies short_cells[k] == line_cells[k] by {
                if k > 0 {
                    assert(junctions[k - 1] < end);
                }
                if k < junctions.len() - 1 {
                    assert(junctions[k] < junctions[k + 1]);
                }
                if k > 0 && k < junctions.len() {
                    assert(junctions[k - 1] < junctions[k]);
                }
                if a[k] == b[k] {
                    assert(a[k].1 <= end);
                    assert(encode_utf8(short).subrange(a[k].0, a[k].1) =~= encode_utf8(
                        line,
                    ).subrange(a[k].0, a[k].1));
                } else {
                    // The last cell of an open row gains the return as padding.
                    let j = junctions[k - 1];
                    let m = lemma_ascii_byte_char(short, j, SEPARATOR);
                    lemma_start_step(short, m);
                    assert(line.take(m + 1) =~= short.take(m + 1));
                    assert(short.take(short.len() as int) =~= short);
                    assert(line.take(line.len() as int) =~= line);
                    lemma_byte_slice(short, m + 1, short.len() as int);
                    lemma_byte_slice(line, m + 1, line.len() as int);
                    let tail = short.subrange(m + 1, short.len() as int);
                    assert(line.subrange(m + 1, line.len() as int) =~= none + tail + cr);
                    law_trim_ignores_padding(none, tail, cr);
                }
            }
        }
        if junctions.len() > 0 {
            assert(short_cells =~= line_cells);
        }
    }
}

/// Every line without the carriage return that may close it.
pub open spec fn without_returns(lines: Seq<Seq<char>>) -> Seq<Seq<char>> {
    lines.map_values(|line: Seq<char>| without_return(line))
}

proof fn lemma_returns_are_harmless(
    lines: Seq<Seq<char>>,
    junctions: Seq<int>,
    has_outer_pipes: bool,
)
    requires
        ascending(junctions),
    ensures
        row_count(without_returns(lines)) == row_count(lines),
        shown(without_returns(lines), junctions, has_outer_pipes) == shown(
            lines,
            junctions,
            has_outer_pipes,
        ),
    decreases lines.len(),
{
    if lines.len() > 0 {
        assert(without_returns(lines).drop_last() =~= without_returns(lines.drop_last()));
        lemma_return_is_harmless(lines.last(), junctions, has_outer_pipes);
        lemma_returns_are_harmless(lines.drop_last(), junctions, has_outer_pipes);
    } else {
        assert(without_returns(lines) =~= lines);
    }
}

proof fn lemma_returns_keep_junctions(lines: Seq<Seq<char>>)
    ensures
        junctions_in(without_returns(lines)) == junctions_in(lines),
    decreases lines.len(),
{
    if lines.len() > 0 {
        assert(without_returns(lines).drop_first() =~= without_returns(lines.drop_first()));
        lemma_return_is_harmless(lines.first(), Seq::empty(), true);
        lemma_returns_keep_junctions(lines.drop_first());
    } else {
        assert(without_returns(lines) =~= lines);
    }
}

pub proof fn lemma_resplit(lines: Seq<Seq<char>>)
    requires
        lines.len() > 0,
    ensures
        resplit(lines) == if lines.last().len() == 0 {
            without_returns(lines.drop_last())
        } else {
            without_returns(lines.drop_last()).push(lines.last())
        },
    decreases lines.len(),
{
    if lines.len() == 1 {
        assert(without_returns(lines.drop_last()) =~= Seq::empty());
        assert(lines =~= without_returns(lines.drop_last()).push(lines.last()));
    } else {
        let rest = lines.drop_first();
        lemma_resplit(rest);
        assert(seq![without_return(lines[0])] + without_returns(rest.drop_last())
            =~= without_returns(lines.drop_last()));
        assert(resplit(lines) =~= if lines.last().len() == 0 {
            without_returns(lines.drop_last())
        } else {
            without_returns(lines.drop_last()).push(lines.last())
        });
    }
}

/// A line that marks columns has a junction to show.
proof fn lemma_marks_have_junctions(line: Seq<char>)
    requires
        marks_columns(line),
    ensures
        positions(encode_utf8(line), JUNCTION as u8).len() > 0,
{
    let i = line.index_of(JUNCTION);
    assert(line[i] == JUNCTION);
    lemma_ascii_char_byte(line, i);
    let k = lemma_positions_complete(encode_utf8(line), JUNCTION as u8, start_of(line, i));
}

/// One more line only counts where no line before it marks columns.
pub proof fn lemma_junctions_push(lines: Seq<Seq<char>>, last: Seq<char>)
    ensures
        junctions_in(lines.push(last)) == if junctions_in(lines).len() > 0 {
            junctions_in(lines)
        } else if marks_columns(last) {
            positions(encode_utf8(last), JUNCTION as u8)
        } else {
            Seq::empty()
        },
    decreases lines.len(),
{
    let all = lines.push(last);
    if lines.len() == 0 {
        assert(all.drop_first() =~= lines);
    } else {
        assert(all.drop_first() =~= lines.drop_first().push(last));
        if marks_columns(lines.first()) {
            lemma_marks_have_junctions(lines.first());
        } else {
            lemma_junctions_push(lines.drop_first(), last);
        }
    }
}

/// There are no junctions exactly where no line is a border with one.
pub proof fn law_junctions_need_a_border(lines: Seq<Seq<char>>)
    ensures
        junctions_in(lines).len() == 0 <==> forall|k: int|
            0 <= k < lines.len() ==> !marks_columns(#[trigger] lines[k]),
    decreases lines.len(),
{
    if lines.len() > 0 {
        let rest = lines.drop_first();
        law_junctions_need_a_border(rest);
        if marks_columns(lines.first()) {
            lemma_marks_have_junctions(lines.first());
            assert(marks_columns(lines[0]));
        } else {
            assert forall|k: int|
                0 <= k < lines.len() && (forall|i: int|
                    0 <= i < rest.len() ==> !marks_columns(
                        #[trigger] rest[i],
                    )) implies !marks_columns(#[trigger] lines[k]) by {
                if k > 0 {
                    assert(lines[k] == rest[k - 1]);
                }
            }
            if forall|k: int| 0 <= k < lines.len() ==> !marks_columns(#[trigger] lines[k]) {
                assert forall|i: int| 0 <= i < rest.len() implies !marks_columns(
                    #[trigger] rest[i],
                ) by {
                    assert(rest[i] == lines[i + 1]);
                }
            }
        }
    }
}

/// A table that is put together from lines is stripped line by line: it
/// makes no difference that the text is taken apart again.
pub proof fn law_table_of_lines(lines: Seq<Seq<char>>, has_outer_pipes: bool)
    requires
        forall|k: int| 0 <= k < lines.len() ==> !(#[trigger] lines[k]).contains('\n'),
    ensures
        compact_table(joined(lines, seq!['\n']), has_outer_pipes) == joined(
            compact_lines(lines, junctions_in(lines), has_outer_pipes),
            seq!['\n'],
        ),
{
    let body = joined(lines, seq!['\n']);
    let again = resplit(lines);
    law_lines_of_joined(lines);
    if lines.len() == 0 {
        assert(again =~= lines);
    } else {
        let init = lines.drop_last();
        let last = lines.last();
        let js = junctions_in(lines);
        assert(lines =~= init.push(last));
        lemma_resplit(lines);
        lemma_junctions_ascend(lines);
        lemma_returns_are_harmless(init, js, has_outer_pipes);
        lemma_returns_keep_junctions(init);
        lemma_junctions_push(init, last);
        if last.len() == 0 {
            lemma_bare_is_trimmed(last);
        } else {
            assert(again.drop_last() =~= without_returns(init));
            lemma_junctions_push(without_returns(init), last);
        }
        assert(junctions_in(again) == js);
        assert(row_count(again) == row_count(lines));
        assert(shown(again, js, has_outer_pipes) == shown(lines, js, has_outer_pipes));
    }
}

} // verus!
