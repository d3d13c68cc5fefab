//! Whole drawn tables, and what is read back from them.
use crate::ascii_table::{
    compact_lines, compact_row, compact_table, is_decoration, is_row, junctions_in,
    lemma_positions, marks_columns, positions, row_count, shown, JUNCTION, SEPARATOR,
};
use crate::drawing::{
    bare_cells, boxed, closed_off, lack, law_boxed_row_reads_alike, law_boxed_row_reads_back,
    law_unboxed_row_reads_alike, law_unboxed_row_reads_back, lemma_boxed_positions,
    lemma_closed_joined, lemma_unboxed_positions, same_widths, unboxed,
};
use crate::patterns::{is_border, is_border_char};
use crate::table_laws::{law_decoration_vanishes, law_table_of_lines, shown_rows};
use crate::text::{decimal, joined, trimmed};
use crate::text_laws::{law_trim_keeps_content, lemma_bare_is_trimmed};
use crate::truncate::CAP_LIST;
use vstd::prelude::*;
use vstd::utf8::encode_utf8;

verus! {

/// Dashes, one run for each column.
pub open spec fn are_rules(rules: Seq<Seq<char>>) -> bool {
    forall|k: int, i: int|
        0 <= k < rules.len() && 0 <= i < rules[k].len() ==> #[trigger] rules[k][i] == '-'
}

/// The lines of a boxed table: the first row, the header, stands between
/// borders, and a border closes the table.
pub open spec fn boxed_table(
    rules: Seq<Seq<char>>,
    rows: Seq<Seq<Seq<char>>>,
) -> Seq<Seq<char>> {
    let border = boxed(rules, JUNCTION);
    seq![border, boxed(rows[0], SEPARATOR), border] + Seq::new(
        (rows.len() - 1) as nat,
        |k: int| boxed(rows[k + 1], SEPARATOR),
    ) + seq![border]
}

/// The lines of an open table: a border follows the header.
pub open spec fn unboxed_table(
    rules: Seq<Seq<char>>,
    rows: Seq<Seq<Seq<char>>>,
) -> Seq<Seq<char>> {
    seq![unboxed(rows[0], SEPARATOR), unboxed(rules, JUNCTION)] + Seq::new(
        (rows.len() - 1) as nat,
        |k: int| unboxed(rows[k + 1], SEPARATOR),
    )
}

/// A row whose cells can be told apart: the first `n` are as wide as their
/// columns, or none of them holds a bar.
pub open spec fn is_readable(row: Seq<Seq<char>>, rules: Seq<Seq<char>>, n: int) -> bool {
    &&& row.len() == rules.len()
    &&& same_widths(row, rules, n) || lack(row, SEPARATOR)
    &&& lack(row, '\n')
}

/// The rows of a table with tabs between their bare cells.
pub open spec fn tabbed_rows(rows: Seq<Seq<Seq<char>>>) -> Seq<Seq<char>> {
    rows.map_values(|row: Seq<Seq<char>>| joined(bare_cells(row), seq!['\t']))
}

/// A list that ends with a marker where it is too long.
pub open spec fn capped(texts: Seq<Seq<char>>) -> Seq<Seq<char>> {
    if texts.len() > CAP_LIST + 1 {
        texts.take(CAP_LIST + 1).push(
            "... +"@ + decimal((texts.len() - 1 - CAP_LIST) as nat) + " more rows"@,
        )
    } else {
        texts
    }
}

proof fn lemma_only_rows(lines: Seq<Seq<char>>, junctions: Seq<int>, has_outer_pipes: bool)
    requires
        forall|k: int| 0 <= k < lines.len() ==> is_row(#[trigger] lines[k]),
    ensures
        row_count(lines) == lines.len(),
        shown(lines, junctions, has_outer_pipes) == lines.map_values(
            |line: Seq<char>| compact_row(line, junctions, has_outer_pipes),
        ).take(shown_rows(lines.len()) as int),
    decreases lines.len(),
{
    let f = |line: Seq<char>| compact_row(line, junctions, has_outer_pipes);
    let all = lines.map_values(f);
    if lines.len() == 0 {
        assert(all.take(0) =~= Seq::empty());
    } else {
        let init = lines.drop_last();
        let n = init.len() as int;
        assert forall|k: int| 0 <= k < n implies is_row(#[trigger] init[k]) by {
            assert(init[k] == lines[k]);
        }
        lemma_only_rows(init, junctions, has_outer_pipes);
        assert(is_row(lines[n]));
        assert(init.map_values(f) =~= all.take(n));
        if n <= CAP_LIST {
            assert(all.take(n).take(n).push(all[n]) =~= all.take(n + 1));
        } else {
            assert(all.take(n).take(CAP_LIST + 1) =~= all.take(CAP_LIST + 1));
        }
    }
}

/// Rows are listed one after another up to the cap.
proof fn lemma_rows_listed(
    lines: Seq<Seq<char>>,
    rows: Seq<Seq<Seq<char>>>,
    junctions: Seq<int>,
    has_outer_pipes: bool,
)
    requires
        lines.len() == rows.len(),
        forall|k: int| 0 <= k < lines.len() ==> is_row(#[trigger] lines[k]),
        forall|k: int|
            0 <= k < lines.len() ==> compact_row(
                #[trigger] lines[k],
                junctions,
                has_outer_pipes,
            ) == joined(bare_cells(rows[k]), seq!['\t']),
    ensures
        compact_lines(lines, junctions, has_outer_pipes) == capped(tabbed_rows(rows)),
{
    lemma_only_rows(lines, junctions, has_outer_pipes);
    let all = lines.map_values(
        |line: Seq<char>| compact_row(line, junctions, has_outer_pipes),
    );
    assert(all =~= tabbed_rows(rows));
    assert(all.take(all.len() as int) =~= all);
}

/// A drawn line holds only what its marks and segments hold.
proof fn lemma_closed_lacks(segments: Seq<Seq<char>>, mark: char, c: char)
    requires
        lack(segments, c),
        c != mark,
    ensures
        !closed_off(segments, mark).contains(c),
    decreases segments.len(),
{
    if segments.len() > 0 {
        let init = segments.drop_last();
        assert forall|k: int| 0 <= k < init.len() implies !(#[trigger] init[k]).contains(c) by {
            assert(init[k] == segments[k]);
        }
        lemma_closed_lacks(init, mark, c);
        assert(!segments[segments.len() - 1].contains(c));
        let text = closed_off(segments, mark);
        if text.contains(c) {
            let i = text.index_of(c);
            let a = closed_off(init, mark);
            let b = segments.last();
            if i < a.len() {
                assert(a[i] == c);
            } else if i < a.len() + b.len() {
                assert(b[i - a.len()] == c);
            }
        }
    }
}

proof fn lemma_line_lacks(segments: Seq<Seq<char>>, mark: char, c: char)
    requires
        segments.len() >= 1,
        lack(segments, c),
        c != mark,
    ensures
        !boxed(segments, mark).contains(c),
        !unboxed(segments, mark).contains(c),
{
    lemma_closed_lacks(segments, mark, c);
    lemma_closed_joined(segments, mark);
    let closed = closed_off(segments, mark);
    let a = boxed(segments, mark);
    let b = unboxed(segments, mark);
    if a.contains(c) {
        let i = a.index_of(c);
        assert(closed[i - 1] == c);
    }
    if b.contains(c) {
        let i = b.index_of(c);
        assert(closed[i] == c);
    }
}

/// Dashes hold nothing else.
proof fn lemma_rules_lack(rules: Seq<Seq<char>>, c: char)
    requires
        are_rules(rules),
        c != '-',
    ensures
        lack(rules, c),
{
    assert forall|k: int| 0 <= k < rules.len() implies !(#[trigger] rules[k]).contains(c) by {
        if rules[k].contains(c) {
            let i = rules[k].index_of(c);
            assert(rules[k][i] == '-');
        }
    }
}

/// Rules that are closed off with junctions hold nothing but border
/// characters.
proof fn lemma_closed_rules(rules: Seq<Seq<char>>)
    requires
        are_rules(rules),
    ensures
        forall|i: int|
            0 <= i < closed_off(rules, JUNCTION).len() ==> is_border_char(
                #[trigger] closed_off(rules, JUNCTION)[i],
            ),
    decreases rules.len(),
{
    if rules.len() > 0 {
        let init = rules.drop_last();
        let n = init.len() as int;
        assert forall|k: int, i: int|
            0 <= k < init.len() && 0 <= i < init[k].len() implies #[trigger] init[k][i] == '-' by {
            assert(rules[k][i] == '-');
        }
        lemma_closed_rules(init);
        let a = closed_off(init, JUNCTION);
        let text = closed_off(rules, JUNCTION);
        assert forall|i: int| 0 <= i < text.len() implies is_border_char(#[trigger] text[i]) by {
            if i < a.len() {
                assert(text[i] == a[i]);
            } else if i < a.len() + rules[n].len() {
                assert(text[i] == rules[n][i - a.len()]);
            }
        }
    }
}

/// A line of border characters with a junction marks columns.
proof fn lemma_border_marks(line: Seq<char>)
    requires
        is_border(line),
        line.contains(JUNCTION),
    ensures
        marks_columns(line),
        is_decoration(line),
        trimmed(line) == line,
{
    assert(is_border_char(line[0]) && is_border_char(line[line.len() - 1]));
    lemma_bare_is_trimmed(line);
}

/// A boxed border marks columns and is decoration.
pub proof fn lemma_boxed_border(rules: Seq<Seq<char>>)
    requires
        are_rules(rules),
    ensures
        marks_columns(boxed(rules, JUNCTION)),
        is_decoration(boxed(rules, JUNCTION)),
        is_border(boxed(rules, JUNCTION)),
        trimmed(boxed(rules, JUNCTION)) == boxed(rules, JUNCTION),
{
    let line = boxed(rules, JUNCTION);
    lemma_closed_rules(rules);
    assert(line[0] == JUNCTION);
    assert forall|i: int| 0 <= i < line.len() implies is_border_char(#[trigger] line[i]) by {
        if i > 0 {
            assert(line[i] == closed_off(rules, JUNCTION)[i - 1]);
        }
    }
    lemma_border_marks(line);
}

proof fn lemma_unboxed_border(rules: Seq<Seq<char>>)
    requires
        are_rules(rules),
        rules.len() >= 2,
    ensures
        marks_columns(unboxed(rules, JUNCTION)),
        is_decoration(unboxed(rules, JUNCTION)),
{
    let line = unboxed(rules, JUNCTION);
    let closed = closed_off(rules, JUNCTION);
    let init = rules.drop_last();
    lemma_closed_rules(rules);
    lemma_closed_joined(rules, JUNCTION);
    assert(line =~= closed_off(init, JUNCTION) + rules.last());
    let at = closed_off(init, JUNCTION).len() - 1;
    assert(closed_off(init, JUNCTION).last() == JUNCTION);
    assert(line[at] == JUNCTION);
    assert forall|i: int| 0 <= i < line.len() implies is_border_char(#[trigger] line[i]) by {
        assert(line[i] == closed[i]);
    }
    lemma_border_marks(line);
}

/// A line with a bar is a row.
pub proof fn lemma_bar_makes_row(line: Seq<char>)
    requires
        line.contains(SEPARATOR),
    ensures
        is_row(line),
        !marks_columns(line),
        !is_border(trimmed(line)),
{
    law_trim_keeps_content(line, SEPARATOR);
    let inner = trimmed(line);
    let i = inner.index_of(SEPARATOR);
    assert(inner[i] == SEPARATOR);
    if is_border(inner) {
        assert(is_border_char(inner[i]));
    }
}

/// A row of a drawn boxed table, cut at the junctions of its border.
proof fn lemma_boxed_row(row: Seq<Seq<char>>, rules: Seq<Seq<char>>)
    requires
        rules.len() >= 1,
        are_rules(rules),
        is_readable(row, rules, rules.len() as int),
    ensures
        is_row(boxed(row, SEPARATOR)),
        compact_row(
            boxed(row, SEPARATOR),
            positions(encode_utf8(boxed(rules, JUNCTION)), JUNCTION as u8),
            true,
        ) == joined(bare_cells(row), seq!['\t']),
{
    let line = boxed(row, SEPARATOR);
    let bytes = encode_utf8(boxed(rules, JUNCTION));
    assert(line[0] == SEPARATOR);
    lemma_bar_makes_row(line);
    lemma_rules_lack(rules, JUNCTION);
    if same_widths(row, rules, rules.len() as int) {
        law_boxed_row_reads_back(row, rules);
    } else {
        lemma_positions(bytes, JUNCTION as u8);
        lemma_boxed_positions(rules, JUNCTION);
        law_boxed_row_reads_alike(row, positions(bytes, JUNCTION as u8));
    }
}

/// A row of a drawn open table, cut at the junctions of its border.
proof fn lemma_unboxed_row(row: Seq<Seq<char>>, rules: Seq<Seq<char>>)
    requires
        rules.len() >= 2,
        are_rules(rules),
        is_readable(row, rules, rules.len() - 1),
    ensures
        is_row(unboxed(row, SEPARATOR)),
        !marks_columns(unboxed(row, SEPARATOR)),
        compact_row(
            unboxed(row, SEPARATOR),
            positions(encode_utf8(unboxed(rules, JUNCTION)), JUNCTION as u8),
            false,
        ) == joined(bare_cells(row), seq!['\t']),
{
    let line = unboxed(row, SEPARATOR);
    let bytes = encode_utf8(unboxed(rules, JUNCTION));
    let head = closed_off(row.drop_last(), SEPARATOR);
    lemma_closed_joined(row, SEPARATOR);
    assert(head.last() == SEPARATOR);
    assert(line[head.len() - 1] == SEPARATOR);
    lemma_bar_makes_row(line);
    lemma_rules_lack(rules, JUNCTION);
    if same_widths(row, rules, rules.len() - 1) {
        law_unboxed_row_reads_back(row, rules);
    } else {
        lemma_positions(bytes, JUNCTION as u8);
        lemma_unboxed_positions(rules, JUNCTION);
        law_unboxed_row_reads_alike(row, positions(bytes, JUNCTION as u8));
    }
}

/// The lines of a boxed table are stripped to its rows.
pub proof fn lemma_boxed_lines(rules: Seq<Seq<char>>, rows: Seq<Seq<Seq<char>>>)
    requires
        rules.len() >= 1,
        rows.len() >= 1,
        are_rules(rules),
        forall|r: int|
            0 <= r < rows.len() ==> is_readable(#[trigger] rows[r], rules, rules.len() as int),
    ensures
        ({
            let lines = boxed_table(rules, rows);
            &&& compact_lines(lines, junctions_in(lines), true) == capped(tabbed_rows(rows))
            &&& forall|k: int| 0 <= k < lines.len() ==> !(#[trigger] lines[k]).contains('\n')
        }),
{
    let lines = boxed_table(rules, rows);
    let border = boxed(rules, JUNCTION);
    let header = boxed(rows[0], SEPARATOR);
    let data = Seq::new((rows.len() - 1) as nat, |k: int| boxed(rows[k + 1], SEPARATOR));
    let js = positions(encode_utf8(border), JUNCTION as u8);
    let none = Seq::<Seq<char>>::empty();
    lemma_boxed_border(rules);
    assert(lines.first() == border);
    assert(junctions_in(lines) == js);
    // Take the three borders away.
    let a = seq![header, border] + data + seq![border];
    law_decoration_vanishes(none, border, a, js, true);
    assert(none + seq![border] + a =~= lines);
    assert(none + a =~= a);
    let b = data + seq![border];
    law_decoration_vanishes(seq![header], border, b, js, true);
    assert(seq![header] + seq![border] + b =~= a);
    let c = seq![header] + data;
    law_decoration_vanishes(c, border, none, js, true);
    assert(c + seq![border] + none =~= seq![header] + b);
    assert(c + none =~= c);
    assert forall|k: int| 0 <= k < c.len() implies is_row(#[trigger] c[k]) && compact_row(
        c[k],
        js,
        true,
    ) == joined(bare_cells(rows[k]), seq!['\t']) && !c[k].contains('\n') by {
        assert(c[k] == boxed(rows[k], SEPARATOR));
        lemma_boxed_row(rows[k], rules);
        lemma_line_lacks(rows[k], SEPARATOR, '\n');
    }
    lemma_rows_listed(c, rows, js, true);
    lemma_rules_lack(rules, '\n');
    lemma_line_lacks(rules, JUNCTION, '\n');
    assert forall|k: int| 0 <= k < lines.len() implies !(#[trigger] lines[k]).contains('\n') by {
        if k == 1 {
            assert(lines[k] == c[0]);
        } else if 3 <= k < lines.len() - 1 {
            assert(lines[k] == c[k - 2]);
        }
    }
}

/// A boxed table is read back: its rows, header first, come out as lines of
/// bare cells with tabs between them, whatever bars the cells hold, and with
/// a marker in place of the rows beyond the cap.
pub proof fn law_boxed_table_reads_back(rules: Seq<Seq<char>>, rows: Seq<Seq<Seq<char>>>)
    requires
        rules.len() >= 1,
        rows.len() >= 1,
        are_rules(rules),
        forall|r: int|
            0 <= r < rows.len() ==> is_readable(#[trigger] rows[r], rules, rules.len() as int),
    ensures
        compact_table(joined(boxed_table(rules, rows), seq!['\n']), true) == joined(
            capped(tabbed_rows(rows)),
            seq!['\n'],
        ),
{
    lemma_boxed_lines(rules, rows);
    law_table_of_lines(boxed_table(rules, rows), true);
}

/// An open table is read back in the same way. Its last column has no width.
pub proof fn law_unboxed_table_reads_back(rules: Seq<Seq<char>>, rows: Seq<Seq<Seq<char>>>)
    requires
        rules.len() >= 2,
        rows.len() >= 1,
        are_rules(rules),
        forall|r: int|
            0 <= r < rows.len() ==> is_readable(#[trigger] rows[r], rules, rules.len() - 1),
    ensures
        compact_table(joined(unboxed_table(rules, rows), seq!['\n']), false) == joined(
            capped(tabbed_rows(rows)),
            seq!['\n'],
        ),
{
    let lines = unboxed_table(rules, rows);
    let border = unboxed(rules, JUNCTION);
    let header = unboxed(rows[0], SEPARATOR);
    let data = Seq::new((rows.len() - 1) as nat, |k: int| unboxed(rows[k + 1], SEPARATOR));
    let js = positions(encode_utf8(border), JUNCTION as u8);
    let c = seq![header] + data;
    lemma_unboxed_border(rules);
    assert forall|k: int| 0 <= k < c.len() implies is_row(#[trigger] c[k]) && compact_row(
        c[k],
        js,
        false,
    ) == joined(bare_cells(rows[k]), seq!['\t']) && !c[k].contains('\n') by {
        assert(c[k] == unboxed(rows[k], SEPARATOR));
        lemma_unboxed_row(rows[k], rules);
        lemma_line_lacks(rows[k], SEPARATOR, '\n');
    }
    lemma_unboxed_row(rows[0], rules);
    assert(lines.first() == header);
    assert(lines.drop_first().first() == border);
    assert(junctions_in(lines.drop_first()) == js);
    assert(junctions_in(lines) == js);
    law_decoration_vanishes(seq![header], border, data, js, false);
    assert(seq![header] + seq![border] + data =~= lines);
    lemma_rows_listed(c, rows, js, false);
    lemma_rules_lack(rules, '\n');
    lemma_line_lacks(rules, JUNCTION, '\n');
    assert forall|k: int| 0 <= k < lines.len() implies !(#[trigger] lines[k]).contains('\n') by {
        if k == 0 {
            assert(lines[k] == c[0]);
        } else if 2 <= k {
            assert(lines[k] == c[k - 1]);
        }
    }
    law_table_of_lines(lines, false);
}

} // verus!
