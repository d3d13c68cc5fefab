//! Drawn rows and borders, and what is read back from them.
//!
//! A table is drawn from segments: a segment is the content of one column of
//! one row, padding included, or the dashes of one column of a border. In a
//! boxed table a mark (a bar, or a junction in borders) opens the row and
//! follows every segment. In an open table marks only stand between segments.
use crate::ascii_table::{
    ascending, cell_in, cells_by_column, cells_by_separator, columns, compact_row, lemma_positions,
    lines_up, positions, JUNCTION, SEPARATOR,
};
use crate::bytes::{
    byte_slice, is_ascii_char, lemma_ascii_byte_char, lemma_ascii_char_byte, lemma_byte_slice,
    lemma_encode_concat, lemma_encode_one, start_of,
};
use crate::text::{first_index, is_white_space, joined, lemma_first_index, pieces, trimmed};
use crate::text_laws::{
    is_padding, law_pieces_of_joined, law_trim_ignores_padding, lemma_bare_is_trimmed,
    lemma_pieces_first, lemma_pieces_none, lemma_trim_parts,
};
use vstd::prelude::*;
use vstd::utf8::encode_utf8;

verus! {

/// How many bytes a text takes.
pub open spec fn width(text: Seq<char>) -> nat {
    encode_utf8(text).len()
}

/// Every segment, each followed by the mark.
pub open spec fn closed_off(segments: Seq<Seq<char>>, mark: char) -> Seq<char>
    decreases segments.len(),
{
    if segments.len() == 0 {
        Seq::empty()
    } else {
        closed_off(segments.drop_last(), mark) + segments.last() + seq![mark]
    }
}

/// A line of a boxed table.
pub open spec fn boxed(segments: Seq<Seq<char>>, mark: char) -> Seq<char> {
    seq![mark] + closed_off(segments, mark)
}

/// A line of an open table.
pub open spec fn unboxed(segments: Seq<Seq<char>>, mark: char) -> Seq<char> {
    joined(segments, seq![mark])
}

/// None of the segments holds the mark.
pub open spec fn lack(segments: Seq<Seq<char>>, mark: char) -> bool {
    forall|k: int| 0 <= k < segments.len() ==> !(#[trigger] segments[k]).contains(mark)
}

/// The first `n` segments of one line are as wide as those of the other.
pub open spec fn same_widths(a: Seq<Seq<char>>, b: Seq<Seq<char>>, n: int) -> bool {
    forall|k: int|
        #![trigger a[k]]
        #![trigger b[k]]
        0 <= k < n ==> width(a[k]) == width(b[k])
}

/// Where the segment with index `k` starts in a line that no mark opens.
pub open spec fn reach(segments: Seq<Seq<char>>, mark: char, k: int) -> int {
    width(closed_off(segments.take(k), mark)) as int
}

/// The segments without their padding.
pub open spec fn bare_cells(segments: Seq<Seq<char>>) -> Seq<Seq<char>> {
    segments.map_values(|segment: Seq<char>| trimmed(segment))
}

proof fn lemma_closed_concat(a: Seq<Seq<char>>, b: Seq<Seq<char>>, mark: char)
    ensures
        closed_off(a + b, mark) == closed_off(a, mark) + closed_off(b, mark),
    decreases b.len(),
{
    if b.len() == 0 {
        assert(a + b =~= a);
        assert(closed_off(a + b, mark) =~= closed_off(a, mark) + closed_off(b, mark));
    } else {
        assert((a + b).drop_last() =~= a + b.drop_last());
        lemma_closed_concat(a, b.drop_last(), mark);
        assert(closed_off(a + b, mark) =~= closed_off(a, mark) + closed_off(b, mark));
    }
}

/// Segments that are each closed off are joined segments with one more mark.
pub proof fn lemma_closed_joined(segments: Seq<Seq<char>>, mark: char)
    requires
        segments.len() >= 1,
    ensures
        closed_off(segments, mark) == joined(segments, seq![mark]) + seq![mark],
        joined(segments, seq![mark]) == closed_off(segments.drop_last(), mark) + segments.last(),
    decreases segments.len(),
{
    let init = segments.drop_last();
    if segments.len() == 1 {
        assert(closed_off(init, mark) =~= Seq::empty());
        assert(joined(segments, seq![mark]) =~= closed_off(init, mark) + segments.last());
    } else {
        lemma_closed_joined(init, mark);
    }
}

/// Each segment starts behind the mark that closes the one before it.
proof fn lemma_reach_step(segments: Seq<Seq<char>>, mark: char, k: int)
    requires
        0 <= k < segments.len(),
        is_ascii_char(mark),
    ensures
        reach(segments, mark, k + 1) == reach(segments, mark, k) + width(segments[k]) + 1,
        closed_off(segments.take(k + 1), mark) == closed_off(segments.take(k), mark) + segments[k]
            + seq![mark],
        reach(segments, mark, 0) == 0,
{
    let before = closed_off(segments.take(k), mark);
    assert(segments.take(0) =~= Seq::empty());
    assert(segments.take(k + 1).drop_last() =~= segments.take(k));
    lemma_encode_concat(before + segments[k], seq![mark]);
    lemma_encode_concat(before, segments[k]);
    lemma_encode_one(mark);
}

/// Lines of equal widths have their marks at equal offsets.
proof fn lemma_reach_same(
    a: Seq<Seq<char>>,
    a_mark: char,
    b: Seq<Seq<char>>,
    b_mark: char,
    n: int,
    k: int,
)
    requires
        same_widths(a, b, n),
        0 <= k <= n,
        n <= a.len(),
        n <= b.len(),
        is_ascii_char(a_mark),
        is_ascii_char(b_mark),
    ensures
        reach(a, a_mark, k) == reach(b, b_mark, k),
    decreases k,
{
    if k == 0 {
        assert(a.take(0) =~= b.take(0));
        assert(closed_off(a.take(0), a_mark) =~= closed_off(b.take(0), b_mark));
    } else {
        lemma_reach_same(a, a_mark, b, b_mark, n, k - 1);
        lemma_reach_step(a, a_mark, k - 1);
        lemma_reach_step(b, b_mark, k - 1);
        assert(width(a[k - 1]) == width(b[k - 1]));
    }
}

/// Text without the mark adds no positions.
pub proof fn lemma_positions_more(bytes: Seq<u8>, text: Seq<char>, mark: char)
    requires
        is_ascii_char(mark),
        !text.contains(mark),
    ensures
        positions(bytes + encode_utf8(text), mark as u8) == positions(bytes, mark as u8),
{
    let more = encode_utf8(text);
    assert forall|i: int| 0 <= i < more.len() implies more[i] != mark as u8 by {
        if more[i] == mark as u8 {
            let k = lemma_ascii_byte_char(text, i, mark);
        }
    }
    lemma_positions_without(bytes, more, mark as u8);
}

proof fn lemma_positions_without(bytes: Seq<u8>, more: Seq<u8>, byte: u8)
    requires
        forall|i: int| 0 <= i < more.len() ==> more[i] != byte,
    ensures
        positions(bytes + more, byte) == positions(bytes, byte),
    decreases more.len(),
{
    if more.len() == 0 {
        assert(bytes + more =~= bytes);
    } else {
        assert((bytes + more).drop_last() =~= bytes + more.drop_last());
        assert((bytes + more).last() == more[more.len() - 1]);
        lemma_positions_without(bytes, more.drop_last(), byte);
    }
}

/// Behind what comes first, every segment contributes the position of the
/// mark that closes it.
proof fn lemma_positions_closed(first: Seq<char>, segments: Seq<Seq<char>>, mark: char)
    requires
        is_ascii_char(mark),
        lack(segments, mark),
    ensures
        positions(encode_utf8(first + closed_off(segments, mark)), mark as u8) == positions(
            encode_utf8(first),
            mark as u8,
        ) + Seq::new(
            segments.len(),
            |k: int| width(first) + reach(segments, mark, k + 1) - 1,
        ),
    decreases segments.len(),
{
    let byte = mark as u8;
    if segments.len() == 0 {
        assert(first + closed_off(segments, mark) =~= first);
        assert(positions(encode_utf8(first), byte) + Seq::new(
            segments.len(),
            |k: int| width(first) + reach(segments, mark, k + 1) - 1,
        ) =~= positions(encode_utf8(first), byte));
    } else {
        let init = segments.drop_last();
        let n = init.len() as int;
        assert forall|k: int| 0 <= k < init.len() implies !(#[trigger] init[k]).contains(mark) by {
            assert(init[k] == segments[k]);
        }
        lemma_positions_closed(first, init, mark);
        let before = first + closed_off(init, mark);
        let last = segments.last();
        let whole = first + closed_off(segments, mark);
        assert(!segments[n].contains(mark));
        lemma_positions_more(encode_utf8(before), last, mark);
        lemma_encode_concat(before, last);
        lemma_encode_concat(before + last, seq![mark]);
        lemma_encode_one(mark);
        assert(whole =~= before + last + seq![mark]);
        let bytes = encode_utf8(before + last);
        assert(encode_utf8(whole) =~= bytes.push(byte));
        assert(bytes.push(byte).drop_last() =~= bytes);
        assert(positions(encode_utf8(whole), byte) == positions(bytes, byte).push(
            bytes.len() as int,
        ));
        assert(segments.take(n) =~= init);
        assert(init.take(n) =~= init);
        lemma_reach_step(segments, mark, n);
        lemma_encode_concat(first, closed_off(init, mark));
        assert forall|k: int| 0 <= k <= n implies #[trigger] reach(init, mark, k) == reach(
            segments,
            mark,
            k,
        ) by {
            assert(init.take(k) =~= segments.take(k));
        }
        assert(positions(encode_utf8(whole), byte) =~= positions(encode_utf8(first), byte)
            + Seq::new(
            segments.len(),
            |k: int| width(first) + reach(segments, mark, k + 1) - 1,
        ));
    }
}

/// In a drawn line, each segment stands where the widths before it put it,
/// and a mark follows, whatever the segments hold.
proof fn lemma_segment_in_line(
    first: Seq<char>,
    segments: Seq<Seq<char>>,
    after: Seq<char>,
    mark: char,
    k: int,
)
    requires
        is_ascii_char(mark),
        0 <= k < segments.len(),
    ensures
        ({
            let line = first + closed_off(segments, mark) + after;
            let from = width(first) + reach(segments, mark, k);
            let to = width(first) + reach(segments, mark, k + 1) - 1;
            &&& 0 <= from <= to < width(line)
            &&& encode_utf8(line)[to] == mark as u8
            &&& byte_slice(line, from, to) == segments[k]
        }),
{
    let line = first + closed_off(segments, mark) + after;
    let head = first + closed_off(segments.take(k), mark);
    let upto = head + segments[k];
    lemma_reach_step(segments, mark, k);
    assert(segments =~= segments.take(k + 1) + segments.skip(k + 1));
    lemma_closed_concat(segments.take(k + 1), segments.skip(k + 1), mark);
    assert(line =~= upto + seq![mark] + closed_off(segments.skip(k + 1), mark) + after);
    assert(line.take(head.len() as int) =~= head);
    assert(line.take(upto.len() as int) =~= upto);
    assert(line[upto.len() as int] == mark);
    lemma_encode_concat(first, closed_off(segments.take(k), mark));
    lemma_encode_concat(head, segments[k]);
    assert(start_of(line, head.len() as int) == width(first) + reach(segments, mark, k));
    assert(start_of(line, upto.len() as int) == width(first) + reach(segments, mark, k + 1) - 1);
    lemma_ascii_char_byte(line, upto.len() as int);
    lemma_byte_slice(line, head.len() as int, upto.len() as int);
    assert(line.subrange(head.len() as int, upto.len() as int) =~= segments[k]);
}

/// The positions of the marks in a boxed line whose segments hold none.
pub proof fn lemma_boxed_positions(segments: Seq<Seq<char>>, mark: char)
    requires
        is_ascii_char(mark),
        lack(segments, mark),
    ensures
        positions(encode_utf8(boxed(segments, mark)), mark as u8) == Seq::new(
            segments.len() + 1,
            |k: int| reach(segments, mark, k),
        ),
{
    let byte = mark as u8;
    lemma_positions_closed(seq![mark], segments, mark);
    lemma_encode_one(mark);
    assert(seq![byte].drop_last() =~= Seq::empty());
    reveal_with_fuel(positions, 2);
    assert(positions(seq![byte], byte) =~= seq![0int]);
    assert(segments.take(0) =~= Seq::empty());
    assert(positions(encode_utf8(boxed(segments, mark)), byte) =~= Seq::new(
        segments.len() + 1,
        |k: int| reach(segments, mark, k),
    ));
}

/// The positions of the marks in an open line whose segments hold none.
pub proof fn lemma_unboxed_positions(segments: Seq<Seq<char>>, mark: char)
    requires
        is_ascii_char(mark),
        segments.len() >= 1,
        lack(segments, mark),
    ensures
        positions(encode_utf8(unboxed(segments, mark)), mark as u8) == Seq::new(
            (segments.len() - 1) as nat,
            |k: int| reach(segments, mark, k + 1) - 1,
        ),
{
    let byte = mark as u8;
    let init = segments.drop_last();
    let none = Seq::<char>::empty();
    let n = init.len() as int;
    lemma_closed_joined(segments, mark);
    assert forall|k: int| 0 <= k < n implies !(#[trigger] init[k]).contains(mark) by {
        assert(init[k] == segments[k]);
    }
    lemma_positions_closed(none, init, mark);
    assert(none + closed_off(init, mark) =~= closed_off(init, mark));
    assert(!segments[n].contains(mark));
    lemma_encode_concat(closed_off(init, mark), segments.last());
    lemma_positions_more(encode_utf8(closed_off(init, mark)), segments.last(), mark);
    assert forall|k: int| 0 <= k <= n implies #[trigger] reach(init, mark, k) == reach(
        segments,
        mark,
        k,
    ) by {
        assert(init.take(k) =~= segments.take(k));
    }
    assert(positions(encode_utf8(unboxed(segments, mark)), byte) =~= Seq::new(
        (segments.len() - 1) as nat,
        |k: int| reach(segments, mark, k + 1) - 1,
    ));
}

/// The cells of a boxed row at the offsets of its own marks.
proof fn lemma_boxed_cells(segments: Seq<Seq<char>>, junctions: Seq<int>)
    requires
        segments.len() >= 1,
        junctions == Seq::new(segments.len() + 1, |k: int| reach(segments, SEPARATOR, k)),
    ensures
        cells_by_column(boxed(segments, SEPARATOR), junctions, true) == Some(bare_cells(segments)),
{
    let line = boxed(segments, SEPARATOR);
    let first = seq![SEPARATOR];
    let none = Seq::<char>::empty();
    let end = width(line) as int;
    lemma_encode_one(SEPARATOR);
    assert(line =~= first + closed_off(segments, SEPARATOR) + none);
    assert(segments.take(0) =~= Seq::empty());
    lemma_ascii_char_byte(line, 0);
    assert(line.take(0) =~= none);
    assert forall|k: int| 0 <= k < junctions.len() implies 0 <= #[trigger] junctions[k] < end
        && encode_utf8(line)[junctions[k]] == SEPARATOR as u8 by {
        if k > 0 {
            lemma_segment_in_line(first, segments, none, SEPARATOR, k - 1);
        }
    }
    let all = columns(junctions, end, true);
    let cells = all.map_values(|column: (int, int)| cell_in(line, column));
    assert forall|k: int| 0 <= k < segments.len() implies cells[k] == bare_cells(segments)[k] by {
        lemma_segment_in_line(first, segments, none, SEPARATOR, k);
    }
    assert(cells =~= bare_cells(segments));
}

/// The cells of an open row at the offsets of its own marks.
proof fn lemma_unboxed_cells(segments: Seq<Seq<char>>, junctions: Seq<int>)
    requires
        segments.len() >= 2,
        junctions == Seq::new(
            (segments.len() - 1) as nat,
            |k: int| reach(segments, SEPARATOR, k + 1) - 1,
        ),
    ensures
        cells_by_column(unboxed(segments, SEPARATOR), junctions, false) == Some(
            bare_cells(segments),
        ),
{
    let line = unboxed(segments, SEPARATOR);
    let init = segments.drop_last();
    let last = segments.last();
    let none = Seq::<char>::empty();
    let n = init.len() as int;
    let end = width(line) as int;
    lemma_closed_joined(segments, SEPARATOR);
    assert(line =~= none + closed_off(init, SEPARATOR) + last);
    assert forall|k: int| 0 <= k <= n implies #[trigger] reach(init, SEPARATOR, k) == reach(
        segments,
        SEPARATOR,
        k,
    ) by {
        assert(init.take(k) =~= segments.take(k));
    }
    assert(init.take(0) =~= Seq::empty());
    assert forall|k: int| 0 <= k < junctions.len() implies 0 <= #[trigger] junctions[k] < end
        && encode_utf8(line)[junctions[k]] == SEPARATOR as u8 by {
        lemma_segment_in_line(none, init, last, SEPARATOR, k);
    }
    let all = columns(junctions, end, false);
    let cells = all.map_values(|column: (int, int)| cell_in(line, column));
    assert forall|k: int| 0 <= k < segments.len() implies cells[k] == bare_cells(segments)[k] by {
        if k < n {
            lemma_segment_in_line(none, init, last, SEPARATOR, k);
            assert(init[k] == segments[k]);
        } else {
            let head = closed_off(init, SEPARATOR);
            assert(init.take(n) =~= init);
            assert(line.take(head.len() as int) =~= head);
            assert(line.take(line.len() as int) =~= line);
            lemma_byte_slice(line, head.len() as int, line.len() as int);
            assert(line.subrange(head.len() as int, line.len() as int) =~= last);
        }
    }
    assert(cells =~= bare_cells(segments));
}

/// Columns are fixed by the border, not by the row: in a boxed table, each
/// cell is read back without its padding, whatever it holds, a `|` included,
/// so long as it takes as many bytes as its column.
pub proof fn law_boxed_row_reads_back(segments: Seq<Seq<char>>, rules: Seq<Seq<char>>)
    requires
        segments.len() >= 1,
        rules.len() == segments.len(),
        same_widths(segments, rules, segments.len() as int),
        lack(rules, JUNCTION),
    ensures
        cells_by_column(
            boxed(segments, SEPARATOR),
            positions(encode_utf8(boxed(rules, JUNCTION)), JUNCTION as u8),
            true,
        ) == Some(bare_cells(segments)),
{
    let n = segments.len() as int;
    let junctions = positions(encode_utf8(boxed(rules, JUNCTION)), JUNCTION as u8);
    lemma_boxed_positions(rules, JUNCTION);
    assert forall|k: int| 0 <= k <= n implies #[trigger] reach(rules, JUNCTION, k) == reach(
        segments,
        SEPARATOR,
        k,
    ) by {
        lemma_reach_same(segments, SEPARATOR, rules, JUNCTION, n, k);
    }
    assert(junctions =~= Seq::new(segments.len() + 1, |k: int| reach(segments, SEPARATOR, k)));
    lemma_boxed_cells(segments, junctions);
}

/// The same for an open table, whose last column ends with the row and needs
/// no width.
pub proof fn law_unboxed_row_reads_back(segments: Seq<Seq<char>>, rules: Seq<Seq<char>>)
    requires
        segments.len() >= 2,
        rules.len() == segments.len(),
        same_widths(segments, rules, segments.len() - 1),
        lack(rules, JUNCTION),
    ensures
        cells_by_column(
            unboxed(segments, SEPARATOR),
            positions(encode_utf8(unboxed(rules, JUNCTION)), JUNCTION as u8),
            false,
        ) == Some(bare_cells(segments)),
{
    let n = segments.len() - 1;
    let junctions = positions(encode_utf8(unboxed(rules, JUNCTION)), JUNCTION as u8);
    lemma_unboxed_positions(rules, JUNCTION);
    assert forall|k: int| 0 <= k <= n implies #[trigger] reach(rules, JUNCTION, k) == reach(
        segments,
        SEPARATOR,
        k,
    ) by {
        lemma_reach_same(segments, SEPARATOR, rules, JUNCTION, n, k);
    }
    assert(junctions =~= Seq::new(
        (segments.len() - 1) as nat,
        |k: int| reach(segments, SEPARATOR, k + 1) - 1,
    ));
    lemma_unboxed_cells(segments, junctions);
}

/// Every occurrence of a byte is among its positions.
pub proof fn lemma_positions_complete(bytes: Seq<u8>, byte: u8, at: int) -> (k: int)
    requires
        0 <= at < bytes.len(),
        bytes[at] == byte,
    ensures
        0 <= k < positions(bytes, byte).len(),
        positions(bytes, byte)[k] == at,
    decreases bytes.len(),
{
    if at == bytes.len() - 1 {
        positions(bytes, byte).len() - 1
    } else {
        lemma_positions_complete(bytes.drop_last(), byte, at)
    }
}

/// Ascending junctions at which a row lines up, as many as it has bars, are
/// all of its bars.
proof fn lemma_all_bars(line: Seq<char>, junctions: Seq<int>)
    requires
        lines_up(line, junctions),
        ascending(junctions),
        junctions.len() == positions(encode_utf8(line), SEPARATOR as u8).len(),
    ensures
        junctions == positions(encode_utf8(line), SEPARATOR as u8),
{
    let bars = positions(encode_utf8(line), SEPARATOR as u8);
    lemma_positions(encode_utf8(line), SEPARATOR as u8);
    assert forall|k: int| 0 <= k < junctions.len() implies junctions[k] == bars[k] by {
        lemma_bars_below(line, junctions, k);
        lemma_bars_above(line, junctions, k);
    }
    assert(junctions =~= bars);
}

/// The junction with index `k` is a bar with an index of at least `k`.
proof fn lemma_bars_below(line: Seq<char>, junctions: Seq<int>, k: int) -> (i: int)
    requires
        lines_up(line, junctions),
        ascending(junctions),
        0 <= k < junctions.len(),
    ensures
        k <= i < positions(encode_utf8(line), SEPARATOR as u8).len(),
        junctions[k] == positions(encode_utf8(line), SEPARATOR as u8)[i],
        junctions[k] >= positions(encode_utf8(line), SEPARATOR as u8)[k],
    decreases k,
{
    let bars = positions(encode_utf8(line), SEPARATOR as u8);
    lemma_positions(encode_utf8(line), SEPARATOR as u8);
    let i = lemma_positions_complete(encode_utf8(line), SEPARATOR as u8, junctions[k]);
    if k > 0 {
        let before = lemma_bars_below(line, junctions, k - 1);
        assert(junctions[k - 1] < junctions[k]);
        if i <= before {
            assert(i < before ==> bars[i] < bars[before]);
        }
    }
    assert(k < i ==> bars[k] < bars[i]);
    i
}

/// With as many junctions as bars, it has an index of at most `k`, too.
proof fn lemma_bars_above(line: Seq<char>, junctions: Seq<int>, k: int) -> (i: int)
    requires
        lines_up(line, junctions),
        ascending(junctions),
        0 <= k < junctions.len(),
        junctions.len() == positions(encode_utf8(line), SEPARATOR as u8).len(),
    ensures
        0 <= i <= k,
        junctions[k] == positions(encode_utf8(line), SEPARATOR as u8)[i],
        junctions[k] <= positions(encode_utf8(line), SEPARATOR as u8)[k],
    decreases junctions.len() - k,
{
    let bars = positions(encode_utf8(line), SEPARATOR as u8);
    lemma_positions(encode_utf8(line), SEPARATOR as u8);
    let i = lemma_positions_complete(encode_utf8(line), SEPARATOR as u8, junctions[k]);
    if k < junctions.len() - 1 {
        let next = lemma_bars_above(line, junctions, k + 1);
        assert(junctions[k] < junctions[k + 1]);
        if next <= i {
            assert(next < i ==> bars[next] < bars[i]);
        }
    }
    assert(i < k ==> bars[i] < bars[k]);
    i
}

/// Splitting a boxed row at its bars gives its cells where no cell holds a
/// bar. Empty cells are kept.
pub proof fn law_boxed_row_splits_at_bars(segments: Seq<Seq<char>>)
    requires
        segments.len() >= 1,
        lack(segments, SEPARATOR),
    ensures
        trimmed(boxed(segments, SEPARATOR)) == boxed(segments, SEPARATOR),
        cells_by_separator(boxed(segments, SEPARATOR), true) == bare_cells(segments),
{
    let line = boxed(segments, SEPARATOR);
    let none = Seq::<char>::empty();
    let parts = segments.push(none);
    lemma_closed_joined(segments, SEPARATOR);
    lemma_closed_joined(parts, SEPARATOR);
    assert(parts.drop_last() =~= segments);
    assert(joined(parts, seq![SEPARATOR]) =~= closed_off(segments, SEPARATOR));
    assert forall|k: int| 0 <= k < parts.len() implies !(#[trigger] parts[k]).contains(
        SEPARATOR,
    ) by {
        if k < segments.len() {
            assert(parts[k] == segments[k]);
        }
    }
    law_pieces_of_joined(parts, SEPARATOR);
    lemma_pieces_first(none, closed_off(segments, SEPARATOR), SEPARATOR);
    assert(none + seq![SEPARATOR] + closed_off(segments, SEPARATOR) =~= line);
    let all = pieces(line, SEPARATOR).map_values(|piece: Seq<char>| trimmed(piece));
    assert(all.subrange(1, all.len() - 1) =~= bare_cells(segments));
    assert(line.last() == SEPARATOR);
    lemma_bare_is_trimmed(line);
}

/// The same for an open row: what trimming takes from the ends of the row is
/// padding of the first and the last cell.
pub proof fn law_unboxed_row_splits_at_bars(segments: Seq<Seq<char>>)
    requires
        segments.len() >= 1,
        lack(segments, SEPARATOR),
    ensures
        cells_by_separator(trimmed(unboxed(segments, SEPARATOR)), false) == bare_cells(segments),
{
    let line = unboxed(segments, SEPARATOR);
    let inner = trimmed(line);
    let (before, after) = lemma_trim_parts(line);
    law_pieces_of_joined(segments, SEPARATOR);
    law_pieces_padded(before, inner, after);
    let all = pieces(inner, SEPARATOR).map_values(|piece: Seq<char>| trimmed(piece));
    assert(all =~= bare_cells(segments));
}

/// Padding at the ends of a text ends up in its first and last piece, where
/// trimming takes it away.
pub proof fn law_pieces_padded(before: Seq<char>, inner: Seq<char>, after: Seq<char>)
    requires
        is_padding(before),
        is_padding(after),
    ensures
        bare_cells(pieces(before + inner + after, SEPARATOR)) == bare_cells(
            pieces(inner, SEPARATOR),
        ),
    decreases inner.len(),
{
    let none = Seq::<char>::empty();
    let whole = before + inner + after;
    assert(!before.contains(SEPARATOR)) by {
        if before.contains(SEPARATOR) {
            let i = before.index_of(SEPARATOR);
            assert(is_white_space(before[i]));
        }
    }
    assert(!after.contains(SEPARATOR)) by {
        if after.contains(SEPARATOR) {
            let i = after.index_of(SEPARATOR);
            assert(is_white_space(after[i]));
        }
    }
    if inner.contains(SEPARATOR) {
        lemma_first_index(inner, SEPARATOR);
        let i = first_index(inner, SEPARATOR);
        let head = inner.take(i);
        let tail = inner.skip(i + 1);
        assert(inner =~= head + seq![SEPARATOR] + tail);
        lemma_pieces_first(head, tail, SEPARATOR);
        assert(!(before + head).contains(SEPARATOR));
        lemma_pieces_first(before + head, tail + after, SEPARATOR);
        assert(whole =~= (before + head) + seq![SEPARATOR] + (tail + after));
        law_pieces_padded(none, tail, after);
        assert(none + tail + after =~= tail + after);
        law_trim_ignores_padding(before, head, none);
        assert(before + head + none =~= before + head);
        assert(bare_cells(pieces(whole, SEPARATOR)) =~= seq![trimmed(head)] + bare_cells(
            pieces(tail, SEPARATOR),
        ));
        assert(bare_cells(pieces(inner, SEPARATOR)) =~= seq![trimmed(head)] + bare_cells(
            pieces(tail, SEPARATOR),
        ));
    } else {
        assert(!whole.contains(SEPARATOR));
        lemma_pieces_none(whole, SEPARATOR);
        lemma_pieces_none(inner, SEPARATOR);
        law_trim_ignores_padding(before, inner, after);
        assert(bare_cells(seq![whole]) =~= bare_cells(seq![inner]));
    }
}

/// A boxed row without interior bars has one compact form, whether it is cut
/// at junctions, one for each bar, or at its bars: text that shifts the byte
/// offsets does no harm.
pub proof fn law_boxed_row_reads_alike(segments: Seq<Seq<char>>, junctions: Seq<int>)
    requires
        segments.len() >= 1,
        lack(segments, SEPARATOR),
        lines_up(boxed(segments, SEPARATOR), junctions) && junctions.len() > 0 ==> ascending(
            junctions,
        ) && junctions.len() == segments.len() + 1,
    ensures
        compact_row(boxed(segments, SEPARATOR), junctions, true) == joined(
            bare_cells(segments),
            seq!['\t'],
        ),
{
    let line = boxed(segments, SEPARATOR);
    law_boxed_row_splits_at_bars(segments);
    if lines_up(line, junctions) && junctions.len() > 0 {
        lemma_boxed_positions(segments, SEPARATOR);
        lemma_all_bars(line, junctions);
        lemma_boxed_cells(segments, junctions);
    }
}

/// The same for an open row.
pub proof fn law_unboxed_row_reads_alike(segments: Seq<Seq<char>>, junctions: Seq<int>)
    requires
        segments.len() >= 2,
        lack(segments, SEPARATOR),
        lines_up(unboxed(segments, SEPARATOR), junctions) && junctions.len() > 0 ==> ascending(
            junctions,
        ) && junctions.len() == segments.len() - 1,
    ensures
        compact_row(unboxed(segments, SEPARATOR), junctions, false) == joined(
            bare_cells(segments),
            seq!['\t'],
        ),
{
    let line = unboxed(segments, SEPARATOR);
    law_unboxed_row_splits_at_bars(segments);
    if lines_up(line, junctions) && junctions.len() > 0 {
        lemma_unboxed_positions(segments, SEPARATOR);
        lemma_all_bars(line, junctions);
        lemma_unboxed_cells(segments, junctions);
    }
}

} // verus!
