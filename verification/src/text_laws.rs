//! What holds of trimming, splitting and joining, whatever the text.
use crate::text::{
    decimal, first_index, is_white_space, joined, lemma_first_index, lemma_first_index_unique,
    lines_of, pieces, string_views, trimmed, trimmed_end, trimmed_start, views, without_return,
};
use vstd::prelude::*;

verus! {

/// White space and nothing else.
pub open spec fn is_padding(text: Seq<char>) -> bool {
    forall|i: int| 0 <= i < text.len() ==> is_white_space(#[trigger] text[i])
}

/// No white space at either end.
pub open spec fn is_bare(text: Seq<char>) -> bool {
    text.len() > 0 ==> !is_white_space(text.first()) && !is_white_space(text.last())
}

proof fn lemma_trim_start_padding(padding: Seq<char>, text: Seq<char>)
    requires
        is_padding(padding),
    ensures
        trimmed_start(padding + text) == trimmed_start(text),
    decreases padding.len(),
{
    if padding.len() == 0 {
        assert(padding + text =~= text);
    } else {
        assert(is_white_space(padding[0]));
        assert((padding + text).drop_first() =~= padding.drop_first() + text);
        lemma_trim_start_padding(padding.drop_first(), text);
    }
}

proof fn lemma_trim_end_padding(text: Seq<char>, padding: Seq<char>)
    requires
        is_padding(padding),
    ensures
        trimmed_end(text + padding) == trimmed_end(text),
    decreases padding.len(),
{
    if padding.len() == 0 {
        assert(text + padding =~= text);
    } else {
        assert(is_white_space(padding[padding.len() - 1]));
        assert((text + padding).drop_last() =~= text + padding.drop_last());
        lemma_trim_end_padding(text, padding.drop_last());
    }
}

/// Padding around a bare text is exactly what trimming takes away.
pub proof fn law_trim_undoes_padding(before: Seq<char>, text: Seq<char>, after: Seq<char>)
    requires
        is_padding(before),
        is_padding(after),
        is_bare(text),
    ensures
        trimmed(before + text + after) == text,
{
    assert(before + text + after =~= before + (text + after));
    lemma_trim_start_padding(before, text + after);
    if text.len() == 0 {
        assert(text + after =~= after + text);
        lemma_trim_start_padding(after, text);
        assert(trimmed_end(text) == text);
    } else {
        assert((text + after).first() == text.first());
        lemma_trim_end_padding(text, after);
    }
}

/// A text is its trimmed form with some padding on either side.
pub proof fn lemma_trim_parts(text: Seq<char>) -> (parts: (Seq<char>, Seq<char>))
    ensures
        is_padding(parts.0),
        is_padding(parts.1),
        text == parts.0 + trimmed(text) + parts.1,
        is_bare(trimmed(text)),
    decreases text.len(),
{
    if text.len() == 0 {
        assert(text =~= text + trimmed(text) + text);
        (text, text)
    } else if is_white_space(text.first()) {
        let parts = lemma_trim_parts(text.drop_first());
        let before = seq![text.first()] + parts.0;
        assert(text =~= seq![text.first()] + text.drop_first());
        assert(text =~= before + trimmed(text) + parts.1);
        (before, parts.1)
    } else {
        let after = lemma_trim_end_parts(text);
        let before = Seq::<char>::empty();
        assert(text =~= before + trimmed(text) + after);
        (before, after)
    }
}

proof fn lemma_trim_end_parts(text: Seq<char>) -> (after: Seq<char>)
    ensures
        is_padding(after),
        text == trimmed_end(text) + after,
        trimmed_end(text).len() > 0 ==> !is_white_space(trimmed_end(text).last()) && trimmed_end(
            text,
        ).first() == text.first(),
    decreases text.len(),
{
    if text.len() > 0 && is_white_space(text.last()) {
        let after = lemma_trim_end_parts(text.drop_last());
        assert(text =~= text.drop_last().push(text.last()));
        assert(text =~= trimmed_end(text) + after.push(text.last()));
        after.push(text.last())
    } else {
        assert(text =~= text + Seq::<char>::empty());
        Seq::empty()
    }
}

/// Trimming leaves no white space at either end, and doing it twice is doing
/// it once.
pub proof fn law_trim_is_bare(text: Seq<char>)
    ensures
        is_bare(trimmed(text)),
        trimmed(trimmed(text)) == trimmed(text),
{
    let parts = lemma_trim_parts(text);
    lemma_bare_is_trimmed(trimmed(text));
}

/// A bare text is its own trimmed form.
pub proof fn lemma_bare_is_trimmed(text: Seq<char>)
    requires
        is_bare(text),
    ensures
        trimmed(text) == text,
{
    let none = Seq::<char>::empty();
    law_trim_undoes_padding(none, text, none);
    assert(none + text + none =~= text);
}

/// More padding changes nothing.
pub proof fn law_trim_ignores_padding(before: Seq<char>, text: Seq<char>, after: Seq<char>)
    requires
        is_padding(before),
        is_padding(after),
    ensures
        trimmed(before + text + after) == trimmed(text),
{
    let parts = lemma_trim_parts(text);
    assert(before + text + after =~= (before + parts.0) + trimmed(text) + (parts.1 + after));
    law_trim_undoes_padding(before + parts.0, trimmed(text), parts.1 + after);
}

/// Trimming keeps every character that is no white space.
pub proof fn law_trim_keeps_content(text: Seq<char>, c: char)
    requires
        !is_white_space(c),
    ensures
        trimmed(text).contains(c) <==> text.contains(c),
{
    let parts = lemma_trim_parts(text);
    let inner = trimmed(text);
    if text.contains(c) {
        let i = text.index_of(c);
        assert(text[i] == c);
        if i < parts.0.len() {
            assert(is_white_space(parts.0[i]));
        } else if i >= parts.0.len() + inner.len() {
            assert(is_white_space(parts.1[i - parts.0.len() - inner.len()]));
        } else {
            assert(inner[i - parts.0.len()] == c);
        }
    }
    if inner.contains(c) {
        let i = inner.index_of(c);
        assert(text[parts.0.len() + i] == c);
    }
}

/// Joining by the first part instead of the last.
pub proof fn lemma_joined_first(parts: Seq<Seq<char>>, separator: Seq<char>)
    requires
        parts.len() >= 2,
    ensures
        joined(parts, separator) == parts.first() + separator + joined(
            parts.drop_first(),
            separator,
        ),
    decreases parts.len(),
{
    if parts.len() == 2 {
        assert(joined(parts.drop_last(), separator) == parts[0]);
        assert(joined(parts.drop_first(), separator) == parts[1]);
    } else {
        lemma_joined_first(parts.drop_last(), separator);
        assert(parts.drop_last().drop_first() =~= parts.drop_first().drop_last());
        assert(joined(parts, separator) =~= parts.first() + separator + joined(
            parts.drop_first(),
            separator,
        ));
    }
}

/// The pieces of a text, joined by the separator, are the text; no piece
/// holds the separator.
pub proof fn law_pieces_restore(text: Seq<char>, separator: char)
    ensures
        joined(pieces(text, separator), seq![separator]) == text,
        pieces(text, separator).len() >= 1,
        forall|k: int|
            0 <= k < pieces(text, separator).len() ==> !(#[trigger] pieces(
                text,
                separator,
            )[k]).contains(separator),
    decreases text.len(),
{
    lemma_first_index(text, separator);
    let i = first_index(text, separator);
    let all = pieces(text, separator);
    if i < text.len() {
        let rest = pieces(text.skip(i + 1), separator);
        law_pieces_restore(text.skip(i + 1), separator);
        assert(all.drop_first() =~= rest);
        lemma_joined_first(all, seq![separator]);
        assert(text =~= text.take(i) + seq![separator] + text.skip(i + 1));
        assert forall|k: int| 0 <= k < all.len() implies !(#[trigger] all[k]).contains(
            separator,
        ) by {
            if k > 0 {
                assert(all[k] == rest[k - 1]);
            }
        }
    }
}

/// A separator is the first one where what stands before it holds none.
proof fn lemma_first_after(head: Seq<char>, tail: Seq<char>, separator: char)
    requires
        !head.contains(separator),
    ensures
        first_index(head + seq![separator] + tail, separator) == head.len(),
        (head + seq![separator] + tail).take(head.len() as int) == head,
        (head + seq![separator] + tail).skip(head.len() as int + 1) == tail,
{
    let text = head + seq![separator] + tail;
    let n = head.len() as int;
    assert(text[n] == separator);
    assert forall|k: int| 0 <= k < n implies #[trigger] text[k] != separator by {
        assert(text[k] == head[k]);
    }
    lemma_first_index_unique(text, separator, n);
    assert(text.take(n) =~= head);
    assert(text.skip(n + 1) =~= tail);
}

/// The piece before the first separator, and the pieces after it.
pub proof fn lemma_pieces_first(head: Seq<char>, tail: Seq<char>, separator: char)
    requires
        !head.contains(separator),
    ensures
        pieces(head + seq![separator] + tail, separator) == seq![head] + pieces(tail, separator),
{
    lemma_first_after(head, tail, separator);
}

/// A text without separators is its own only piece.
pub proof fn lemma_pieces_none(text: Seq<char>, separator: char)
    requires
        !text.contains(separator),
    ensures
        pieces(text, separator) == seq![text],
{
    lemma_first_index(text, separator);
}

/// A text that is put together from parts without the separator falls apart
/// into these parts again.
pub proof fn law_pieces_of_joined(parts: Seq<Seq<char>>, separator: char)
    requires
        parts.len() >= 1,
        forall|k: int| 0 <= k < parts.len() ==> !(#[trigger] parts[k]).contains(separator),
    ensures
        pieces(joined(parts, seq![separator]), separator) == parts,
    decreases parts.len(),
{
    if parts.len() == 1 {
        lemma_pieces_none(parts[0], separator);
        assert(pieces(parts[0], separator) =~= parts);
    } else {
        let rest = parts.drop_first();
        assert forall|k: int| 0 <= k < rest.len() implies !(#[trigger] rest[k]).contains(
            separator,
        ) by {
            assert(rest[k] == parts[k + 1]);
        }
        law_pieces_of_joined(rest, separator);
        lemma_joined_first(parts, seq![separator]);
        lemma_pieces_first(parts[0], joined(rest, seq![separator]), separator);
        assert(seq![parts[0]] + rest =~= parts);
    }
}

/// Lines that are put together with line feeds come apart again: but for a
/// carriage return at the end of a line, which counts as part of the line
/// end, and an empty last line, which needs no line feed before it.
pub proof fn law_lines_of_joined(lines: Seq<Seq<char>>)
    requires
        forall|k: int| 0 <= k < lines.len() ==> !(#[trigger] lines[k]).contains('\n'),
    ensures
        lines_of(joined(lines, seq!['\n'])) == resplit(lines),
    decreases lines.len(),
{
    let text = joined(lines, seq!['\n']);
    if lines.len() == 0 {
    } else if lines.len() == 1 {
        assert(!lines[0].contains('\n'));
        lemma_first_index(text, '\n');
        assert(lines_of(text) =~= resplit(lines));
    } else {
        let rest = lines.drop_first();
        assert forall|k: int| 0 <= k < rest.len() implies !(#[trigger] rest[k]).contains(
            '\n',
        ) by {
            assert(rest[k] == lines[k + 1]);
        }
        law_lines_of_joined(rest);
        lemma_joined_first(lines, seq!['\n']);
        lemma_first_after(lines[0], joined(rest, seq!['\n']), '\n');
    }
}

/// Lines as they come back after they were put together: every line but the
/// last without the carriage return that may close it, and no last line
/// where that is empty.
pub open spec fn resplit(lines: Seq<Seq<char>>) -> Seq<Seq<char>>
    decreases lines.len(),
{
    if lines.len() == 0 || (lines.len() == 1 && lines[0].len() == 0) {
        Seq::empty()
    } else if lines.len() == 1 {
        lines
    } else {
        seq![without_return(lines[0])] + resplit(lines.drop_first())
    }
}

/// No line of a text holds a line feed.
pub proof fn law_lines_hold_no_line_feed(text: Seq<char>)
    ensures
        forall|k: int|
            0 <= k < lines_of(text).len() ==> !(#[trigger] lines_of(text)[k]).contains('\n'),
    decreases text.len(),
{
    lemma_first_index(text, '\n');
    let i = first_index(text, '\n');
    let all = lines_of(text);
    if 0 < text.len() && i < text.len() {
        let rest = lines_of(text.skip(i + 1));
        law_lines_hold_no_line_feed(text.skip(i + 1));
        assert forall|k: int| 0 <= k < all.len() implies !(#[trigger] all[k]).contains('\n') by {
            if k > 0 {
                assert(all[k] == rest[k - 1]);
            }
        }
    }
}

/// White space, by code point.
pub proof fn law_white_space(c: char)
    ensures
        is_white_space(c) <==> {
            let code = c as u32;
            ||| 9 <= code <= 13
            ||| code == 0x20 || code == 0x85 || code == 0xa0 || code == 0x1680
            ||| 0x2000 <= code <= 0x200a
            ||| code == 0x2028 || code == 0x2029 || code == 0x202f || code == 0x205f
            ||| code == 0x3000
        },
{
}

/// Trimming takes a stretch of white space from each end, and as much of it
/// as there is.
pub proof fn law_trim_takes_the_ends(text: Seq<char>) -> (bounds: (int, int))
    ensures
        0 <= bounds.0 <= bounds.1 <= text.len(),
        trimmed(text) == text.subrange(bounds.0, bounds.1),
        forall|i: int|
            0 <= i < bounds.0 || bounds.1 <= i < text.len() ==> is_white_space(#[trigger] text[i]),
        bounds.0 < bounds.1 ==> !is_white_space(text[bounds.0]) && !is_white_space(
            text[bounds.1 - 1],
        ),
{
    let (before, after) = lemma_trim_parts(text);
    let inner = trimmed(text);
    let from = before.len() as int;
    let to = from + inner.len() as int;
    assert(inner =~= text.subrange(from, to));
    assert forall|i: int| 0 <= i < from || to <= i < text.len() implies is_white_space(
        #[trigger] text[i],
    ) by {
        if i < from {
            assert(before[i] == text[i]);
        } else {
            assert(after[i - to] == text[i]);
        }
    }
    (from, to)
}

/// Nothing joined is nothing, one part joined is that part, and one part
/// more comes behind the others and a separator.
pub proof fn law_joined_grows(parts: Seq<Seq<char>>, part: Seq<char>, separator: Seq<char>)
    ensures
        joined(Seq::empty(), separator) == Seq::<char>::empty(),
        joined(seq![part], separator) == part,
        parts.len() >= 1 ==> joined(parts.push(part), separator) == joined(parts, separator)
            + separator + part,
{
    assert(parts.push(part).drop_last() =~= parts);
}

/// A text has no lines where it is empty. Up to its first line feed it has a
/// line, without the carriage return right before the line feed, and behind
/// that it goes on. Without a line feed it is one line as it stands.
pub proof fn law_lines_by_line_feed(line: Seq<char>, rest: Seq<char>)
    requires
        !line.contains('\n'),
    ensures
        lines_of(Seq::empty()) == Seq::<Seq<char>>::empty(),
        line.len() > 0 ==> lines_of(line) == seq![line],
        lines_of(line + seq!['\n'] + rest) == seq![
            if line.len() > 0 && line.last() == '\r' {
                line.drop_last()
            } else {
                line
            },
        ] + lines_of(rest),
{
    lemma_first_index(line, '\n');
    lemma_first_after(line, rest, '\n');
}

/// A text holds every character of its lines.
pub proof fn law_line_is_part(text: Seq<char>, i: int)
    requires
        0 <= i < lines_of(text).len(),
    ensures
        forall|c: char| lines_of(text)[i].contains(c) ==> #[trigger] text.contains(c),
    decreases text.len(),
{
    lemma_first_index(text, '\n');
    let n = first_index(text, '\n');
    let line = lines_of(text)[i];
    if n < text.len() {
        let rest = text.skip(n + 1);
        if i > 0 {
            assert(line == lines_of(rest)[i - 1]);
            law_line_is_part(rest, i - 1);
        }
        assert forall|c: char| line.contains(c) implies #[trigger] text.contains(c) by {
            if i > 0 {
                assert(rest.contains(c));
                let k = rest.index_of(c);
                assert(text[n + 1 + k] == c);
            } else {
                let k = line.index_of(c);
                assert(text[k] == c);
            }
        }
    }
}

/// The number that a decimal notation stands for.
pub open spec fn value_of(digits: Seq<char>) -> int
    decreases digits.len(),
{
    if digits.len() == 0 {
        0
    } else {
        10 * value_of(digits.drop_last()) + (digits.last() as int - '0' as int)
    }
}

/// Decimal notation stands for the number, is made of digits, and has no
/// needless zero in front.
pub proof fn law_decimal_tells_the_number(n: nat)
    ensures
        value_of(decimal(n)) == n,
        decimal(n).len() >= 1,
        forall|i: int| 0 <= i < decimal(n).len() ==> '0' <= #[trigger] decimal(n)[i] <= '9',
        decimal(n).len() > 1 ==> decimal(n)[0] != '0',
        n > 0 ==> decimal(n)[0] != '0',
    decreases n,
{
    if n < 10 {
        reveal_with_fuel(value_of, 2);
        assert(decimal(n).drop_last() =~= Seq::empty());
    } else {
        let init = decimal(n / 10);
        law_decimal_tells_the_number(n / 10);
        assert(decimal(n).drop_last() =~= init);
        assert forall|i: int| 0 <= i < decimal(n).len() implies '0' <= #[trigger] decimal(n)[i]
            <= '9' by {
            if i < init.len() {
                assert(decimal(n)[i] == init[i]);
            }
        }
    }
}

/// The models of lists of strings have every string, in its place.
pub proof fn law_views_are_complete(parts: Seq<&str>, strings: Seq<String>)
    ensures
        views(parts).len() == parts.len(),
        forall|i: int| 0 <= i < parts.len() ==> #[trigger] views(parts)[i] == parts[i]@,
        string_views(strings).len() == strings.len(),
        forall|i: int|
            0 <= i < strings.len() ==> #[trigger] string_views(strings)[i] == strings[i]@,
{
}

} // verus!
