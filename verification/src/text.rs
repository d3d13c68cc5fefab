//! Lines, pieces and padding of a text.
//!
//! A text is modelled as the sequence of its characters. Parts of a text are
//! handed out as borrowed strings.
use crate::bytes::{
    is_ascii_char, lemma_ascii_byte_char, lemma_ascii_char_byte, lemma_encode_injective,
    lemma_encode_split, lemma_start_is_boundary, lemma_start_order, lemma_start_step,
};
use vstd::prelude::*;
use vstd::string::{StrSliceExecFns, StringExecFns};
use vstd::utf8::encode_utf8;

verus! {

/// The characters that Unicode lists as `White_Space`.
pub open spec fn is_white_space(c: char) -> bool {
    ||| '\u{9}' <= c <= '\u{d}'
    ||| c == '\u{20}'
    ||| c == '\u{85}'
    ||| c == '\u{a0}'
    ||| c == '\u{1680}'
    ||| '\u{2000}' <= c <= '\u{200a}'
    ||| c == '\u{2028}'
    ||| c == '\u{2029}'
    ||| c == '\u{202f}'
    ||| c == '\u{205f}'
    ||| c == '\u{3000}'
}

/// The text without its leading white space.
pub open spec fn trimmed_start(text: Seq<char>) -> Seq<char>
    decreases text.len(),
{
    if text.len() > 0 && is_white_space(text.first()) {
        trimmed_start(text.drop_first())
    } else {
        text
    }
}

/// The text without its trailing white space.
pub open spec fn trimmed_end(text: Seq<char>) -> Seq<char>
    decreases text.len(),
{
    if text.len() > 0 && is_white_space(text.last()) {
        trimmed_end(text.drop_last())
    } else {
        text
    }
}

/// The text without the white space around it.
pub open spec fn trimmed(text: Seq<char>) -> Seq<char> {
    trimmed_end(trimmed_start(text))
}

/// The index of the first `c` in the text, or the length of the text where
/// there is none.
pub open spec fn first_index(text: Seq<char>, c: char) -> int
    decreases text.len(),
{
    if text.len() == 0 || text.first() == c {
        0
    } else {
        1 + first_index(text.drop_first(), c)
    }
}

/// What stands between the separators of a text: one piece more than there
/// are separators, empty ones included.
pub open spec fn pieces(text: Seq<char>, separator: char) -> Seq<Seq<char>>
    decreases text.len(),
{
    let i = first_index(text, separator);
    if 0 <= i < text.len() {
        seq![text.take(i)] + pieces(text.skip(i + 1), separator)
    } else {
        seq![text]
    }
}

/// The line without the carriage return that may close it.
pub open spec fn without_return(line: Seq<char>) -> Seq<char> {
    if line.len() > 0 && line.last() == '\r' {
        line.drop_last()
    } else {
        line
    }
}

/// The lines of a text. A line ends with a line feed or with a carriage
/// return and a line feed; the last one need not have an end.
pub open spec fn lines_of(text: Seq<char>) -> Seq<Seq<char>>
    decreases text.len(),
{
    let i = first_index(text, '\n');
    if text.len() == 0 {
        Seq::empty()
    } else if 0 <= i < text.len() {
        seq![without_return(text.take(i))] + lines_of(text.skip(i + 1))
    } else {
        seq![text]
    }
}

/// The parts one after another, with the separator between any two of them.
pub open spec fn joined(parts: Seq<Seq<char>>, separator: Seq<char>) -> Seq<char>
    decreases parts.len(),
{
    if parts.len() <= 1 {
        if parts.len() == 1 { parts[0] } else { Seq::empty() }
    } else {
        joined(parts.drop_last(), separator) + separator + parts.last()
    }
}

/// The characters of each of several strings.
pub open spec fn views(parts: Seq<&str>) -> Seq<Seq<char>> {
    parts.map_values(|part: &str| part@)
}

/// The characters of each of several owned strings.
pub open spec fn string_views(parts: Seq<String>) -> Seq<Seq<char>> {
    parts.map_values(|part: String| part@)
}

/// The decimal notation of a number.
pub open spec fn decimal(n: nat) -> Seq<char>
    decreases n,
{
    if n < 10 {
        seq![(48 + n) as char]
    } else {
        decimal(n / 10).push((48 + n % 10) as char)
    }
}

/// The first index is where the character stands, and nothing before it is
/// that character.
pub proof fn lemma_first_index(text: Seq<char>, c: char)
    ensures
        0 <= first_index(text, c) <= text.len(),
        forall|k: int| 0 <= k < first_index(text, c) ==> #[trigger] text[k] != c,
        first_index(text, c) < text.len() ==> text[first_index(text, c)] == c,
        first_index(text, c) < text.len() <==> text.contains(c),
    decreases text.len(),
{
    if text.len() > 0 && text.first() != c {
        let rest = text.drop_first();
        lemma_first_index(rest, c);
        assert forall|k: int| 0 <= k < first_index(text, c) implies #[trigger] text[k] != c by {
            if k > 0 {
                assert(rest[k - 1] == text[k]);
            }
        }
    }
    if text.contains(c) {
        let k = choose|k: int| 0 <= k < text.len() && text[k] == c;
        assert(text[k] == c);
    }
}

/// A character that no earlier one equals is the first of its kind.
pub proof fn lemma_first_index_unique(text: Seq<char>, c: char, i: int)
    requires
        0 <= i < text.len(),
        text[i] == c,
        forall|k: int| 0 <= k < i ==> #[trigger] text[k] != c,
    ensures
        first_index(text, c) == i,
{
    lemma_first_index(text, c);
    let f = first_index(text, c);
    assert(text.contains(c));
    if f < i {
        assert(text[f] != c);
    }
}

/// Whether a character is white space.
pub fn white_space(c: char) -> (b: bool)
    ensures
        b == is_white_space(c),
{
    ('\u{9}' <= c && c <= '\u{d}') || c == '\u{20}' || c == '\u{85}' || c == '\u{a0}' || c
        == '\u{1680}' || ('\u{2000}' <= c && c <= '\u{200a}') || c == '\u{2028}' || c == '\u{2029}'
        || c == '\u{202f}' || c == '\u{205f}' || c == '\u{3000}'
}

/// The characters of a string.
pub fn chars_of(text: &str) -> (chars: Vec<char>)
    ensures
        chars@ == text@,
{
    let mut chars: Vec<char> = Vec::new();
    for c in it: text.chars()
        invariant
            it.seq() == text@,
            chars@ == text@.take(it.index() as int),
    {
        chars.push(c);
    }
    chars
}

/// The text without the white space around it.
pub fn trim(text: &str) -> (inner: &str)
    ensures
        inner@ == trimmed(text@),
{
    let chars = chars_of(text);
    let mut from: usize = 0;
    assert(text@.skip(0) =~= text@);
    while from < chars.len() && white_space(chars[from])
        invariant
            chars@ == text@,
            from <= chars.len(),
            trimmed_start(text@) == trimmed_start(text@.skip(from as int)),
        decreases chars.len() - from,
    {
        assert(text@.skip(from as int).drop_first() =~= text@.skip(from + 1));
        from = from + 1;
    }
    let mut to: usize = chars.len();
    assert(text@.subrange(from as int, to as int) =~= text@.skip(from as int));
    while from < to && white_space(chars[to - 1])
        invariant
            chars@ == text@,
            from <= to <= chars.len(),
            trimmed(text@) == trimmed_end(text@.subrange(from as int, to as int)),
        decreases to,
    {
        assert(text@.subrange(from as int, to as int).drop_last() =~= text@.subrange(
            from as int,
            to - 1,
        ));
        to = to - 1;
    }
    text.substring_char(from, to)
}

/// Whether the text holds the character.
pub fn contains_char(text: &str, wanted: char) -> (found: bool)
    ensures
        found == text@.contains(wanted),
{
    let chars = chars_of(text);
    let mut i: usize = 0;
    while i < chars.len()
        invariant
            chars@ == text@,
            i <= chars.len(),
            forall|k: int| 0 <= k < i ==> text@[k] != wanted,
        decreases chars.len() - i,
    {
        if chars[i] == wanted {
            assert(text@[i as int] == wanted);
            return true;
        }
        i = i + 1;
    }
    false
}

/// Whether the text begins with the given one.
pub fn starts_with(text: &str, start: &str) -> (b: bool)
    ensures
        b == start@.is_prefix_of(text@),
{
    let chars = chars_of(text);
    let wanted = chars_of(start);
    if wanted.len() > chars.len() {
        return false;
    }
    let mut i: usize = 0;
    while i < wanted.len()
        invariant
            chars@ == text@,
            wanted@ == start@,
            i <= wanted.len() <= chars.len(),
            forall|k: int| 0 <= k < i ==> start@[k] == text@[k],
        decreases wanted.len() - i,
    {
        if wanted[i] != chars[i] {
            assert(text@.subrange(0, start@.len() as int)[i as int] == text@[i as int]);
            return false;
        }
        i = i + 1;
    }
    assert(start@ =~= text@.subrange(0, start@.len() as int));
    true
}

/// Cuts the text at the first separator, which is dropped.
pub fn cut(text: &str, separator: char) -> (parts: Option<(&str, &str)>)
    requires
        is_ascii_char(separator),
    ensures
        parts matches Some(p) ==> {
            let i = first_index(text@, separator);
            &&& 0 <= i < text@.len()
            &&& p.0@ == text@.take(i)
            &&& p.1@ == text@.skip(i + 1)
        },
        parts is None <==> !text@.contains(separator),
{
    let bytes = text.as_bytes();
    let byte = separator as u8;
    let mut at: usize = 0;
    while at < bytes.len() && bytes[at] != byte
        invariant
            bytes@ == encode_utf8(text@),
            at <= bytes.len(),
            forall|j: int| 0 <= j < at ==> bytes@[j] != byte,
        decreases bytes.len() - at,
    {
        at = at + 1;
    }
    if at == bytes.len() {
        proof {
            if text@.contains(separator) {
                let k = text@.index_of(separator);
                lemma_ascii_char_byte(text@, k);
            }
        }
        return None;
    }
    let ghost k = lemma_ascii_byte_char(text@, at as int, separator);
    proof {
        assert forall|i: int| 0 <= i < k implies #[trigger] text@[i] != separator by {
            if text@[i] == separator {
                lemma_ascii_char_byte(text@, i);
                lemma_start_order(text@, i, k);
            }
        }
        lemma_first_index_unique(text@, separator, k);
        lemma_start_is_boundary(text@, k);
        lemma_start_step(text@, k);
        lemma_start_is_boundary(text@, k + 1);
    }
    let (head, _) = text.split_at(at);
    let (_, tail) = text.split_at(at + 1);
    proof {
        lemma_encode_split(text@, k);
        assert(encode_utf8(head@) =~= encode_utf8(text@.take(k)));
        lemma_encode_injective(head@, text@.take(k));
        lemma_encode_split(text@, k + 1);
        assert(encode_utf8(tail@) =~= encode_utf8(text@.skip(k + 1)));
        lemma_encode_injective(tail@, text@.skip(k + 1));
    }
    Some((head, tail))
}

/// The pieces between the separators.
pub fn split_on(text: &str, separator: char) -> (parts: Vec<&str>)
    requires
        is_ascii_char(separator),
    ensures
        views(parts@) == pieces(text@, separator),
{
    let mut parts: Vec<&str> = Vec::new();
    let mut rest: &str = text;
    assert(views(parts@) + pieces(rest@, separator) =~= pieces(text@, separator));
    loop
        invariant
            is_ascii_char(separator),
            views(parts@) + pieces(rest@, separator) == pieces(text@, separator),
        decreases rest@.len(),
    {
        let ghost before = parts@;
        proof {
            lemma_first_index(rest@, separator);
        }
        match cut(rest, separator) {
            Some((head, tail)) => {
                parts.push(head);
                assert(views(parts@) =~= views(before).push(head@));
                assert(views(parts@) + pieces(tail@, separator) =~= views(before) + pieces(
                    rest@,
                    separator,
                ));
                rest = tail;
            },
            None => {
                parts.push(rest);
                assert(views(parts@) =~= views(before) + pieces(rest@, separator));
                return parts;
            },
        }
    }
}

/// The line without the carriage return that may close it.
pub fn strip_return(line: &str) -> (stripped: &str)
    ensures
        stripped@ == without_return(line@),
{
    let chars = chars_of(line);
    if chars.len() > 0 && chars[chars.len() - 1] == '\r' {
        line.substring_char(0, chars.len() - 1)
    } else {
        line
    }
}

/// The lines of a text.
pub fn split_lines(text: &str) -> (lines: Vec<&str>)
    ensures
        views(lines@) == lines_of(text@),
{
    let mut lines: Vec<&str> = Vec::new();
    let mut rest: &str = text;
    assert(views(lines@) + lines_of(rest@) =~= lines_of(text@));
    while !rest.is_empty()
        invariant_except_break
            views(lines@) + lines_of(rest@) == lines_of(text@),
        ensures
            views(lines@) == lines_of(text@),
        decreases rest@.len(),
    {
        let ghost before = lines@;
        proof {
            lemma_first_index(rest@, '\n');
        }
        match cut(rest, '\n') {
            Some((head, tail)) => {
                let line = strip_return(head);
                lines.push(line);
                assert(views(lines@) =~= views(before).push(line@));
                assert(views(lines@) + lines_of(tail@) =~= views(before) + lines_of(rest@));
                rest = tail;
            },
            None => {
                lines.push(rest);
                assert(views(lines@) =~= views(before) + lines_of(rest@));
                break;
            },
        }
    }
    lines
}

/// The parts one after another, with the separator between any two of them.
pub fn join(parts: &Vec<&str>, separator: &str) -> (text: String)
    ensures
        text@ == joined(views(parts@), separator@),
{
    let mut text = String::new();
    let mut i: usize = 0;
    while i < parts.len()
        invariant
            i <= parts.len(),
            text@ == joined(views(parts@).take(i as int), separator@),
        decreases parts.len() - i,
    {
        if i > 0 {
            text.append(separator);
        }
        text.append(parts[i]);
        proof {
            let all = views(parts@);
            assert(all.take(i + 1).drop_last() =~= all.take(i as int));
            assert(all.take(i + 1).last() == parts@[i as int]@);
            if i == 0 {
                assert(text@ =~= parts@[0]@);
            }
        }
        i = i + 1;
    }
    assert(views(parts@).take(i as int) =~= views(parts@));
    text
}

/// The same for owned parts.
pub fn join_strings(parts: &Vec<String>, separator: &str) -> (text: String)
    ensures
        text@ == joined(string_views(parts@), separator@),
{
    let mut borrowed: Vec<&str> = Vec::new();
    let mut i: usize = 0;
    while i < parts.len()
        invariant
            i <= parts.len(),
            views(borrowed@) == string_views(parts@).take(i as int),
        decreases parts.len() - i,
    {
        let ghost before = borrowed@;
        borrowed.push(parts[i].as_str());
        assert(views(borrowed@) =~= views(before).push(parts@[i as int]@));
        assert(string_views(parts@).take(i + 1) =~= string_views(parts@).take(i as int).push(
            parts@[i as int]@,
        ));
        i = i + 1;
    }
    assert(string_views(parts@).take(i as int) =~= string_views(parts@));
    join(&borrowed, separator)
}

/// The decimal digit with the given value.
fn digit(value: usize) -> (text: &'static str)
    requires
        value < 10,
    ensures
        text@ == seq![(48 + value) as char],
{
    proof {
        reveal_strlit("0");
        reveal_strlit("1");
        reveal_strlit("2");
        reveal_strlit("3");
        reveal_strlit("4");
        reveal_strlit("5");
        reveal_strlit("6");
        reveal_strlit("7");
        reveal_strlit("8");
        reveal_strlit("9");
    }
    match value {
        0 => "0",
        1 => "1",
        2 => "2",
        3 => "3",
        4 => "4",
        5 => "5",
        6 => "6",
        7 => "7",
        8 => "8",
        _ => "9",
    }
}

/// The decimal notation of a number.
pub fn to_decimal(n: usize) -> (text: String)
    ensures
        text@ == decimal(n as nat),
    decreases n,
{
    let mut text = if n < 10 {
        String::new()
    } else {
        to_decimal(n / 10)
    };
    let ghost before = text@;
    text.append(digit(n % 10));
    assert(text@ =~= before.push((48 + n % 10) as char));
    text
}

} // verus!
