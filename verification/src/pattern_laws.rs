//! What the three line shapes are, character by character.
use crate::patterns::{
    compiled, ends_with_timing, finds, is_border, is_box_border, is_digit, timing_at,
    BORDER_PATTERN, BOX_BORDER_PATTERN, TIMING_PATTERN,
};
use vstd::prelude::*;

verus! {

/// The regular expressions, in so many words.
pub proof fn law_patterns()
    ensures
        BORDER_PATTERN@ == "^[-+]+$"@,
        BOX_BORDER_PATTERN@ == "^\\+[-+]+\\+$"@,
        TIMING_PATTERN@ == "\\(\\d+[.,]\\d+ sec\\)$"@,
{
}

/// A border is made of dashes and plus signs, at least one, and of nothing
/// else.
pub proof fn law_border_characters(text: Seq<char>)
    ensures
        is_border(text) <==> text.len() > 0 && forall|i: int|
            0 <= i < text.len() ==> #[trigger] text[i] == '-' || text[i] == '+',
{
}

/// A box border is a plus sign, at least one dash or plus sign, and a plus
/// sign.
pub proof fn law_box_border_characters(text: Seq<char>)
    ensures
        is_box_border(text) <==> {
            &&& text.len() >= 3
            &&& text[0] == '+' && text[text.len() - 1] == '+'
            &&& forall|i: int| 0 <= i < text.len() ==> #[trigger] text[i] == '-' || text[i] == '+'
        },
{
}

/// The digits of ASCII are `0` to `9`; beyond it, what the class `\d` takes.
pub proof fn law_digits(c: char)
    ensures
        c as u32 <= 0x7f ==> (is_digit(c) <==> 48 <= c as u32 <= 57),
        c as u32 > 0x7f ==> is_digit(c) == finds(compiled("\\d"@), seq![c]),
{
}

/// Digits and nothing else, at least one.
pub open spec fn is_number(text: Seq<char>) -> bool {
    text.len() > 0 && forall|i: int| 0 <= i < text.len() ==> is_digit(#[trigger] text[i])
}

/// A duration in seconds as a status line shows it.
pub open spec fn timing(whole: Seq<char>, mark: char, fraction: Seq<char>) -> Seq<char> {
    "("@ + whole + seq![mark] + fraction + " sec)"@
}

/// Whatever stands before it, a duration at the end of a text is found. Its
/// decimal mark is a point or a comma.
pub proof fn law_timing_is_found(
    head: Seq<char>,
    whole: Seq<char>,
    mark: char,
    fraction: Seq<char>,
)
    requires
        is_number(whole),
        is_number(fraction),
        mark == '.' || mark == ',',
    ensures
        ends_with_timing(head + timing(whole, mark, fraction)),
{
    let text = head + timing(whole, mark, fraction);
    reveal_strlit("(");
    reveal_strlit(" sec)");
    let open = head.len() as int;
    let at = open + 1 + whole.len() as int;
    let end = text.len() - 5;
    assert(text[open] == '(');
    assert(text[at] == mark);
    assert(text.skip(end) =~= seq![' ', 's', 'e', 'c', ')']);
    assert forall|k: int| open < k < end && k != at implies is_digit(#[trigger] text[k]) by {
        if k < at {
            assert(text[k] == whole[k - open - 1]);
        } else {
            assert(text[k] == fraction[k - at - 1]);
        }
    }
    assert(timing_at(text, open, at));
}

/// A duration is found in no other text.
pub proof fn law_timing_is_all(text: Seq<char>) -> (parts: (
    Seq<char>,
    Seq<char>,
    char,
    Seq<char>,
))
    requires
        ends_with_timing(text),
    ensures
        is_number(parts.1),
        is_number(parts.3),
        parts.2 == '.' || parts.2 == ',',
        text == parts.0 + timing(parts.1, parts.2, parts.3),
{
    let (open, mark) = choose|open: int, mark: int| #[trigger] timing_at(text, open, mark);
    let end = text.len() - 5;
    reveal_strlit("(");
    reveal_strlit(" sec)");
    let head = text.take(open);
    let whole = text.subrange(open + 1, mark);
    let fraction = text.subrange(mark + 1, end);
    assert forall|i: int| 0 <= i < whole.len() implies is_digit(#[trigger] whole[i]) by {
        assert(whole[i] == text[open + 1 + i]);
    }
    assert forall|i: int| 0 <= i < fraction.len() implies is_digit(#[trigger] fraction[i]) by {
        assert(fraction[i] == text[mark + 1 + i]);
    }
    assert(" sec)"@ =~= text.skip(end));
    assert(text =~= head + timing(whole, text[mark], fraction));
    (head, whole, text[mark], fraction)
}

} // verus!
