//! The three line shapes that the filters look for.
//!
//! Matching itself is done by the `regex` crate. The functions of that crate
//! that are called here are declared with the contracts that its
//! documentation gives; what each pattern accepts is spelled out by a
//! predicate over the characters of a line.
use vstd::prelude::*;

verus! {

/// A border row of any table dialect: nothing but dashes and junctions.
pub const BORDER_PATTERN: &'static str = "^[-+]+$";

/// A border row of a boxed table: it also starts and ends with a junction.
pub const BOX_BORDER_PATTERN: &'static str = "^\\+[-+]+\\+$";

/// A line that closes with a duration, such as `(0.00 sec)`. Localized
/// servers print a comma in place of the point.
pub const TIMING_PATTERN: &'static str = "\\(\\d+[.,]\\d+ sec\\)$";

/// The compiled form of a regular expression.
#[verifier::external_type_specification]
#[verifier::external_body]
pub struct ExRegex(regex::Regex);

/// Why a regular expression did not compile.
#[verifier::external_type_specification]
#[verifier::external_body]
pub struct ExRegexError(regex::Error);

/// What `regex::Regex::new` makes of a pattern that it accepts.
pub uninterp spec fn compiled(pattern: Seq<char>) -> regex::Regex;

/// Whether `regex::Regex::is_match` finds a match anywhere in a text.
pub uninterp spec fn finds(re: regex::Regex, text: Seq<char>) -> bool;

/// A character of a border row.
pub open spec fn is_border_char(c: char) -> bool {
    c == '-' || c == '+'
}

/// A non-empty run of dashes and junctions, and nothing else.
pub open spec fn is_border(text: Seq<char>) -> bool {
    text.len() > 0 && forall|i: int| 0 <= i < text.len() ==> is_border_char(#[trigger] text[i])
}

/// A border row that starts and ends with a junction and has something in
/// between.
pub open spec fn is_box_border(text: Seq<char>) -> bool {
    text.len() >= 3 && is_border(text) && text.first() == '+' && text.last() == '+'
}

/// A decimal digit of any script. In ASCII these are `0` to `9`; beyond it,
/// they are what the class `\d` accepts.
pub open spec fn is_digit(c: char) -> bool {
    if c <= '\u{7f}' {
        '0' <= c <= '9'
    } else {
        finds(compiled("\\d"@), seq![c])
    }
}

/// The text closes with an opening parenthesis at `open`, digits, a decimal
/// mark at `mark`, digits again, and ` sec)`.
pub open spec fn timing_at(text: Seq<char>, open: int, mark: int) -> bool {
    let end = text.len() - 5;
    &&& 0 <= open && open + 1 < mark && mark + 1 < end
    &&& text[open] == '('
    &&& text[mark] == '.' || text[mark] == ','
    &&& text.skip(end) == seq![' ', 's', 'e', 'c', ')']
    &&& forall|k: int| open < k < end && k != mark ==> is_digit(#[trigger] text[k])
}

/// The text closes with a duration.
pub open spec fn ends_with_timing(text: Seq<char>) -> bool {
    exists|open: int, mark: int| #[trigger] timing_at(text, open, mark)
}

/// `regex::Regex::new` compiles a pattern, always to the same automaton, and
/// accepts the three patterns above: they are well-formed and far below the
/// size limit.
pub assume_specification [regex::Regex::new] (re: &str) -> (r: Result<regex::Regex, regex::Error>)
    ensures
        r matches Ok(x) ==> x == compiled(re@),
        re@ == BORDER_PATTERN@ || re@ == BOX_BORDER_PATTERN@ || re@ == TIMING_PATTERN@ ==> r is Ok,
;

/// `regex::Regex::is_match` tells whether the haystack holds a match. For
/// the three patterns above that is what their predicates say: `^` and `$`
/// stand for the two ends of the haystack, `[-+]` and `[.,]` for one of two
/// characters, `\d` for a decimal digit, and `+` for one or more.
pub assume_specification [regex::Regex::is_match] (
    re: &regex::Regex,
    haystack: &str,
) -> (found: bool)
    ensures
        found == finds(*re, haystack@),
        *re == compiled(BORDER_PATTERN@) ==> found == is_border(haystack@),
        *re == compiled(BOX_BORDER_PATTERN@) ==> found == is_box_border(haystack@),
        *re == compiled(TIMING_PATTERN@) ==> found == ends_with_timing(haystack@),
;

} // verus!
