//! Byte offsets into a text.
//!
//! Border rows fix columns by byte offset, while rows are made of characters.
//! This module relates the two: where the UTF-8 encoding of each character
//! starts, and which text lies between two offsets.
use vstd::prelude::*;
use vstd::utf8::{
    char_is_scalar, decode_utf8, encode_scalar, encode_utf8, encode_utf8_decode_utf8,
    encode_utf8_first_scalar, encode_utf8_valid_utf8, has_width_1_encoding, is_char_boundary,
    last_continuation_byte, leading_byte_width_1, leading_byte_width_2, leading_byte_width_3,
    leading_byte_width_4, length_of_first_scalar, pop_first_scalar, second_last_continuation_byte,
    third_last_continuation_byte,
};

verus! {

/// The offset at which the encoding of the character with index `k` starts.
pub open spec fn start_of(text: Seq<char>, k: int) -> int {
    encode_utf8(text.take(k)).len() as int
}

/// The text whose encoding is the bytes `from..to` of the encoding of `text`.
pub open spec fn byte_slice(text: Seq<char>, from: int, to: int) -> Seq<char> {
    decode_utf8(encode_utf8(text).subrange(from, to))
}

/// An ASCII character.
pub open spec fn is_ascii_char(c: char) -> bool {
    c <= '\u{7f}'
}

/// An ASCII character is its own single byte; every byte of any other
/// character lies outside ASCII.
proof fn lemma_scalar_bytes(c: char)
    ensures
        is_ascii_char(c) ==> encode_scalar(c as u32) == seq![c as u8],
        !is_ascii_char(c) ==> forall|i: int|
            0 <= i < encode_scalar(c as u32).len() ==> #[trigger] encode_scalar(c as u32)[i]
                >= 0x80,
        1 <= encode_scalar(c as u32).len() <= 4,
{
    char_is_scalar(c);
    let u = c as u32;
    if has_width_1_encoding(u) {
        assert(leading_byte_width_1(u) == u as u8) by (bit_vector)
            requires
                u <= 0x7f,
        ;
    } else {
        assert(leading_byte_width_2(u) >= 0x80 && leading_byte_width_3(u) >= 0x80
            && leading_byte_width_4(u) >= 0x80 && last_continuation_byte(u) >= 0x80
            && second_last_continuation_byte(u) >= 0x80 && third_last_continuation_byte(u) >= 0x80)
            by (bit_vector);
    }
}

/// ASCII characters with the same byte are the same character.
proof fn lemma_ascii_cast(a: char, b: char)
    requires
        is_ascii_char(a),
        is_ascii_char(b),
        a as u8 == b as u8,
    ensures
        a == b,
{
}

/// The encoding of a concatenation is the concatenation of the encodings.
pub proof fn lemma_encode_concat(a: Seq<char>, b: Seq<char>)
    ensures
        encode_utf8(a + b) == encode_utf8(a) + encode_utf8(b),
    decreases a.len(),
{
    if a.len() == 0 {
        assert(a + b =~= b);
    } else {
        assert((a + b).drop_first() =~= a.drop_first() + b);
        lemma_encode_concat(a.drop_first(), b);
        assert(encode_utf8(a + b) =~= encode_utf8(a) + encode_utf8(b));
    }
}

/// Two texts with the same encoding are the same text.
pub proof fn lemma_encode_injective(a: Seq<char>, b: Seq<char>)
    requires
        encode_utf8(a) == encode_utf8(b),
    ensures
        a == b,
{
    encode_utf8_decode_utf8(a);
    encode_utf8_decode_utf8(b);
}

/// The encoding of one character.
pub proof fn lemma_encode_one(c: char)
    ensures
        encode_utf8(seq![c]) == encode_scalar(c as u32),
        1 <= encode_utf8(seq![c]).len(),
        is_ascii_char(c) ==> encode_utf8(seq![c]) == seq![c as u8],
{
    lemma_scalar_bytes(c);
    assert(seq![c].drop_first() =~= Seq::<char>::empty());
    reveal_with_fuel(encode_utf8, 2);
    assert(encode_utf8(seq![c]) =~= encode_scalar(c as u32));
}

/// The encodings of two adjoining parts adjoin.
pub proof fn lemma_encode_split(text: Seq<char>, k: int)
    requires
        0 <= k <= text.len(),
    ensures
        encode_utf8(text) == encode_utf8(text.take(k)) + encode_utf8(text.skip(k)),
{
    assert(text =~= text.take(k) + text.skip(k));
    lemma_encode_concat(text.take(k), text.skip(k));
}

/// Each character starts where the one before it ends.
pub proof fn lemma_start_step(text: Seq<char>, k: int)
    requires
        0 <= k < text.len(),
    ensures
        start_of(text, k + 1) == start_of(text, k) + encode_scalar(text[k] as u32).len(),
        start_of(text, k + 1) > start_of(text, k),
        is_ascii_char(text[k]) ==> start_of(text, k + 1) == start_of(text, k) + 1,
{
    assert(text.take(k + 1) =~= text.take(k) + seq![text[k]]);
    lemma_encode_concat(text.take(k), seq![text[k]]);
    lemma_encode_one(text[k]);
}

/// Later characters start at later offsets.
pub proof fn lemma_start_order(text: Seq<char>, i: int, k: int)
    requires
        0 <= i <= k <= text.len(),
    ensures
        start_of(text, i) <= start_of(text, k),
        i < k ==> start_of(text, i) < start_of(text, k),
        start_of(text, 0) == 0,
        start_of(text, text.len() as int) == encode_utf8(text).len(),
    decreases k - i,
{
    assert(text.take(0) =~= Seq::<char>::empty());
    assert(text.take(text.len() as int) =~= text);
    if i < k {
        lemma_start_order(text, i, k - 1);
        lemma_start_step(text, k - 1);
    }
}

/// An ASCII character stands as its own byte at its offset.
pub proof fn lemma_ascii_char_byte(text: Seq<char>, k: int)
    requires
        0 <= k < text.len(),
        is_ascii_char(text[k]),
    ensures
        0 <= start_of(text, k) < encode_utf8(text).len(),
        encode_utf8(text)[start_of(text, k)] == text[k] as u8,
{
    lemma_encode_split(text, k);
    assert(text.skip(k) =~= seq![text[k]] + text.skip(k + 1));
    lemma_encode_concat(seq![text[k]], text.skip(k + 1));
    lemma_encode_one(text[k]);
}

/// An ASCII byte is always a whole character: there is a character with that
/// value, and it starts at that offset.
pub proof fn lemma_ascii_byte_char(text: Seq<char>, at: int, c: char) -> (k: int)
    requires
        0 <= at < encode_utf8(text).len(),
        is_ascii_char(c),
        encode_utf8(text)[at] == c as u8,
    ensures
        0 <= k < text.len(),
        text[k] == c,
        start_of(text, k) == at,
    decreases text.len(),
{
    assert(text.len() > 0);
    let first = encode_scalar(text[0] as u32);
    lemma_scalar_bytes(text[0]);
    assert(text.take(0) =~= Seq::<char>::empty());
    if at < first.len() {
        assert(encode_utf8(text)[at] == first[at]);
        assert(encode_scalar(text[0] as u32)[at] == c as u8);
        assert(is_ascii_char(text[0]));
        lemma_ascii_cast(text[0], c);
        0
    } else {
        let rest = text.drop_first();
        assert(encode_utf8(text)[at] == encode_utf8(rest)[at - first.len()]);
        let k = lemma_ascii_byte_char(rest, at - first.len(), c);
        assert(text.take(k + 1) =~= seq![text[0]] + rest.take(k));
        lemma_encode_concat(seq![text[0]], rest.take(k));
        lemma_encode_one(text[0]);
        k + 1
    }
}

/// The offset of a character is a character boundary.
pub proof fn lemma_start_is_boundary(text: Seq<char>, k: int)
    requires
        0 <= k <= text.len(),
    ensures
        is_char_boundary(encode_utf8(text), start_of(text, k)),
        0 <= start_of(text, k) <= encode_utf8(text).len(),
    decreases k,
{
    let bytes = encode_utf8(text);
    encode_utf8_valid_utf8(text);
    lemma_start_order(text, 0, k);
    lemma_start_order(text, k, text.len() as int);
    if k > 0 {
        let rest = text.drop_first();
        encode_utf8_first_scalar(text);
        assert(pop_first_scalar(bytes) =~= encode_utf8(rest));
        lemma_start_is_boundary(rest, k - 1);
        assert(text.take(k) =~= seq![text[0]] + rest.take(k - 1));
        lemma_encode_concat(seq![text[0]], rest.take(k - 1));
        lemma_encode_one(text[0]);
    }
}

/// Every character boundary is the offset of a character, or the end.
pub proof fn lemma_boundary_is_start(text: Seq<char>, at: int) -> (k: int)
    requires
        is_char_boundary(encode_utf8(text), at),
    ensures
        0 <= k <= text.len(),
        start_of(text, k) == at,
    decreases text.len(),
{
    let bytes = encode_utf8(text);
    encode_utf8_valid_utf8(text);
    assert(text.take(0) =~= Seq::<char>::empty());
    if at == 0 {
        0
    } else {
        assert(text.len() > 0);
        let rest = text.drop_first();
        encode_utf8_first_scalar(text);
        assert(pop_first_scalar(bytes) =~= encode_utf8(rest));
        let k = lemma_boundary_is_start(rest, at - length_of_first_scalar(bytes));
        assert(text.take(k + 1) =~= seq![text[0]] + rest.take(k));
        lemma_encode_concat(seq![text[0]], rest.take(k));
        lemma_encode_one(text[0]);
        k + 1
    }
}

/// Between the offsets of two characters lie the characters between them.
pub proof fn lemma_byte_slice(text: Seq<char>, i: int, k: int)
    requires
        0 <= i <= k <= text.len(),
    ensures
        byte_slice(text, start_of(text, i), start_of(text, k)) == text.subrange(i, k),
{
    let middle = text.subrange(i, k);
    assert(text.take(k) =~= text.take(i) + middle);
    lemma_encode_concat(text.take(i), middle);
    lemma_encode_split(text, k);
    assert(encode_utf8(text).subrange(start_of(text, i), start_of(text, k)) =~= encode_utf8(
        middle,
    ));
    encode_utf8_decode_utf8(middle);
}

/// The part of `text` between two character boundaries.
pub fn slice_bytes(text: &str, from: usize, to: usize) -> (part: &str)
    requires
        is_char_boundary(encode_utf8(text@), from as int),
        is_char_boundary(encode_utf8(text@), to as int),
        from <= to,
    ensures
        part@ == byte_slice(text@, from as int, to as int),
{
    let ghost k = lemma_boundary_is_start(text@, to as int);
    let ghost i = lemma_boundary_is_start(text@, from as int);
    let (head, _) = text.split_at(to);
    proof {
        lemma_encode_split(text@, k);
        assert(encode_utf8(head@) =~= encode_utf8(text@.take(k)));
        lemma_encode_injective(head@, text@.take(k));
        if k < i {
            lemma_start_order(text@, k, i);
        }
        assert(head@.take(i) =~= text@.take(i));
        lemma_start_is_boundary(head@, i);
    }
    let (_, part) = head.split_at(from);
    proof {
        lemma_encode_split(head@, i);
        assert(encode_utf8(part@) =~= encode_utf8(head@.skip(i)));
        lemma_encode_injective(part@, head@.skip(i));
        assert(head@.skip(i) =~= text@.subrange(i, k));
        lemma_byte_slice(text@, i, k);
    }
    part
}

} // verus!
