//! Pieces of UTF-8 text.

use vstd::prelude::*;
use vstd::string::StringSliceAdditionalSpecFns;
use vstd::utf8::*;

verus! {

/// The text that `bytes` encode, if they are valid UTF-8.
///
/// Calls `std::str::from_utf8`, which checks the bytes and hands the same
/// bytes back as a string slice; the contract says so over vstd's reading of
/// UTF-8.
#[verifier::external_body]
pub(crate) fn decode(bytes: &[u8]) -> (text: Option<&str>)
    ensures
        text is Some <==> valid_utf8(bytes@),
        text matches Some(s) ==> s.spec_bytes() == bytes@,
{
    std::str::from_utf8(bytes).ok()
}

/// In valid UTF-8, what stands behind a character boundary is valid UTF-8
/// again, and a later character boundary of the whole is one of that rest.
pub proof fn lemma_boundary_after_cut(bytes: Seq<u8>, start: int, end: int)
    requires
        valid_utf8(bytes),
        0 <= start <= end <= bytes.len(),
        is_char_boundary(bytes, start),
        is_char_boundary(bytes, end),
    ensures
        valid_utf8(bytes.subrange(start, bytes.len() as int)),
        is_char_boundary(bytes.subrange(start, bytes.len() as int), end - start),
{
    let tail = bytes.subrange(start, bytes.len() as int);
    valid_utf8_split(bytes, start);
    if end == bytes.len() {
        is_char_boundary_start_end_of_seq(tail);
    } else {
        is_char_boundary_iff_not_is_continuation_byte(bytes, end);
        is_char_boundary_iff_not_is_continuation_byte(tail, end - start);
    }
}

/// The text between two byte offsets into the UTF-8 encoding of `text`.
pub open spec fn piece(text: Seq<char>, start: int, end: int) -> Seq<char> {
    decode_utf8(encode_utf8(text).subrange(start, end))
}

/// The piece of `text` between two character boundaries, given as byte
/// offsets.
pub fn substring<'a>(text: &'a str, start: usize, end: usize) -> (part: &'a str)
    requires
        start <= end <= text.spec_bytes().len(),
        is_char_boundary(text.spec_bytes(), start as int),
        is_char_boundary(text.spec_bytes(), end as int),
    ensures
        part@ == piece(text@, start as int, end as int),
{
    proof {
        encode_utf8_valid_utf8(text@);
        lemma_boundary_after_cut(text.spec_bytes(), start as int, end as int);
    }
    let (_, tail) = text.split_at(start);
    let (part, _) = tail.split_at(end - start);
    proof {
        assert(part.spec_bytes() =~= text.spec_bytes().subrange(start as int, end as int));
        encode_utf8_decode_utf8(part@);
    }
    part
}

/// Two character boundaries cut a text into three parts: the piece before
/// the first, the piece between them and the piece behind the second. The
/// piece between them is empty only if the boundaries are the same.
pub proof fn lemma_piece_is_part(text: Seq<char>, start: int, end: int)
    requires
        0 <= start <= end <= encode_utf8(text).len(),
        is_char_boundary(encode_utf8(text), start),
        is_char_boundary(encode_utf8(text), end),
    ensures
        text == piece(text, 0, start) + piece(text, start, end) + piece(
            text,
            end,
            encode_utf8(text).len() as int,
        ),
        start < end ==> piece(text, start, end).len() > 0,
{
    let bytes = encode_utf8(text);
    let len = bytes.len() as int;
    let tail = bytes.subrange(start, len);
    encode_utf8_valid_utf8(text);
    encode_utf8_decode_utf8(text);
    lemma_boundary_after_cut(bytes, start, end);
    decode_utf8_split(bytes, start);
    decode_utf8_split(tail, end - start);
    valid_utf8_split(tail, end - start);
    assert(tail.subrange(0, end - start) =~= bytes.subrange(start, end));
    assert(tail.subrange(end - start, tail.len() as int) =~= bytes.subrange(end, len));
    assert(text =~= piece(text, 0, start) + piece(text, start, end) + piece(text, end, len));
}

/// A text has no more characters than its encoding has bytes.
pub proof fn lemma_chars_fit(text: Seq<char>)
    ensures
        text.len() <= encode_utf8(text).len(),
    decreases text.len(),
{
    if text.len() > 0 {
        lemma_chars_fit(text.drop_first());
    }
}

/// In valid UTF-8 that is not empty, the first character boundary behind the
/// start is the end of the first character.
pub proof fn lemma_first_boundary(bytes: Seq<u8>, index: int)
    requires
        valid_utf8(bytes),
        bytes.len() > 0,
        0 < index <= length_of_first_scalar(bytes),
    ensures
        1 <= length_of_first_scalar(bytes) <= bytes.len(),
        is_char_boundary(bytes, index) <==> index == length_of_first_scalar(bytes),
{
    reveal_with_fuel(is_char_boundary, 2);
}

/// Splits `text` behind its first character.
pub fn split_first(text: &str) -> (parts: (&str, &str))
    requires
        text@.len() > 0,
    ensures
        parts.0@ == seq![text@[0]],
        parts.1@ == text@.drop_first(),
{
    let ghost bytes = text.spec_bytes();
    let ghost first = length_of_first_scalar(bytes);
    proof {
        encode_utf8_valid_utf8(text@);
        encode_utf8_first_scalar(text@);
        encode_utf8_decode_utf8(text@);
        lemma_first_boundary(bytes, first);
    }
    let mut width: usize = 1;
    while !text.is_char_boundary(width)
        invariant
            bytes == text.spec_bytes(),
            first == length_of_first_scalar(bytes),
            valid_utf8(bytes),
            bytes.len() > 0,
            1 <= width <= first <= bytes.len(),
        decreases first - width,
    {
        proof {
            lemma_first_boundary(bytes, width as int);
        }
        width = width + 1;
    }
    proof {
        lemma_first_boundary(bytes, width as int);
    }
    let (head, tail) = text.split_at(width);
    proof {
        encode_utf8_decode_utf8(head@);
        encode_utf8_decode_utf8(tail@);
        decode_utf8_split(bytes, first);
        assert(tail.spec_bytes() == pop_first_scalar(bytes));
        assert(text@ == seq![decode_first_scalar(bytes) as char] + tail@);
        assert(head@ + tail@ == text@);
        assert(head@ =~= seq![text@[0]]);
        assert(tail@ =~= text@.drop_first());
    }
    (head, tail)
}

/// Bytes with an ASCII byte among them are valid UTF-8 exactly if the bytes
/// before it and the bytes behind it are.
pub proof fn lemma_valid_around_ascii(bytes: Seq<u8>, index: int)
    requires
        0 <= index < bytes.len(),
        bytes[index] <= 0x7f,
    ensures
        valid_utf8(bytes) <==> valid_utf8(bytes.subrange(0, index)) && valid_utf8(
            bytes.subrange(index + 1, bytes.len() as int),
        ),
{
    let before = bytes.subrange(0, index);
    let from_it = bytes.subrange(index, bytes.len() as int);
    let behind = bytes.subrange(index + 1, bytes.len() as int);
    assert(pop_first_scalar(from_it) =~= behind);
    if valid_utf8(bytes) {
        is_char_boundary_iff_not_is_continuation_byte(bytes, index);
        valid_utf8_split(bytes, index);
    }
    if valid_utf8(before) && valid_utf8(behind) {
        assert(valid_utf8(from_it));
        valid_utf8_concat(before, from_it);
        assert(before + from_it =~= bytes);
    }
}

} // verus!
