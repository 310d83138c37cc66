//! Lines of a byte text.
//!
//! A line ends before a line feed, or at the end of the text. A carriage
//! return directly before the line feed belongs to the terminator. What
//! follows the last line feed is a line of its own unless it is empty.

use crate::text::lemma_valid_around_ascii;
use vstd::prelude::*;
use vstd::slice::slice_subrange;
use vstd::utf8::{decode_utf8, valid_utf8};

verus! {

/// The line feed, which ends a line.
pub const LINE_FEED: u8 = 0x0A;

/// The carriage return, which may stand before a line feed.
pub const CARRIAGE_RETURN: u8 = 0x0D;

/// The offset of the first line feed at or behind `from`, or the length of
/// `bytes` if none follows.
pub open spec fn line_end(bytes: Seq<u8>, from: int) -> int
    decreases bytes.len() - from,
{
    if from < 0 || from >= bytes.len() {
        bytes.len() as int
    } else if bytes[from] == LINE_FEED {
        from
    } else {
        line_end(bytes, from + 1)
    }
}

/// `line` without the carriage return at its end, if it has one.
pub open spec fn without_carriage_return(line: Seq<u8>) -> Seq<u8> {
    if line.len() > 0 && line.last() == CARRIAGE_RETURN {
        line.drop_last()
    } else {
        line
    }
}

/// The line that starts at `from`, without its terminator.
pub open spec fn line_at(bytes: Seq<u8>, from: int) -> Seq<u8> {
    let end = line_end(bytes, from);
    if end < bytes.len() {
        without_carriage_return(bytes.subrange(from, end))
    } else {
        bytes.subrange(from, end)
    }
}

/// Where the line behind the one at `from` starts.
pub open spec fn line_after(bytes: Seq<u8>, from: int) -> int {
    let end = line_end(bytes, from);
    if end < bytes.len() {
        end + 1
    } else {
        end
    }
}

/// The lines of `bytes` from the offset `from` on.
pub open spec fn lines_from(bytes: Seq<u8>, from: int) -> Seq<Seq<u8>>
    decreases bytes.len() - from,
    via lines_from_decreases
{
    if from < 0 || from >= bytes.len() {
        Seq::empty()
    } else {
        seq![line_at(bytes, from)] + lines_from(bytes, line_after(bytes, from))
    }
}

#[via_fn]
proof fn lines_from_decreases(bytes: Seq<u8>, from: int) {
    if 0 <= from < bytes.len() {
        lemma_line_end(bytes, from);
    }
}

/// The lines of `bytes`.
pub open spec fn lines(bytes: Seq<u8>) -> Seq<Seq<u8>> {
    lines_from(bytes, 0)
}

/// A line reaches up to the first line feed and holds none.
pub proof fn lemma_line_end(bytes: Seq<u8>, from: int)
    requires
        0 <= from <= bytes.len(),
    ensures
        from <= line_end(bytes, from) <= bytes.len(),
        line_end(bytes, from) < bytes.len() ==> bytes[line_end(bytes, from)] == LINE_FEED,
        forall|i: int| from <= i < line_end(bytes, from) ==> bytes[i] != LINE_FEED,
    decreases bytes.len() - from,
{
    if from < bytes.len() && bytes[from] != LINE_FEED {
        lemma_line_end(bytes, from + 1);
    }
}

/// A line and its terminator take at least one byte, and the line takes no
/// more bytes than lie before the start of the next one.
pub proof fn lemma_line_at(bytes: Seq<u8>, from: int)
    requires
        0 <= from < bytes.len(),
    ensures
        from < line_after(bytes, from) <= bytes.len(),
        line_at(bytes, from).len() <= line_after(bytes, from) - from,
{
    lemma_line_end(bytes, from);
}

/// No line holds a line feed.
pub proof fn lemma_lines_hold_no_line_feed(bytes: Seq<u8>, from: int)
    requires
        0 <= from <= bytes.len(),
    ensures
        forall|i: int, k: int|
            0 <= i < lines_from(bytes, from).len() && 0 <= k < lines_from(bytes, from)[i].len()
                ==> #[trigger] lines_from(bytes, from)[i][k] != LINE_FEED,
    decreases bytes.len() - from,
{
    if from < bytes.len() {
        lemma_line_end(bytes, from);
        lemma_lines_hold_no_line_feed(bytes, line_after(bytes, from));
        let line = line_at(bytes, from);
        let later = lines_from(bytes, line_after(bytes, from));
        assert forall|k: int| 0 <= k < line.len() implies line[k] != LINE_FEED by {
            assert(line[k] == bytes[from + k]);
        }
        assert forall|i: int, k: int|
            0 <= i < lines_from(bytes, from).len() && 0 <= k < lines_from(bytes, from)[i].len()
                implies #[trigger] lines_from(bytes, from)[i][k] != LINE_FEED by {
            if i > 0 {
                assert(lines_from(bytes, from)[i] == later[i - 1]);
            }
        }
    }
}

/// The line of `input` that starts at `from`, and the offset at which the
/// next one starts.
pub fn next_line(input: &[u8], from: usize) -> (found: (&[u8], usize))
    requires
        from < input.len(),
    ensures
        found.0@ == line_at(input@, from as int),
        found.1 == line_after(input@, from as int),
{
    let mut end: usize = from;
    while end < input.len() && input[end] != LINE_FEED
        invariant
            from <= end <= input.len(),
            line_end(input@, from as int) == line_end(input@, end as int),
        decreases input.len() - end,
    {
        end = end + 1;
    }
    proof {
        lemma_line_end(input@, from as int);
    }
    if end < input.len() {
        let stop: usize = if end > from && input[end - 1] == CARRIAGE_RETURN {
            end - 1
        } else {
            end
        };
        let line = slice_subrange(input, from, stop);
        assert(line@ =~= line_at(input@, from as int));
        (line, end + 1)
    } else {
        (slice_subrange(input, from, end), end)
    }
}

/// Whether each of `lines` is valid UTF-8.
pub open spec fn all_valid(lines: Seq<Seq<u8>>) -> bool {
    forall|i: int| 0 <= i < lines.len() ==> valid_utf8(#[trigger] lines[i])
}

/// Whether every line of `bytes` is valid UTF-8.
pub open spec fn well_encoded(bytes: Seq<u8>) -> bool {
    all_valid(lines(bytes))
}

/// The text of each of `lines`.
pub open spec fn decoded(lines: Seq<Seq<u8>>) -> Seq<Seq<char>> {
    lines.map_values(|line: Seq<u8>| decode_utf8(line))
}

/// The lines of `bytes` as text.
pub open spec fn text_lines(bytes: Seq<u8>) -> Seq<Seq<char>> {
    decoded(lines(bytes))
}

/// From the start of a line on, bytes are valid UTF-8 exactly if each of
/// the lines that follow is.
pub proof fn lemma_valid_from(bytes: Seq<u8>, from: int)
    requires
        0 <= from <= bytes.len(),
    ensures
        valid_utf8(bytes.subrange(from, bytes.len() as int)) <==> all_valid(lines_from(bytes, from)),
    decreases bytes.len() - from,
{
    let len = bytes.len() as int;
    let rest = bytes.subrange(from, len);
    if from < len {
        lemma_line_end(bytes, from);
        let end = line_end(bytes, from);
        let next = line_after(bytes, from);
        let line = line_at(bytes, from);
        let later = lines_from(bytes, next);
        lemma_valid_from(bytes, next);
        assert(lines_from(bytes, from) == seq![line] + later);
        assert(all_valid(seq![line] + later) <==> valid_utf8(line) && all_valid(later)) by {
            let all = seq![line] + later;
            assert(all[0] == line);
            assert forall|i: int| 0 <= i < later.len() implies later[i] == all[i + 1] by {}
            if valid_utf8(line) && all_valid(later) {
                assert forall|i: int| 0 <= i < all.len() implies valid_utf8(#[trigger] all[i]) by {
                    if i > 0 {
                        assert(all[i] == later[i - 1]);
                    }
                }
            }
            if all_valid(all) {
                assert forall|i: int| 0 <= i < later.len() implies valid_utf8(
                    #[trigger] later[i],
                ) by {
                    assert(later[i] == all[i + 1]);
                }
            }
        }
        if end < len {
            let raw = bytes.subrange(from, end);
            lemma_valid_around_ascii(rest, end - from);
            assert(rest.subrange(0, end - from) =~= raw);
            assert(rest.subrange(end - from + 1, rest.len() as int) =~= bytes.subrange(next, len));
            if raw.len() > 0 && raw.last() == CARRIAGE_RETURN {
                lemma_valid_around_ascii(raw, raw.len() - 1);
                assert(raw.subrange(0, raw.len() - 1) =~= raw.drop_last());
                assert(raw.subrange(raw.len() as int, raw.len() as int) =~= Seq::<u8>::empty());
            }
        } else {
            assert(bytes.subrange(next, len) =~= Seq::<u8>::empty());
            assert(later =~= Seq::<Seq<u8>>::empty());
        }
    } else {
        assert(rest =~= Seq::<u8>::empty());
    }
}

/// Bytes are valid UTF-8 exactly if each of their lines is.
pub proof fn lemma_well_encoded(bytes: Seq<u8>)
    ensures
        well_encoded(bytes) <==> valid_utf8(bytes),
{
    lemma_valid_from(bytes, 0);
    assert(bytes.subrange(0, bytes.len() as int) =~= bytes);
}

} // verus!
