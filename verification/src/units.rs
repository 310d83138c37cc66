//! What is counted: the units of a text under each option.

use crate::lines::{all_valid, decoded, text_lines};
use crate::matcher::{lemma_earlier_spans_lie_in, spans_lie_in, word_spans};
use crate::option::CountOption;
use crate::text::{lemma_piece_is_part, piece};
use vstd::prelude::*;
use vstd::utf8::*;

verus! {

/// The characters of `line`, each as a text of its own.
pub open spec fn chars_of(line: Seq<char>) -> Seq<Seq<char>> {
    line.map_values(|c: char| seq![c])
}

/// The texts that `spans` cut out of `line`, but for the empty ones: a word
/// holds at least one character.
pub open spec fn words_at(line: Seq<char>, spans: Seq<(usize, usize)>) -> Seq<Seq<char>> {
    spans.filter(|span: (usize, usize)| span.0 < span.1).map_values(
        |span: (usize, usize)| piece(line, span.0 as int, span.1 as int),
    )
}

/// The words of `line`.
pub open spec fn words_of(line: Seq<char>) -> Seq<Seq<char>> {
    words_at(line, word_spans(line))
}

/// Whether the word matches in each of `lines` lie in that line: they are
/// pieces of it that follow one another without overlap.
pub open spec fn words_lie_in(lines: Seq<Seq<u8>>) -> bool {
    forall|i: int|
        0 <= i < lines.len() ==> spans_lie_in(
            word_spans(decode_utf8(#[trigger] lines[i])),
            lines[i],
        )
}

/// The units of one line, in the order in which they stand in it.
pub open spec fn units_of_line(line: Seq<char>, option: CountOption) -> Seq<Seq<char>> {
    match option {
        CountOption::Char => chars_of(line),
        CountOption::Word => words_of(line),
        CountOption::Line => seq![line],
    }
}

/// The units of a sequence of lines.
pub open spec fn units_of_lines(lines: Seq<Seq<char>>, option: CountOption) -> Seq<Seq<char>> {
    lines.map_values(|line: Seq<char>| units_of_line(line, option)).flatten()
}

/// The units of the text that `bytes` encode.
pub open spec fn units(bytes: Seq<u8>, option: CountOption) -> Seq<Seq<char>> {
    units_of_lines(text_lines(bytes), option)
}

/// How often `unit` stands in `units`.
pub open spec fn occurrences(units: Seq<Seq<char>>, unit: Seq<char>) -> nat
    decreases units.len(),
{
    if units.len() == 0 {
        0
    } else if units.last() == unit {
        occurrences(units.drop_last(), unit) + 1
    } else {
        occurrences(units.drop_last(), unit)
    }
}

/// In the multiset of a sequence of units, the count of a unit is the number
/// of places at which it stands in the sequence.
pub proof fn lemma_count_is_occurrences(units: Seq<Seq<char>>, unit: Seq<char>)
    ensures
        units.to_multiset().count(unit) == occurrences(units, unit),
    decreases units.len(),
{
    if units.len() == 0 {
        units.to_multiset_ensures();
        vstd::multiset::lemma_multiset_empty_len(units.to_multiset());
    } else {
        let before = units.drop_last();
        let last = units.last();
        assert(units =~= before.push(last));
        lemma_count_is_occurrences(before, unit);
        vstd::seq_lib::to_multiset_build(before, last);
        if last == unit {
            vstd::multiset::lemma_insert_increases_count_by_1(before.to_multiset(), unit);
        } else {
            vstd::multiset::lemma_insert_other_elements_unchanged(before.to_multiset(), last, unit);
        }
    }
}

/// The words at one more span: the words before it, and the text of the span
/// unless it is empty.
pub proof fn lemma_words_at_push(line: Seq<char>, spans: Seq<(usize, usize)>, span: (usize, usize))
    ensures
        words_at(line, spans.push(span)) == if span.0 < span.1 {
            words_at(line, spans).push(piece(line, span.0 as int, span.1 as int))
        } else {
            words_at(line, spans)
        },
{
    let holds_text = |span: (usize, usize)| span.0 < span.1;
    let text_of = |span: (usize, usize)| piece(line, span.0 as int, span.1 as int);
    spans.lemma_filter_push(span, holds_text);
    if span.0 < span.1 {
        spans.filter(holds_text).lemma_push_map_commute(text_of, span);
    }
}

/// The first spans cut no more words out of a line than all of them.
pub proof fn lemma_words_at_prefix(line: Seq<char>, spans: Seq<(usize, usize)>, n: int)
    requires
        0 <= n <= spans.len(),
    ensures
        words_at(line, spans.take(n)).len() <= words_at(line, spans).len(),
{
    spans.lemma_filter_take_len(|span: (usize, usize)| span.0 < span.1, n);
}

/// The units of one more line follow those of the lines before it.
pub proof fn lemma_units_of_lines_push(
    lines: Seq<Seq<char>>,
    line: Seq<char>,
    option: CountOption,
)
    ensures
        units_of_lines(lines.push(line), option) == units_of_lines(lines, option) + units_of_line(
            line,
            option,
        ),
{
    let units_in = |line: Seq<char>| units_of_line(line, option);
    lines.lemma_push_map_commute(units_in, line);
    lines.map_values(units_in).lemma_flatten_push(units_in(line));
}

/// When lines are counted, the units of a sequence of lines are the lines
/// themselves.
pub proof fn lemma_lines_are_units(lines: Seq<Seq<char>>)
    ensures
        units_of_lines(lines, CountOption::Line) == lines,
    decreases lines.len(),
{
    if lines.len() == 0 {
        assert(units_of_lines(lines, CountOption::Line) =~= lines);
    } else {
        let before = lines.drop_last();
        assert(lines =~= before.push(lines.last()));
        lemma_lines_are_units(before);
        lemma_units_of_lines_push(before, lines.last(), CountOption::Line);
        assert(before + seq![lines.last()] =~= lines);
    }
}

/// When characters are counted, the units of a sequence of lines are the
/// characters of all the lines, in their order.
pub proof fn lemma_chars_are_units(lines: Seq<Seq<char>>)
    ensures
        units_of_lines(lines, CountOption::Char) == chars_of(lines.flatten()),
    decreases lines.len(),
{
    if lines.len() == 0 {
        assert(units_of_lines(lines, CountOption::Char) =~= chars_of(lines.flatten()));
    } else {
        let before = lines.drop_last();
        let last = lines.last();
        assert(lines =~= before.push(last));
        lemma_chars_are_units(before);
        lemma_units_of_lines_push(before, last, CountOption::Char);
        before.lemma_flatten_push(last);
        assert(chars_of(before.flatten() + last) =~= chars_of(before.flatten()) + chars_of(last));
    }
}

/// Spans that lie in a line cut no more words out of it than the last of
/// them has bytes before its end, and so no more than the line has bytes.
pub proof fn lemma_words_fit(line: Seq<char>, spans: Seq<(usize, usize)>)
    requires
        spans_lie_in(spans, encode_utf8(line)),
    ensures
        spans.len() > 0 ==> words_at(line, spans).len() <= spans.last().1,
        words_at(line, spans).len() <= encode_utf8(line).len(),
    decreases spans.len(),
{
    if spans.len() == 0 {
        assert(words_at(line, spans) =~= Seq::<Seq<char>>::empty());
    } else {
        let before = spans.drop_last();
        assert(spans =~= before.push(spans.last()));
        lemma_words_at_push(line, before, spans.last());
        lemma_earlier_spans_lie_in(spans, encode_utf8(line));
        lemma_words_fit(line, before);
        if before.len() > 0 {
            assert(before.last() == spans[spans.len() - 2]);
            assert(spans[spans.len() - 2].1 <= spans[spans.len() - 1].0);
        }
    }
}

/// Every word that spans lying in a line cut out of it holds at least one
/// character.
pub proof fn lemma_words_hold_text(line: Seq<char>, spans: Seq<(usize, usize)>)
    requires
        spans_lie_in(spans, encode_utf8(line)),
    ensures
        forall|i: int|
            0 <= i < words_at(line, spans).len() ==> (#[trigger] words_at(line, spans)[i]).len()
                > 0,
    decreases spans.len(),
{
    if spans.len() == 0 {
        assert(words_at(line, spans) =~= Seq::<Seq<char>>::empty());
    } else {
        let before = spans.drop_last();
        let last = spans.last();
        assert(spans =~= before.push(last));
        lemma_earlier_spans_lie_in(spans, encode_utf8(line));
        lemma_words_hold_text(line, before);
        lemma_words_at_push(line, before, last);
        lemma_piece_is_part(line, last.0 as int, last.1 as int);
        assert forall|i: int| 0 <= i < words_at(line, spans).len() implies (#[trigger] words_at(
            line,
            spans,
        )[i]).len() > 0 by {
            if i < words_at(line, before).len() {
                assert(words_at(line, spans)[i] == words_at(line, before)[i]);
            }
        }
    }
}

/// When characters are counted, every unit holds one character.
pub proof fn lemma_char_units_hold_one(lines: Seq<Seq<char>>)
    ensures
        forall|i: int|
            0 <= i < units_of_lines(lines, CountOption::Char).len() ==> (#[trigger] units_of_lines(
                lines,
                CountOption::Char,
            )[i]).len() == 1,
{
    lemma_chars_are_units(lines);
}

/// When words are counted and the word matches in each line lie in that
/// line, every unit holds at least one character.
pub proof fn lemma_word_units_hold_text(lines: Seq<Seq<u8>>)
    requires
        all_valid(lines),
        words_lie_in(lines),
    ensures
        forall|i: int|
            0 <= i < units_of_lines(decoded(lines), CountOption::Word).len() ==> (
            #[trigger] units_of_lines(decoded(lines), CountOption::Word)[i]).len() > 0,
    decreases lines.len(),
{
    let units = units_of_lines(decoded(lines), CountOption::Word);
    if lines.len() == 0 {
        assert(units =~= Seq::<Seq<char>>::empty());
    } else {
        let before = lines.drop_last();
        let last = lines.last();
        let line = decode_utf8(last);
        assert(lines =~= before.push(last));
        assert(all_valid(before) && words_lie_in(before)) by {
            assert forall|i: int| 0 <= i < before.len() implies before[i] == lines[i] by {}
        }
        lemma_word_units_hold_text(before);
        before.lemma_push_map_commute(|line: Seq<u8>| decode_utf8(line), last);
        lemma_units_of_lines_push(decoded(before), line, CountOption::Word);
        decode_utf8_encode_utf8(last);
        lemma_words_hold_text(line, word_spans(line));
        let earlier = units_of_lines(decoded(before), CountOption::Word);
        assert forall|i: int| 0 <= i < units.len() implies (#[trigger] units[i]).len() > 0 by {
            if i < earlier.len() {
                assert(units[i] == earlier[i]);
            } else {
                assert(units[i] == words_of(line)[i - earlier.len()]);
            }
        }
    }
}

/// An empty line holds no character and no word, and is one line.
pub proof fn lemma_units_of_empty_line(option: CountOption)
    requires
        option == CountOption::Word ==> spans_lie_in(
            word_spans(Seq::<char>::empty()),
            Seq::<u8>::empty(),
        ),
    ensures
        units_of_line(Seq::<char>::empty(), option) == match option {
            CountOption::Line => seq![Seq::<char>::empty()],
            _ => Seq::<Seq<char>>::empty(),
        },
{
    let line = Seq::<char>::empty();
    match option {
        CountOption::Char => {
            assert(chars_of(line) =~= Seq::<Seq<char>>::empty());
        },
        CountOption::Word => {
            assert(encode_utf8(line) =~= Seq::<u8>::empty());
            lemma_words_fit(line, word_spans(line));
            assert(words_of(line) =~= Seq::<Seq<char>>::empty());
        },
        CountOption::Line => {},
    }
}

} // verus!
