//! Counting the units of a text.

use crate::lines::{
    all_valid, decoded, lemma_line_at, lemma_well_encoded, lines, lines_from, next_line,
    text_lines, well_encoded,
};
use crate::matcher::{spans_lie_in, WordMatcher, WORD_PATTERN};
use crate::option::CountOption;
use crate::table::FrequencyTable;
use crate::text::{decode, lemma_chars_fit, piece, split_first, substring};
use crate::units::{
    chars_of, lemma_char_units_hold_one, lemma_count_is_occurrences, lemma_units_of_lines_push,
    lemma_word_units_hold_text, lemma_words_at_prefix, lemma_words_at_push, lemma_words_fit,
    occurrences, units, units_of_line, units_of_lines, words_at, words_lie_in,
};
use vstd::multiset::Multiset;
use vstd::prelude::*;
use vstd::string::StringSliceAdditionalSpecFns;
use vstd::utf8::*;

verus! {

/// Why a text could not be counted.
#[derive(Debug, Clone, Copy, PartialEq, Eq, Structural)]
pub enum CountError {
    /// A line of the text is not valid UTF-8.
    InvalidEncoding,
}

/// Adding the units of an empty sequence leaves a multiset as it is.
proof fn lemma_nothing_added(counted: Multiset<Seq<char>>)
    ensures
        counted.add(Seq::<Seq<char>>::empty().to_multiset()) == counted,
{
    let nothing = Seq::<Seq<char>>::empty().to_multiset();
    Seq::<Seq<char>>::empty().to_multiset_ensures();
    vstd::multiset::lemma_multiset_empty_len(nothing);
    assert(counted.add(nothing) =~= counted);
}

/// Adding the units of a sequence and then one more unit adds the units of the
/// sequence with that unit pushed.
proof fn lemma_one_more_added(
    counted: Multiset<Seq<char>>,
    units: Seq<Seq<char>>,
    unit: Seq<char>,
)
    ensures
        counted.add(units.to_multiset()).insert(unit) == counted.add(
            units.push(unit).to_multiset(),
        ),
        counted.add(units.to_multiset()).len() == counted.len() + units.len(),
{
    units.to_multiset_ensures();
    assert(counted.add(units.to_multiset()).insert(unit) =~= counted.add(
        units.push(unit).to_multiset(),
    ));
}

/// Adding the one unit of a sequence is inserting it.
proof fn lemma_one_added(counted: Multiset<Seq<char>>, unit: Seq<char>)
    ensures
        counted.add(seq![unit].to_multiset()) == counted.insert(unit),
{
    lemma_nothing_added(counted);
    lemma_one_more_added(counted, Seq::<Seq<char>>::empty(), unit);
    assert(Seq::<Seq<char>>::empty().push(unit) =~= seq![unit]);
}

/// Counts every character of `line`.
pub fn count_chars(table: &mut FrequencyTable, line: &str)
    requires
        old(table)@.len() + line@.len() <= usize::MAX,
    ensures
        final(table)@ == old(table)@.add(chars_of(line@).to_multiset()),
{
    let mut rest: &str = line;
    let ghost mut done: int = 0;
    proof {
        assert(line@.take(0) =~= Seq::<char>::empty());
        assert(chars_of(line@.take(0)) =~= Seq::<Seq<char>>::empty());
        assert(line@.skip(0) =~= line@);
        lemma_nothing_added(table@);
    }
    while !rest.is_empty()
        invariant
            0 <= done <= line@.len(),
            rest@ == line@.skip(done),
            table@ == old(table)@.add(chars_of(line@.take(done)).to_multiset()),
            old(table)@.len() + line@.len() <= usize::MAX,
        decreases rest@.len(),
    {
        let (head, tail) = split_first(rest);
        proof {
            let seen = chars_of(line@.take(done));
            let text_of = |c: char| seq![c];
            assert(line@.take(done + 1) =~= line@.take(done).push(line@[done]));
            line@.take(done).lemma_push_map_commute(text_of, line@[done]);
            assert(chars_of(line@.take(done + 1)) == seen.push(head@));
            lemma_one_more_added(old(table)@, seen, head@);
            assert(tail@ =~= line@.skip(done + 1));
        }
        table.add(head);
        rest = tail;
        proof {
            done = done + 1;
        }
    }
    proof {
        assert(line@.take(done) =~= line@);
    }
}

/// Counts the words that `spans` cut out of `line`. An empty span holds no
/// word and is passed over.
pub fn count_words(table: &mut FrequencyTable, line: &str, spans: &[(usize, usize)])
    requires
        spans_lie_in(spans@, line.spec_bytes()),
        old(table)@.len() + words_at(line@, spans@).len() <= usize::MAX,
    ensures
        final(table)@ == old(table)@.add(words_at(line@, spans@).to_multiset()),
{
    let mut i: usize = 0;
    proof {
        assert(words_at(line@, spans@.take(0)) =~= Seq::<Seq<char>>::empty());
        lemma_nothing_added(table@);
    }
    while i < spans.len()
        invariant
            i <= spans.len(),
            spans_lie_in(spans@, line.spec_bytes()),
            table@ == old(table)@.add(words_at(line@, spans@.take(i as int)).to_multiset()),
            old(table)@.len() + words_at(line@, spans@).len() <= usize::MAX,
        decreases spans.len() - i,
    {
        let (start, end) = spans[i];
        proof {
            let seen = spans@.take(i as int);
            assert(spans@.take(i + 1) =~= seen.push(spans@[i as int]));
            lemma_words_at_push(line@, seen, spans@[i as int]);
            lemma_words_at_prefix(line@, spans@, i + 1);
            lemma_one_more_added(
                old(table)@,
                words_at(line@, seen),
                piece(line@, start as int, end as int),
            );
        }
        if start < end {
            let word = substring(line, start, end);
            table.add(word);
        }
        i = i + 1;
    }
    proof {
        assert(spans@.take(i as int) =~= spans@);
    }
}

/// Whether `counted` is what counting the units of `input` under `option`
/// comes to: the table of its units if `input` is valid UTF-8, and the error
/// if it is not.
pub open spec fn is_count_of(
    counted: Result<FrequencyTable, CountError>,
    input: Seq<u8>,
    option: CountOption,
) -> bool {
    match counted {
        Ok(table) => valid_utf8(input) && table@ == units(input, option).to_multiset(),
        Err(error) => !valid_utf8(input) && error == CountError::InvalidEncoding,
    }
}

/// Counts the units of the text `input` that `option` selects.
///
/// The text is taken line by line, and the first line that is not valid UTF-8
/// ends the work with an error. Else the table holds each unit as often as
/// it occurs in the text, so that its counts add up to the number of units.
pub fn count(input: &[u8], option: CountOption) -> (counted: Result<FrequencyTable, CountError>)
    ensures
        is_count_of(counted, input@, option),
        counted matches Ok(table) ==> table@.len() == units(input@, option).len(),
        counted is Ok && option == CountOption::Word ==> words_lie_in(lines(input@)),
{
    proof {
        lemma_well_encoded(input@);
    }
    let matcher = WordMatcher::new();
    let mut table = FrequencyTable::new();
    let mut from: usize = 0;
    let ghost mut done: Seq<Seq<u8>> = Seq::empty();
    proof {
        assert(decoded(done) =~= Seq::<Seq<char>>::empty());
        assert(units_of_lines(Seq::<Seq<char>>::empty(), option) =~= Seq::<Seq<char>>::empty());
        lemma_nothing_added(table@);
        assert(lines(input@) =~= done + lines_from(input@, 0));
    }
    while from < input.len()
        invariant
            from <= input.len(),
            matcher.pattern() == WORD_PATTERN@,
            well_encoded(input@) <==> valid_utf8(input@),
            lines(input@) == done + lines_from(input@, from as int),
            all_valid(done),
            option == CountOption::Word ==> words_lie_in(done),
            table@ == units_of_lines(decoded(done), option).to_multiset(),
            table@.len() <= from,
        decreases input.len() - from,
    {
        let (line_bytes, next) = next_line(input, from);
        proof {
            lemma_line_at(input@, from as int);
            assert(lines(input@)[done.len() as int] == line_bytes@);
        }
        match decode(line_bytes) {
            None => {
                return Err(CountError::InvalidEncoding);
            },
            Some(line) => {
                let ghost seen = units_of_lines(decoded(done), option);
                proof {
                    encode_utf8_decode_utf8(line@);
                    lemma_chars_fit(line@);
                    done.lemma_push_map_commute(|line: Seq<u8>| decode_utf8(line), line_bytes@);
                    lemma_units_of_lines_push(decoded(done), line@, option);
                    vstd::seq_lib::lemma_multiset_commutative(seen, units_of_line(line@, option));
                    seen.to_multiset_ensures();
                    units_of_line(line@, option).to_multiset_ensures();
                }
                match option {
                    CountOption::Char => {
                        count_chars(&mut table, line);
                    },
                    CountOption::Word => {
                        let spans = matcher.spans(line);
                        proof {
                            lemma_words_fit(line@, spans@);
                        }
                        count_words(&mut table, line, spans.as_slice());
                    },
                    CountOption::Line => {
                        proof {
                            lemma_one_added(table@, line@);
                        }
                        table.add(line);
                    },
                }
            },
        }
        proof {
            assert(done + lines_from(input@, from as int) =~= done.push(line_bytes@) + lines_from(
                input@,
                next as int,
            ));
            done = done.push(line_bytes@);
        }
        from = next;
    }
    proof {
        assert(lines(input@) =~= done);
        units(input@, option).to_multiset_ensures();
    }
    Ok(table)
}

/// In the table of a text, the count of a unit is the number of places at
/// which it stands among the units of the text, and the counts of all units
/// add up to the number of those places.
pub proof fn lemma_counts_are_occurrences(
    input: Seq<u8>,
    option: CountOption,
    table: FrequencyTable,
    unit: Seq<char>,
)
    requires
        is_count_of(Ok(table), input, option),
    ensures
        table@.count(unit) == occurrences(units(input, option), unit),
        table@.contains(unit) <==> units(input, option).contains(unit),
        table@.len() == units(input, option).len(),
{
    lemma_count_is_occurrences(units(input, option), unit);
    units(input, option).to_multiset_ensures();
}

/// A unit that stands in the table of a text holds one character when
/// characters were counted, and at least one character when words were
/// counted and the word matches in each line lie in that line.
pub proof fn lemma_counted_units_hold_text(
    input: Seq<u8>,
    option: CountOption,
    table: FrequencyTable,
    unit: Seq<char>,
)
    requires
        is_count_of(Ok(table), input, option),
        option == CountOption::Word ==> words_lie_in(lines(input)),
        table@.contains(unit),
    ensures
        option == CountOption::Char ==> unit.len() == 1,
        option == CountOption::Word ==> unit.len() > 0,
{
    let counted = units(input, option);
    counted.to_multiset_ensures();
    let at = choose|i: int| 0 <= i < counted.len() && counted[i] == unit;
    assert(counted[at] == unit);
    match option {
        CountOption::Char => {
            lemma_char_units_hold_one(text_lines(input));
        },
        CountOption::Word => {
            lemma_well_encoded(input);
            lemma_word_units_hold_text(lines(input));
        },
        CountOption::Line => {},
    }
}

/// Counting is a function of the text and the option: two outcomes for the
/// same text and option are both tables with the same count for every unit,
/// or both the same error.
pub proof fn lemma_count_is_determined(
    input: Seq<u8>,
    option: CountOption,
    first: Result<FrequencyTable, CountError>,
    second: Result<FrequencyTable, CountError>,
)
    requires
        is_count_of(first, input, option),
        is_count_of(second, input, option),
    ensures
        match (first, second) {
            (Ok(one), Ok(other)) => one@ == other@,
            (Err(one), Err(other)) => one == other,
            _ => false,
        },
{
}

} // verus!
