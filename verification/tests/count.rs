use std::collections::HashMap;
use wordcount::{count, CountError, CountOption, FrequencyTable};

fn as_map(table: &FrequencyTable) -> HashMap<String, usize> {
    table.entries().into_iter().collect()
}

fn counted(input: &[u8], option: CountOption) -> HashMap<String, usize> {
    as_map(&count(input, option).unwrap())
}

fn expected(pairs: &[(&str, usize)]) -> HashMap<String, usize> {
    pairs.iter().map(|(unit, n)| (unit.to_string(), *n)).collect()
}

#[test]
fn word_count_works() {
    let mut exp = HashMap::new();
    exp.insert("aa".to_string(), 1);
    exp.insert("bb".to_string(), 2);
    exp.insert("cc".to_string(), 1);

    assert_eq!(as_map(&count(b"aa bb cc bb", CountOption::Word).unwrap()), exp);
}

#[test]
fn word_count_works2() {
    let mut exp = HashMap::new();
    exp.insert("aa".to_string(), 1);
    exp.insert("cc".to_string(), 1);
    exp.insert("dd".to_string(), 1);

    assert_eq!(as_map(&count(b"aa cc dd", CountOption::Word).unwrap()), exp);
}

#[test]
fn word_count_works3() {
    let freqs = as_map(&count(b"aa cc dd", CountOption::Word).unwrap());
    assert_eq!(freqs.len(), 3);
    assert_eq!(freqs["aa"], 1);
    assert_eq!(freqs["cc"], 1);
    assert_eq!(freqs["dd"], 1);
}

#[test]
#[should_panic]
fn word_count_do_not_contain_unknown_words() {
    count(&[b'a', 0xf0, 0x90, 0x80, 0xe3, 0x81, 0x82], CountOption::Word).unwrap();
}

#[test]
fn invalid_utf8_fails_in_every_mode() {
    let input = [b'a', 0xf0, 0x90, 0x80, 0xe3, 0x81, 0x82];
    for option in [CountOption::Char, CountOption::Word, CountOption::Line] {
        assert!(matches!(count(&input, option), Err(CountError::InvalidEncoding)));
    }
}

#[test]
fn invalid_utf8_in_a_later_line_fails() {
    let input = b"good line\nalso good\n\xff\nnever read\n";
    for option in [CountOption::Char, CountOption::Word, CountOption::Line] {
        assert!(matches!(count(input, option), Err(CountError::InvalidEncoding)));
    }
}

#[test]
fn truncated_sequence_at_the_end_fails() {
    assert!(matches!(
        count(b"abc\n\xe3\x81", CountOption::Line),
        Err(CountError::InvalidEncoding)
    ));
}

#[test]
fn empty_input_gives_an_empty_table() {
    for option in [CountOption::Char, CountOption::Word, CountOption::Line] {
        let table = count(b"", option).unwrap();
        assert!(table.is_empty());
        assert_eq!(table.len(), 0);
        assert_eq!(table.total(), 0);
        assert!(table.entries().is_empty());
    }
}

#[test]
fn empty_lines_count_only_as_lines() {
    assert!(counted(b"\n\n", CountOption::Char).is_empty());
    assert!(counted(b"\n\n", CountOption::Word).is_empty());
    assert_eq!(counted(b"\n\n", CountOption::Line), expected(&[("", 2)]));
}

#[test]
fn words_are_case_sensitive() {
    assert_eq!(
        counted(b"Aa aa AA aa", CountOption::Word),
        expected(&[("Aa", 1), ("aa", 2), ("AA", 1)])
    );
}

#[test]
fn words_hold_letters_digits_and_underscores() {
    assert_eq!(
        counted(b"foo_bar, 42! foo-bar (x1)", CountOption::Word),
        expected(&[("foo_bar", 1), ("42", 1), ("foo", 1), ("bar", 1), ("x1", 1)])
    );
}

#[test]
fn words_may_hold_letters_beyond_ascii() {
    assert_eq!(
        counted("héllo wörld, héllo 日本語".as_bytes(), CountOption::Word),
        expected(&[("héllo", 2), ("wörld", 1), ("日本語", 1)])
    );
}

#[test]
fn words_do_not_run_over_line_ends() {
    assert_eq!(
        counted(b"ab\ncd\r\nab", CountOption::Word),
        expected(&[("ab", 2), ("cd", 1)])
    );
}

#[test]
fn lines_without_repeats_count_once_each() {
    assert_eq!(
        counted(b"first line\nsecond line\n", CountOption::Line),
        expected(&[("first line", 1), ("second line", 1)])
    );
}

#[test]
fn repeated_lines_share_a_count() {
    assert_eq!(
        counted(b"same\nother\nsame\nsame", CountOption::Line),
        expected(&[("same", 3), ("other", 1)])
    );
}

#[test]
fn both_line_terminators_are_stripped() {
    assert_eq!(
        counted(b"a\r\nb\na\n", CountOption::Line),
        expected(&[("a", 2), ("b", 1)])
    );
}

#[test]
fn only_one_carriage_return_belongs_to_the_terminator() {
    assert_eq!(
        counted(b"a\r\r\nb\r", CountOption::Line),
        expected(&[("a\r", 1), ("b\r", 1)])
    );
}

#[test]
fn chars_of_two_letters() {
    assert_eq!(counted(b"ab", CountOption::Char), expected(&[("a", 1), ("b", 1)]));
}

#[test]
fn chars_are_scalar_values_of_any_width() {
    assert_eq!(
        counted("aé日😀a é".as_bytes(), CountOption::Char),
        expected(&[("a", 2), ("é", 2), ("日", 1), ("😀", 1), (" ", 1)])
    );
}

#[test]
fn chars_leave_line_terminators_out() {
    assert_eq!(
        counted(b"ab\r\nba\n", CountOption::Char),
        expected(&[("a", 2), ("b", 2)])
    );
}

#[test]
fn counts_add_up_to_the_number_of_units() {
    let input = "one two\r\nthree two\n\nöne".as_bytes();
    assert_eq!(count(input, CountOption::Char).unwrap().total(), 7 + 9 + 0 + 3);
    assert_eq!(count(input, CountOption::Word).unwrap().total(), 5);
    assert_eq!(count(input, CountOption::Line).unwrap().total(), 4);
    for option in [CountOption::Char, CountOption::Word, CountOption::Line] {
        let table = count(input, option).unwrap();
        let sum: usize = table.entries().iter().map(|(_, n)| *n).sum();
        assert_eq!(sum, table.total());
    }
}

#[test]
fn the_default_option_counts_words() {
    let input = b"aa bb cc bb\nbb aa";
    assert_eq!(
        counted(input, CountOption::default()),
        counted(input, CountOption::Word)
    );
    assert_eq!(
        counted(input, CountOption::default()),
        expected(&[("aa", 2), ("bb", 3), ("cc", 1)])
    );
}

#[test]
fn counting_twice_gives_the_same_table() {
    let input = "x y x\nz\r\nx y\n\nzz é".as_bytes();
    for option in [CountOption::Char, CountOption::Word, CountOption::Line] {
        assert_eq!(counted(input, option), counted(input, option));
    }
    let bad = b"ok\n\xc0";
    assert_eq!(count(bad, CountOption::Word).err(), count(bad, CountOption::Word).err());
}
