use wordcount::{count_chars, count_words, FrequencyTable, WordMatcher};

fn sorted(table: &FrequencyTable) -> Vec<(String, usize)> {
    let mut entries = table.entries();
    entries.sort();
    entries
}

#[test]
fn matcher_finds_the_words_of_a_line() {
    let matcher = WordMatcher::new();
    assert_eq!(matcher.spans("aa bb cc bb"), vec![(0, 2), (3, 5), (6, 8), (9, 11)]);
    assert_eq!(matcher.spans("  x_1,y  "), vec![(2, 5), (6, 7)]);
    assert_eq!(matcher.spans(""), vec![]);
    assert_eq!(matcher.spans(" \t.,;-"), vec![]);
}

#[test]
fn matcher_gives_byte_offsets() {
    let matcher = WordMatcher::new();
    assert_eq!(matcher.spans("é日 😀 z"), vec![(0, 5), (11, 12)]);
}

#[test]
fn count_words_takes_the_text_of_each_span() {
    let mut table = FrequencyTable::new();
    count_words(&mut table, "aa bb cc bb", &[(0, 2), (3, 5), (6, 8), (9, 11)]);
    assert_eq!(
        sorted(&table),
        vec![("aa".to_string(), 1), ("bb".to_string(), 2), ("cc".to_string(), 1)]
    );
}

#[test]
fn count_words_passes_over_empty_spans() {
    let mut table = FrequencyTable::new();
    count_words(&mut table, "ab cd", &[(0, 0), (0, 2), (2, 2), (3, 5), (5, 5)]);
    assert_eq!(sorted(&table), vec![("ab".to_string(), 1), ("cd".to_string(), 1)]);
    assert_eq!(table.total(), 2);
}

#[test]
fn count_words_adds_to_what_was_counted() {
    let mut table = FrequencyTable::new();
    table.add("ab");
    count_words(&mut table, "ab", &[(0, 2)]);
    count_words(&mut table, "nothing here", &[]);
    assert_eq!(sorted(&table), vec![("ab".to_string(), 2)]);
}

#[test]
fn count_chars_takes_every_char() {
    let mut table = FrequencyTable::new();
    count_chars(&mut table, "abca é");
    count_chars(&mut table, "");
    assert_eq!(
        sorted(&table),
        vec![
            (" ".to_string(), 1),
            ("a".to_string(), 2),
            ("b".to_string(), 1),
            ("c".to_string(), 1),
            ("é".to_string(), 1)
        ]
    );
    assert_eq!(table.total(), 6);
}

#[test]
fn count_words_cuts_at_byte_offsets() {
    let mut table = FrequencyTable::new();
    count_words(&mut table, "é日 😀 z", &[(0, 5), (11, 12)]);
    assert_eq!(sorted(&table), vec![("z".to_string(), 1), ("é日".to_string(), 1)]);
}

#[test]
fn matcher_and_count_words_give_the_words_of_a_line() {
    let matcher = WordMatcher::new();
    let line = "zwei Wörter, zwei";
    let mut table = FrequencyTable::new();
    count_words(&mut table, line, &matcher.spans(line));
    assert_eq!(sorted(&table), vec![("Wörter".to_string(), 1), ("zwei".to_string(), 2)]);
}
