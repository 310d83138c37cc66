use wordcount::text::{split_first, substring};

#[test]
fn substring_cuts_between_byte_offsets() {
    assert_eq!(substring("hello world", 0, 5), "hello");
    assert_eq!(substring("hello world", 6, 11), "world");
    assert_eq!(substring("hello world", 3, 3), "");
    assert_eq!(substring("hello", 0, 5), "hello");
}

#[test]
fn substring_counts_bytes_not_chars() {
    let text = "aé日😀z";
    assert_eq!(substring(text, 1, 3), "é");
    assert_eq!(substring(text, 3, 6), "日");
    assert_eq!(substring(text, 6, 10), "😀");
    assert_eq!(substring(text, 1, 10), "é日😀");
    assert_eq!(substring(text, 10, 11), "z");
}

#[test]
fn split_first_takes_one_char() {
    assert_eq!(split_first("abc"), ("a", "bc"));
    assert_eq!(split_first("a"), ("a", ""));
}

#[test]
fn split_first_takes_a_whole_scalar_value() {
    assert_eq!(split_first("éa"), ("é", "a"));
    assert_eq!(split_first("日本"), ("日", "本"));
    assert_eq!(split_first("😀!"), ("😀", "!"));
    assert_eq!(split_first("\u{7ff}\u{800}"), ("\u{7ff}", "\u{800}"));
}
