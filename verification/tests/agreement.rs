use regex::Regex;
use std::collections::HashMap;
use std::io::{BufRead, Cursor};
use wordcount::lines::next_line;
use wordcount::{count, CountOption, WordMatcher};

const SAMPLES: [&str; 14] = [
    "",
    "\n",
    "\r\n",
    "\r",
    "a",
    "aa bb cc bb",
    "one two\nthree two\n",
    "one two\r\nthree two\r\n\r\n",
    "tail without newline\r",
    "a\r\r\nb\n\nc",
    "  leading and trailing  \n\t tabs\tand-dashes_and_underscores 123\n",
    "héllo wörld\nнемного текста\n日本語 の テキスト\n",
    "emoji 😀 and é and e\u{301} combining\n",
    "x_1 x_1 X_1\nx_1\r\nñandú ñandú\n'quoted' \"words\" (here)",
];

fn by_reader(input: &[u8], option: CountOption) -> HashMap<String, usize> {
    let re = Regex::new(r"\w+").unwrap();
    let mut freqs = HashMap::new();
    for line in Cursor::new(input).lines() {
        let line = line.unwrap();
        match option {
            CountOption::Char => {
                for c in line.chars() {
                    *freqs.entry(c.to_string()).or_insert(0) += 1;
                }
            }
            CountOption::Word => {
                for m in re.find_iter(&line) {
                    *freqs.entry(m.as_str().to_string()).or_insert(0) += 1;
                }
            }
            CountOption::Line => *freqs.entry(line).or_insert(0) += 1,
        }
    }
    freqs
}

#[test]
fn count_agrees_with_a_line_reader() {
    for sample in SAMPLES {
        for option in [CountOption::Char, CountOption::Word, CountOption::Line] {
            let table = count(sample.as_bytes(), option).unwrap();
            let counted: HashMap<String, usize> = table.entries().into_iter().collect();
            assert_eq!(counted, by_reader(sample.as_bytes(), option), "{:?} {:?}", sample, option);
        }
    }
}

#[test]
fn lines_agree_with_a_line_reader() {
    for sample in SAMPLES {
        let input = sample.as_bytes();
        let mut lines = Vec::new();
        let mut from = 0;
        while from < input.len() {
            let (line, next) = next_line(input, from);
            lines.push(String::from_utf8(line.to_vec()).unwrap());
            from = next;
        }
        let read: Vec<String> = Cursor::new(input).lines().map(|line| line.unwrap()).collect();
        assert_eq!(lines, read, "{:?}", sample);
    }
}

#[test]
fn word_spans_lie_in_their_line() {
    let matcher = WordMatcher::new();
    for sample in SAMPLES {
        for line in sample.lines() {
            let spans = matcher.spans(line);
            let mut last_end = 0;
            for &(start, end) in &spans {
                assert!(last_end <= start && start < end && end <= line.len());
                assert!(line.is_char_boundary(start) && line.is_char_boundary(end));
                last_end = end;
            }
        }
    }
}

#[test]
fn invalid_input_fails_where_a_line_reader_fails() {
    let inputs: [&[u8]; 5] = [
        b"\xff",
        b"ok\n\xc3\x28\n",
        b"\xed\xa0\x80",
        b"fine\r\n\xf0\x9f\x98",
        b"a\n\xc0\xaf\nb",
    ];
    for input in inputs {
        assert!(Cursor::new(input).lines().any(|line| line.is_err()));
        for option in [CountOption::Char, CountOption::Word, CountOption::Line] {
            assert!(count(input, option).is_err());
        }
    }
}

struct Dice(u64);

impl Dice {
    fn roll(&mut self, sides: usize) -> usize {
        self.0 = self.0.wrapping_mul(6364136223846793005).wrapping_add(1442695040888963407);
        ((self.0 >> 33) as usize) % sides
    }
}

fn by_reader_if_valid(input: &[u8], option: CountOption) -> Option<HashMap<String, usize>> {
    if Cursor::new(input).lines().any(|line| line.is_err()) {
        None
    } else {
        Some(by_reader(input, option))
    }
}

#[test]
fn count_agrees_with_a_line_reader_on_mixed_bytes() {
    let parts: [&[u8]; 16] = [
        b"a", b"b", b"B", b"_", b"7", b" ", b"\t", b"-", b"\n", b"\r", b"\r\n",
        "é".as_bytes(), "日".as_bytes(), "😀".as_bytes(), b"\xff", b"\xe3\x81",
    ];
    let mut dice = Dice(2024);
    for _ in 0..150 {
        let mut input = Vec::new();
        for _ in 0..dice.roll(24) {
            let part = if dice.roll(40) == 0 { 14 + dice.roll(2) } else { dice.roll(14) };
            input.extend_from_slice(parts[part]);
        }
        for option in [CountOption::Char, CountOption::Word, CountOption::Line] {
            let counted = count(&input, option)
                .ok()
                .map(|table| table.entries().into_iter().collect::<HashMap<String, usize>>());
            assert_eq!(counted, by_reader_if_valid(&input, option), "{:?} {:?}", input, option);
        }
    }
}
