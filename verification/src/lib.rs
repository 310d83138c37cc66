//! Counts how often each character, word or line occurs in a UTF-8 text.
//!
//! [`count`] takes the bytes of a text and a [`CountOption`]. It splits the
//! text into lines, takes from each line the units that the option selects,
//! and returns a [`FrequencyTable`], whose view is the multiset of those
//! units. A text that is not valid UTF-8 is not counted:
//! [`CountError::InvalidEncoding`] is returned instead.
//!
//! The modules, from the bottom up:
//! - [`text`]: pieces of UTF-8 text between character boundaries;
//! - [`lines`]: the lines of a byte text;
//! - [`matcher`]: the words of a line, found by the `regex` crate;
//! - [`table`]: the table of counts;
//! - [`units`]: what the units of a text are under each option;
//! - [`counter`]: the counting itself.

pub mod counter;
pub mod lines;
pub mod matcher;
pub mod option;
pub mod table;
pub mod text;
pub mod units;

pub use counter::{count, count_chars, count_words, CountError};
pub use matcher::WordMatcher;
pub use option::CountOption;
pub use table::FrequencyTable;
