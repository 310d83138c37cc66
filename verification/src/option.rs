//! The unit that is counted.

use vstd::prelude::*;

verus! {

/// What [`count`](crate::count) takes as one unit of the text.
#[derive(Debug, Clone, Copy, PartialEq, Eq, Hash, Structural)]
pub enum CountOption {
    /// Every Unicode scalar value of a line is a unit.
    Char,
    /// Every word of a line is a unit.
    Word,
    /// Every line is a unit.
    Line,
}

impl Default for CountOption {
    /// Words are counted unless the caller asks for something else.
    fn default() -> (option: Self)
        ensures
            option == CountOption::Word,
    {
        CountOption::Word
    }
}

} // verus!
