//! The three-valued selector for the unit of counting.

use vstd::prelude::*;

verus! {

/// Selects which unit [`count`](crate::counting::count) tallies.
#[derive(Debug, Clone, Copy, PartialEq, Eq, Hash, Structural)]
pub enum CountOption {
    /// Count each Unicode character (scalar value) of the input.
    Char,
    /// Count each word token: a maximal run of word characters.
    Word,
    /// Count each whole line, its terminator stripped.
    Line,
}

impl Default for CountOption {
    /// When no mode is chosen, words are counted.
    fn default() -> (r: Self)
        ensures
            r == CountOption::Word,
    {
        CountOption::Word
    }
}

} // verus!
