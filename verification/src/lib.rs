//! Frequency tables over line-oriented text.
//!
//! The library counts how often each unit occurs in an input, where a unit is
//! a single character, a word token, or a whole line, as selected by
//! [`CountOption`]. The one entry point is [`count`], which takes the raw
//! bytes of the input and fails on text that is not valid UTF-8.

pub mod counting;
pub mod decode;
pub mod lines;
pub mod options;
pub mod table;
pub mod tokens;

pub use counting::count;
pub use decode::DecodingError;
pub use options::CountOption;
pub use table::FrequencyTable;
