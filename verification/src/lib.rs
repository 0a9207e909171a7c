//! Lazily enumerate the strings that a regular expression matches over a
//! finite alphabet, shortest first and lexicographically within each length.

pub mod alphabet;
pub mod pattern;
pub mod nfa;
pub mod dfa;
pub mod generate;
pub mod lang;
pub mod laws;
pub mod layers;
pub mod matching;
pub mod compile;
pub mod runs;
pub mod sound;
pub mod order;
pub mod regex_ext;
pub mod strings;
mod util;

pub use alphabet::Alphabet;
pub use pattern::{parse_pattern, Pattern};
pub use regex_ext::RegexExt;
pub use strings::{Outlook, Strings};
