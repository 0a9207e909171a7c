//! Enumeration for `regex::Regex`.

use vstd::prelude::*;

use regex::Regex;

use crate::alphabet::Alphabet;
use crate::pattern::{Pattern, parse_pattern, parsed_pattern};
use crate::strings::Strings;

verus! {

#[verifier::external_type_specification]
#[verifier::external_body]
pub struct ExRegex(Regex);

/// The text a regex was compiled from.
pub uninterp spec fn regex_source(regex: Regex) -> Seq<char>;

/// `regex::Regex::as_str`: the text the regex was compiled from, which is
/// the same every time it is asked of the same regex.
#[verifier::external_body]
fn regex_text(regex: &Regex) -> (text: &str)
    ensures
        text@ == regex_source(*regex),
{
    regex.as_str()
}

/// Enumeration of the strings that a regular expression matches.
pub trait RegexExt {
    /// The syntax tree of the regular expression's own text, where that
    /// text parses.
    spec fn source_pattern(&self) -> Option<Pattern>;

    /// The strings over `alphabet` that this regex matches somewhere, shortest
    /// first and in alphabet order within each length. The regex's own text
    /// must parse with the default syntax options, as it does for every
    /// regex that `Regex::new` built.
    fn strings(&self, alphabet: Alphabet) -> (strings: Strings)
        requires
            self.source_pattern() is Some,
        ensures
            strings.fresh(alphabet@),
            strings.language_is(self.source_pattern().unwrap()),
    ;
}

impl RegexExt for Regex {
    open spec fn source_pattern(&self) -> Option<Pattern> {
        parsed_pattern(regex_source(*self))
    }

    fn strings(&self, alphabet: Alphabet) -> (strings: Strings) {
        let text = regex_text(self);
        match parse_pattern(text) {
            Some(tree) => Strings::new(&tree, alphabet),
            None => unreached(),
        }
    }
}

} // verus!
