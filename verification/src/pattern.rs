//! The syntax tree a regular expression is read into, and its look-arounds.

use vstd::prelude::*;

use regex_syntax::hir::{Class, Hir, HirKind};

verus! {

// Look-around codes, as `regex_syntax::hir::Look::as_repr` numbers them.
pub const LOOK_START: u32 = 1;
pub const LOOK_END: u32 = 2;
pub const LOOK_START_LF: u32 = 4;
pub const LOOK_END_LF: u32 = 8;
pub const LOOK_START_CRLF: u32 = 16;
pub const LOOK_END_CRLF: u32 = 32;
pub const LOOK_WORD_ASCII: u32 = 64;
pub const LOOK_WORD_ASCII_NEGATE: u32 = 128;
pub const LOOK_WORD_UNICODE: u32 = 256;
pub const LOOK_WORD_UNICODE_NEGATE: u32 = 512;
pub const LOOK_WORD_START_ASCII: u32 = 1024;
pub const LOOK_WORD_END_ASCII: u32 = 2048;
pub const LOOK_WORD_START_UNICODE: u32 = 4096;
pub const LOOK_WORD_END_UNICODE: u32 = 8192;
pub const LOOK_WORD_START_HALF_ASCII: u32 = 16384;
pub const LOOK_WORD_END_HALF_ASCII: u32 = 32768;
pub const LOOK_WORD_START_HALF_UNICODE: u32 = 65536;
pub const LOOK_WORD_END_HALF_UNICODE: u32 = 131072;

/// The syntax tree of a regular expression, as the enumeration reads it.
#[derive(Debug)]
pub enum Pattern {
    /// Matches the empty string.
    Empty,
    /// Matches exactly these UTF-8 bytes.
    Literal(Vec<u8>),
    /// Matches one character inside one of these inclusive ranges.
    Class(Vec<(char, char)>),
    /// A zero-width assertion, by its look-around code.
    Look(u32),
    /// `sub` repeated at least `min` and at most `max` times.
    Repetition { min: u32, max: Option<u32>, sub: Box<Pattern> },
    /// A group around `sub`.
    Capture(Box<Pattern>),
    /// The parts one after the other.
    Concat(Vec<Pattern>),
    /// Any one of the parts.
    Alternation(Vec<Pattern>),
}

/// Whether `regex_syntax` counts `c` as a Unicode word character.
pub uninterp spec fn unicode_word(c: char) -> bool;

/// What `regex_syntax::parse` makes of a pattern, once turned into a `Pattern`.
pub uninterp spec fn parsed_pattern(pattern: Seq<char>) -> Option<Pattern>;

/// `[_0-9a-zA-Z]`.
pub open spec fn ascii_word(c: char) -> bool {
    ||| c == '_'
    ||| ('0' <= c && c <= '9')
    ||| ('a' <= c && c <= 'z')
    ||| ('A' <= c && c <= 'Z')
}

pub open spec fn ascii_word_at(c: Option<char>) -> bool {
    c matches Some(x) && ascii_word(x)
}

pub open spec fn unicode_word_at(c: Option<char>) -> bool {
    c matches Some(x) && unicode_word(x)
}

/// Whether the look-around `look` holds between `prev` and `next`; `None`
/// stands for either end of the text.
pub open spec fn look_holds_spec(look: u32, prev: Option<char>, next: Option<char>) -> bool {
    if look == LOOK_START {
        prev is None
    } else if look == LOOK_END {
        next is None
    } else if look == LOOK_START_LF {
        prev is None || prev == Some('\n')
    } else if look == LOOK_END_LF {
        next is None || next == Some('\n')
    } else if look == LOOK_START_CRLF {
        prev is None || prev == Some('\n') || (prev == Some('\r') && next != Some('\n'))
    } else if look == LOOK_END_CRLF {
        next is None || next == Some('\r') || (next == Some('\n') && prev != Some('\r'))
    } else if look == LOOK_WORD_ASCII {
        ascii_word_at(prev) != ascii_word_at(next)
    } else if look == LOOK_WORD_ASCII_NEGATE {
        ascii_word_at(prev) == ascii_word_at(next)
    } else if look == LOOK_WORD_UNICODE {
        unicode_word_at(prev) != unicode_word_at(next)
    } else if look == LOOK_WORD_UNICODE_NEGATE {
        unicode_word_at(prev) == unicode_word_at(next)
    } else if look == LOOK_WORD_START_ASCII {
        !ascii_word_at(prev) && ascii_word_at(next)
    } else if look == LOOK_WORD_END_ASCII {
        ascii_word_at(prev) && !ascii_word_at(next)
    } else if look == LOOK_WORD_START_UNICODE {
        !unicode_word_at(prev) && unicode_word_at(next)
    } else if look == LOOK_WORD_END_UNICODE {
        unicode_word_at(prev) && !unicode_word_at(next)
    } else if look == LOOK_WORD_START_HALF_ASCII {
        !ascii_word_at(prev)
    } else if look == LOOK_WORD_END_HALF_ASCII {
        !ascii_word_at(next)
    } else if look == LOOK_WORD_START_HALF_UNICODE {
        !unicode_word_at(prev)
    } else if look == LOOK_WORD_END_HALF_UNICODE {
        !unicode_word_at(next)
    } else {
        false
    }
}

/// Some range of `ranges` holds `ch`.
pub open spec fn in_ranges(ranges: Seq<(char, char)>, ch: char) -> bool {
    exists|i: int| 0 <= i < ranges.len() && #[trigger] ranges[i].0 <= ch && ch <= ranges[i].1
}

/// `regex_syntax::is_word_character`: whether `c` is a Unicode word character.
#[verifier::external_body]
fn is_word_character(c: char) -> (word: bool)
    ensures
        word == unicode_word(c),
{
    regex_syntax::is_word_character(c)
}

fn ascii_word_opt(c: Option<char>) -> (word: bool)
    ensures
        word == ascii_word_at(c),
        word <==> (c matches Some(x) && (x == '_' || ('0' <= x && x <= '9') || ('a' <= x && x <= 'z') || ('A' <= x
            && x <= 'Z'))),
{
    match c {
        Some(x) => x == '_' || ('0' <= x && x <= '9') || ('a' <= x && x <= 'z') || ('A' <= x && x <= 'Z'),
        None => false,
    }
}

fn unicode_word_opt(c: Option<char>) -> (word: bool)
    ensures
        word == unicode_word_at(c),
        word <==> (c matches Some(x) && unicode_word(x)),
{
    match c {
        Some(x) => is_word_character(x),
        None => false,
    }
}

fn is_char(c: Option<char>, x: char) -> (same: bool)
    ensures
        same == (c == Some(x)),
{
    match c {
        Some(y) => y == x,
        None => false,
    }
}

/// Whether a look-around holds at a position with `prev` behind it and
/// `next` ahead of it.
pub fn look_holds(look: u32, prev: Option<char>, next: Option<char>) -> (holds: bool)
    ensures
        holds == look_holds_spec(look, prev, next),
{
    if look == LOOK_START {
        prev.is_none()
    } else if look == LOOK_END {
        next.is_none()
    } else if look == LOOK_START_LF {
        prev.is_none() || is_char(prev, '\n')
    } else if look == LOOK_END_LF {
        next.is_none() || is_char(next, '\n')
    } else if look == LOOK_START_CRLF {
        prev.is_none() || is_char(prev, '\n') || (is_char(prev, '\r') && !is_char(next, '\n'))
    } else if look == LOOK_END_CRLF {
        next.is_none() || is_char(next, '\r') || (is_char(next, '\n') && !is_char(prev, '\r'))
    } else if look == LOOK_WORD_ASCII {
        ascii_word_opt(prev) != ascii_word_opt(next)
    } else if look == LOOK_WORD_ASCII_NEGATE {
        ascii_word_opt(prev) == ascii_word_opt(next)
    } else if look == LOOK_WORD_UNICODE {
        unicode_word_opt(prev) != unicode_word_opt(next)
    } else if look == LOOK_WORD_UNICODE_NEGATE {
        unicode_word_opt(prev) == unicode_word_opt(next)
    } else if look == LOOK_WORD_START_ASCII {
        !ascii_word_opt(prev) && ascii_word_opt(next)
    } else if look == LOOK_WORD_END_ASCII {
        ascii_word_opt(prev) && !ascii_word_opt(next)
    } else if look == LOOK_WORD_START_UNICODE {
        !unicode_word_opt(prev) && unicode_word_opt(next)
    } else if look == LOOK_WORD_END_UNICODE {
        unicode_word_opt(prev) && !unicode_word_opt(next)
    } else if look == LOOK_WORD_START_HALF_ASCII {
        !ascii_word_opt(prev)
    } else if look == LOOK_WORD_END_HALF_ASCII {
        !ascii_word_opt(next)
    } else if look == LOOK_WORD_START_HALF_UNICODE {
        !unicode_word_opt(prev)
    } else if look == LOOK_WORD_END_HALF_UNICODE {
        !unicode_word_opt(next)
    } else {
        false
    }
}

/// Whether `ch` falls inside one of the inclusive `ranges`.
pub fn class_contains(ranges: &Vec<(char, char)>, ch: char) -> (inside: bool)
    ensures
        inside == in_ranges(ranges@, ch),
        inside <==> exists|k: int| 0 <= k < ranges@.len() && #[trigger] ranges@[k].0 <= ch && ch <= ranges@[k].1,
{
    let mut i: usize = 0;
    while i < ranges.len()
        invariant
            i <= ranges.len(),
            forall|k: int| 0 <= k < i ==> !(#[trigger] ranges@[k].0 <= ch && ch <= ranges@[k].1),
        decreases ranges.len() - i,
    {
        let (lo, hi) = ranges[i];
        if lo <= ch && ch <= hi {
            assert(ranges@[i as int].0 <= ch && ch <= ranges@[i as int].1);
            return true;
        }
        i = i + 1;
    }
    false
}

#[verifier::external_type_specification]
#[verifier::external_body]
pub struct ExHir(Hir);

#[verifier::external_type_specification]
#[verifier::external_body]
pub struct ExClass(Class);

/// `regex_syntax::hir::Class::ranges`, each range as a pair of characters;
/// a byte class gives its bytes as the characters of the same number.
#[verifier::external_body]
fn class_ranges(class: &Class) -> Vec<(char, char)> {
    match class {
        Class::Unicode(c) => c.ranges().iter().map(|r| (r.start(), r.end())).collect(),
        Class::Bytes(c) => c.ranges().iter().map(|r| (char::from(r.start()), char::from(r.end()))).collect(),
    }
}

/// `regex_syntax::hir::Hir::kind`, taken apart node by node into a `Pattern`.
#[verifier::external_body]
fn lower_hir(hir: &Hir) -> Pattern {
    match hir.kind() {
        HirKind::Empty => Pattern::Empty,
        HirKind::Literal(lit) => Pattern::Literal(lit.0.to_vec()),
        HirKind::Class(class) => Pattern::Class(class_ranges(class)),
        HirKind::Look(look) => Pattern::Look(look.as_repr()),
        HirKind::Repetition(r) => Pattern::Repetition { min: r.min, max: r.max, sub: Box::new(lower_hir(&r.sub)) },
        HirKind::Capture(c) => Pattern::Capture(Box::new(lower_hir(&c.sub))),
        HirKind::Concat(subs) => Pattern::Concat(subs.iter().map(lower_hir).collect()),
        HirKind::Alternation(subs) => Pattern::Alternation(subs.iter().map(lower_hir).collect()),
    }
}

/// `regex_syntax::parse`: the syntax tree of `pattern` with default options,
/// or `None` where the pattern is not a valid regular expression.
#[verifier::external_body]
pub fn parse_pattern(pattern: &str) -> (parsed: Option<Pattern>)
    ensures
        parsed == parsed_pattern(pattern@),
{
    match regex_syntax::parse(pattern) {
        Ok(hir) => Some(lower_hir(&hir)),
        Err(_) => None,
    }
}

} // verus!
