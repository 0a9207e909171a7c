//! Generating a bounded list of matches as text, for the browser demo.

use vstd::prelude::*;

use regex::Regex;

use crate::alphabet::{Alphabet, strictly_increasing};
use crate::order::{lemma_shortlex_total, shortlex_lt};
use crate::layers::spelled_from;
use crate::matching::matches_somewhere;
use crate::pattern::parsed_pattern;
use crate::regex_ext::{RegexExt, regex_source};
use crate::strings::Strings;
use vstd::utf8::{encode_scalar, encode_utf8};

verus! {

#[verifier::external_type_specification]
#[verifier::external_body]
pub struct ExRegexError(regex::Error);

/// The most bytes of output a generation produces.
pub const MAX_OUTPUT_BYTES: usize = 1_000_000;

/// The most strings a generation produces.
pub const MAX_OUTPUT_WORDS: u32 = 100_000;

/// `regex::Regex::new`. It parses `pattern` with the same default syntax
/// options that `regex_syntax::parse` uses, and fails where that parse fails,
/// before it compiles; so a pattern that compiles also parses. Whether a
/// pattern that parses also compiles is not stated: the compiled program has
/// a size limit, and its size depends on the machine's word size.
#[verifier::external_body]
fn compile_regex(pattern: &str) -> (compiled: Result<Regex, regex::Error>)
    ensures
        compiled is Ok ==> parsed_pattern(pattern@) is Some,
        compiled matches Ok(r) ==> regex_source(r) == pattern@,
{
    Regex::new(pattern)
}

/// The message of a `regex::Error`, as its `Display` writes it. Nothing is
/// stated of its text.
#[verifier::external_body]
fn error_text(error: &regex::Error) -> String {
    error.to_string()
}

/// How many bytes UTF-8 takes for `c`.
pub open spec fn char_bytes(c: char) -> nat {
    if (c as u32) < 0x80 {
        1
    } else if (c as u32) < 0x800 {
        2
    } else if (c as u32) < 0x10000 {
        3
    } else {
        4
    }
}

/// How many bytes UTF-8 takes for `s`.
pub open spec fn utf8_len(s: Seq<char>) -> nat
    decreases s.len(),
{
    if s.len() == 0 {
        0
    } else {
        utf8_len(s.drop_last()) + char_bytes(s.last())
    }
}

proof fn lemma_utf8_len_concat(a: Seq<char>, b: Seq<char>)
    ensures
        utf8_len(a + b) == utf8_len(a) + utf8_len(b),
    decreases b.len(),
{
    if b.len() > 0 {
        assert((a + b).drop_last() =~= a + b.drop_last());
        assert((a + b).last() == b.last());
        lemma_utf8_len_concat(a, b.drop_last());
    }
}

/// The UTF-8 encoding of `a + b` is as long as those of `a` and `b` together.
proof fn lemma_encode_concat_len(a: Seq<char>, b: Seq<char>)
    ensures
        encode_utf8(a + b).len() == encode_utf8(a).len() + encode_utf8(b).len(),
    decreases a.len(),
{
    if a.len() == 0 {
        assert(a + b =~= b);
    } else {
        assert((a + b).drop_first() =~= a.drop_first() + b);
        assert((a + b)[0] == a[0]);
        lemma_encode_concat_len(a.drop_first(), b);
    }
}

/// The byte count used for the output bounds is the length of the real UTF-8
/// encoding, the bytes a `String` stores for `s`: one byte below U+0080, two
/// below U+0800, three below U+10000 and four above.
pub proof fn law_utf8_len_is_encoded_length(s: Seq<char>)
    ensures
        utf8_len(s) == encode_utf8(s).len(),
    decreases s.len(),
{
    if s.len() == 0 {
        assert(encode_utf8(s) =~= Seq::<u8>::empty());
    } else {
        let c = s.last();
        law_utf8_len_is_encoded_length(s.drop_last());
        assert(s =~= s.drop_last() + seq![c]);
        lemma_encode_concat_len(s.drop_last(), seq![c]);
        assert(seq![c].drop_first() =~= Seq::<char>::empty());
        assert(encode_utf8(Seq::<char>::empty()) =~= Seq::<u8>::empty());
        assert(encode_utf8(seq![c]) =~= encode_scalar(c as u32) + Seq::<u8>::empty());
        vstd::utf8::char_is_scalar(c);
        assert(encode_scalar(c as u32).len() == char_bytes(c));
    }
}

/// What a generation produces stays within its bounds, counted in the bytes
/// of the text's UTF-8 encoding and in strings.
pub proof fn law_generation_within_bounds(
    pattern: Seq<char>,
    alphabet: Seq<char>,
    max_len: Option<usize>,
    word_limit: Option<usize>,
    g: Generation,
)
    requires
        produced(pattern, alphabet, max_len, word_limit, g),
    ensures
        encode_utf8(g.text@).len() <= MAX_OUTPUT_BYTES,
        g.count <= MAX_OUTPUT_WORDS,
        word_limit matches Some(l) ==> g.count <= l,
{
    let (from, words) = choose|from: Strings, words: Seq<Seq<char>>|
        enumerates_over(from, pattern, alphabet, max_len) && generated(from, words, g, word_limit);
    law_utf8_len_is_encoded_length(lines(words));
}

/// The strings one per line, each followed by a line break.
pub open spec fn lines(words: Seq<Seq<char>>) -> Seq<char>
    decreases words.len(),
{
    if words.len() == 0 {
        Seq::empty()
    } else {
        lines(words.drop_last()) + words.last() + seq!['\n']
    }
}

/// `w` is still to come from the enumeration `from`.
#[verifier::opaque]
pub open spec fn offers(from: Strings, w: Seq<char>) -> bool {
    from.candidate(w)
}

/// `a` comes before `b`: shorter first, then in dictionary order.
#[verifier::opaque]
pub open spec fn precedes(a: Seq<char>, b: Seq<char>) -> bool {
    shortlex_lt(a, b)
}

proof fn lemma_precedes_total(a: Seq<char>, b: Seq<char>)
    requires
        a != b,
    ensures
        precedes(a, b) || precedes(b, a),
{
    reveal(precedes);
    lemma_shortlex_total(a, b);
}

/// `words` are the first strings of the enumeration `from`, in order.
#[verifier::opaque]
pub open spec fn first_of(from: Strings, words: Seq<Seq<char>>) -> bool {
    &&& forall|i: int| 0 <= i < words.len() ==> offers(from, #[trigger] words[i])
    &&& forall|i: int, j: int| 0 <= i < j < words.len() ==> precedes(#[trigger] words[i], #[trigger] words[j])
    &&& forall|w: Seq<char>, i: int|
        0 <= i < words.len() && offers(from, w) && #[trigger] precedes(w, words[i]) ==> words.contains(w)
}

/// `w` is the string of the enumeration `from` that comes right after
/// `words`.
#[verifier::opaque]
pub open spec fn next_after(from: Strings, words: Seq<Seq<char>>, w: Seq<char>) -> bool {
    &&& offers(from, w)
    &&& forall|i: int| 0 <= i < words.len() ==> precedes(#[trigger] words[i], w)
    &&& forall|v: Seq<char>|
        offers(from, v) && (forall|i: int| 0 <= i < words.len() ==> precedes(#[trigger] words[i], v))
            ==> !#[trigger] precedes(v, w)
}

/// The output of a generation that handed out `words` from the enumeration
/// `from`, stopping after at most `word_limit` strings and before the output
/// outgrows its bounds.
pub open spec fn generated(from: Strings, words: Seq<Seq<char>>, g: Generation, word_limit: Option<usize>) -> bool {
    let limit_hit = word_limit matches Some(l) && words.len() == l;
    &&& first_of(from, words)
    &&& g.text@ == lines(words)
    &&& g.count == words.len()
    &&& word_limit matches Some(l) ==> words.len() <= l
    &&& words.len() <= MAX_OUTPUT_WORDS
    &&& utf8_len(lines(words)) <= MAX_OUTPUT_BYTES
    &&& if exists|w: Seq<char>| next_after(from, words, w) {
        let w = choose|w: Seq<char>| next_after(from, words, w);
        &&& g.truncated == !limit_hit
        &&& g.truncated ==> (words.len() == MAX_OUTPUT_WORDS || utf8_len(lines(words.push(w))) > MAX_OUTPUT_BYTES)
    } else {
        !g.truncated
    }
}

/// `from` is the enumeration of the matches of the regular expression
/// `pattern` over the characters of `alphabet`, limited to `max_len`, with
/// nothing handed out yet.
pub open spec fn enumerates_over(from: Strings, pattern: Seq<char>, alphabet: Seq<char>, max_len: Option<usize>) -> bool {
    &&& from.wf()
    &&& parsed_pattern(pattern) is Some
    &&& from.language_is(parsed_pattern(pattern).unwrap())
    &&& strictly_increasing(from.alphabet())
    &&& forall|c: char| #[trigger] from.alphabet().contains(c) <==> alphabet.contains(c)
    &&& from.limit() == max_len
    &&& from.last() is None
    &&& from.pass_len() is None
    &&& forall|w: Seq<char>| #[trigger] from.unseen(w)
}

/// `now` offers exactly the strings of the enumeration `from` after `words`.
#[verifier::opaque]
pub open spec fn tracks(from: Strings, now: Strings, words: Seq<Seq<char>>) -> bool {
    forall|w: Seq<char>| #[trigger] offers(now, w) == (offers(from, w) && forall|i: int|
        0 <= i < words.len() ==> precedes(#[trigger] words[i], w))
}

/// At most one string comes right after `words`.
proof fn lemma_next_unique(from: Strings, words: Seq<Seq<char>>, a: Seq<char>, b: Seq<char>)
    requires
        next_after(from, words, a),
        next_after(from, words, b),
    ensures
        a == b,
{
    reveal(next_after);
    if a != b {
        lemma_precedes_total(a, b);
    }
}

/// The least string `before` offers, where `before` offers exactly what
/// comes after `words`, is the one right after `words`.
proof fn lemma_step_next(from: Strings, before: Strings, words: Seq<Seq<char>>, word: Seq<char>)
    requires
        tracks(from, before, words),
        offers(before, word),
        forall|w: Seq<char>| offers(before, w) ==> !#[trigger] precedes(w, word),
    ensures
        next_after(from, words, word),
        forall|w: Seq<char>| #[trigger] next_after(from, words, w) ==> w == word,
{
    reveal(next_after);
    reveal(tracks);
    assert forall|v: Seq<char>| offers(from, v) && (forall|i: int| 0 <= i < words.len() ==> precedes(#[trigger] words[i], v))
        implies !#[trigger] precedes(v, word) by {
        assert(offers(before, v));
    }
    assert(next_after(from, words, word));
    assert forall|w: Seq<char>| #[trigger] next_after(from, words, w) implies w == word by {
        lemma_next_unique(from, words, w, word);
    }
}

/// Appending the string right after `words` keeps them the first strings of
/// the enumeration.
proof fn lemma_step_first(from: Strings, words: Seq<Seq<char>>, word: Seq<char>)
    requires
        first_of(from, words),
        next_after(from, words, word),
    ensures
        first_of(from, words.push(word)),
{
    reveal(first_of);
    reveal(next_after);
    let longer = words.push(word);
    assert forall|i: int, j: int| 0 <= i < j < longer.len() implies precedes(#[trigger] longer[i], #[trigger] longer[j]) by {
        if j == words.len() {
            assert(longer[i] == words[i]);
        } else {
            assert(longer[i] == words[i] && longer[j] == words[j]);
        }
    }
    assert forall|w: Seq<char>, i: int|
        0 <= i < longer.len() && offers(from, w) && #[trigger] precedes(w, longer[i]) implies longer.contains(w) by {
        if i < words.len() {
            assert(longer[i] == words[i]);
            let k = choose|k: int| 0 <= k < words.len() && words[k] == w;
            assert(longer[k] == w);
        } else if w == word {
            assert(longer[words.len() as int] == w);
        } else if exists|k: int| 0 <= k < words.len() && !precedes(#[trigger] words[k], w) {
            let k = choose|k: int| 0 <= k < words.len() && !precedes(#[trigger] words[k], w);
            if words[k] == w {
                assert(longer[k] == w);
            } else {
                lemma_precedes_total(words[k], w);
                assert(precedes(w, words[k]));
                assert(words.contains(w));
                let k2 = choose|k2: int| 0 <= k2 < words.len() && words[k2] == w;
                assert(longer[k2] == w);
            }
        } else {
            assert(longer[i] == word);
            assert(forall|k: int| 0 <= k < words.len() ==> precedes(#[trigger] words[k], w));
            assert(!precedes(w, word));
        }
    }
    assert forall|i: int| 0 <= i < longer.len() implies offers(from, #[trigger] longer[i]) by {
        if i < words.len() {
            assert(longer[i] == words[i]);
        }
    }
}

/// After handing out `word`, what is offered is what comes after `words` and
/// `word`.
proof fn lemma_step_tracks(from: Strings, before: Strings, after: Strings, words: Seq<Seq<char>>, word: Seq<char>)
    requires
        tracks(from, before, words),
        forall|w: Seq<char>| #[trigger] offers(after, w) == (offers(before, w) && precedes(word, w)),
    ensures
        tracks(from, after, words.push(word)),
{
    reveal(tracks);
    let longer = words.push(word);
    assert forall|w: Seq<char>| #[trigger] offers(after, w) == (offers(from, w) && forall|i: int|
        0 <= i < longer.len() ==> precedes(#[trigger] longer[i], w)) by {
        assert(offers(before, w) == (offers(from, w) && forall|i: int| 0 <= i < words.len() ==> precedes(#[trigger] words[i], w)));
        if offers(after, w) {
            assert forall|i: int| 0 <= i < longer.len() implies precedes(#[trigger] longer[i], w) by {
                if i < words.len() {
                    assert(longer[i] == words[i]);
                }
            }
        }
        if offers(from, w) && forall|i: int| 0 <= i < longer.len() ==> precedes(#[trigger] longer[i], w) {
            assert forall|i: int| 0 <= i < words.len() implies precedes(#[trigger] words[i], w) by {
                assert(longer[i] == words[i]);
            }
            assert(precedes(longer[words.len() as int], w));
        }
    }
}

/// A call of `next` that hands out nothing leaves nothing after `words`.
proof fn lemma_step_none(from: Strings, before: Strings, words: Seq<Seq<char>>)
    requires
        tracks(from, before, words),
        forall|w: Seq<char>| !#[trigger] offers(before, w),
    ensures
        forall|w: Seq<char>| !#[trigger] next_after(from, words, w),
{
    reveal(next_after);
    reveal(tracks);
    assert forall|w: Seq<char>| !#[trigger] next_after(from, words, w) by {
        if next_after(from, words, w) {
            assert(offers(before, w));
        }
    }
}

/// Before anything is handed out, what is offered is all of it.
proof fn lemma_start(from: Strings)
    ensures
        first_of(from, Seq::empty()),
        tracks(from, from, Seq::empty()),
{
    reveal(first_of);
    reveal(tracks);
}

/// `g` is what a generation of the matches of `pattern` over the
/// characters of `alphabet`, limited to `max_len` and to `word_limit`
/// strings, produces.
pub open spec fn produced(pattern: Seq<char>, alphabet: Seq<char>, max_len: Option<usize>, word_limit: Option<usize>, g: Generation) -> bool {
    exists|from: Strings, words: Seq<Seq<char>>| enumerates_over(from, pattern, alphabet, max_len) && generated(from, words, g, word_limit)
}

/// What one generation produced.
#[derive(Debug)]
pub struct Generation {
    /// The strings, one per line, each followed by a line break.
    pub text: String,
    /// How many strings there are.
    pub count: u32,
    /// Whether the output stopped because it reached its bounds.
    pub truncated: bool,
}

/// How many bytes UTF-8 takes for `text`, or `usize::MAX` if more.
fn utf8_bytes(text: &str) -> (n: usize)
    ensures
        n == if utf8_len(text@) < usize::MAX {
            utf8_len(text@)
        } else {
            usize::MAX as nat
        },
{
    let len = text.unicode_len();
    let mut total: usize = 0;
    let mut i: usize = 0;
    while i < len
        invariant
            len == text@.len(),
            i <= len,
            total == if utf8_len(text@.take(i as int)) < usize::MAX {
                utf8_len(text@.take(i as int))
            } else {
                usize::MAX as nat
            },
        decreases len - i,
    {
        let c = text.get_char(i);
        let code = c as u32;
        let width: usize = if code < 0x80 {
            1
        } else if code < 0x800 {
            2
        } else if code < 0x10000 {
            3
        } else {
            4
        };
        proof {
            let t = text@.take(i + 1);
            assert(t.drop_last() =~= text@.take(i as int));
            assert(t.last() == c);
        }
        total = total.saturating_add(width);
        i = i + 1;
    }
    assert(text@.take(len as int) =~= text@);
    total
}

/// The next string of the enumeration, described by what is offered.
fn pull(strings: &mut Strings) -> (item: Option<String>)
    requires
        old(strings).wf(),
    ensures
        final(strings).wf(),
        match item {
            Some(w) => {
                &&& offers(*old(strings), w@)
                &&& forall|v: Seq<char>| offers(*old(strings), v) ==> !#[trigger] precedes(v, w@)
                &&& forall|v: Seq<char>| #[trigger] offers(*final(strings), v) == (offers(*old(strings), v) && precedes(w@, v))
            },
            None => forall|v: Seq<char>| !#[trigger] offers(*old(strings), v),
        },
{
    let item = strings.next();
    proof {
        reveal(offers);
        reveal(precedes);
    }
    item
}

/// Generates the matches of `pattern` over the characters of `alphabet`,
/// one per line, for the browser demo: at most `word_limit` of them, none
/// longer than `max_len`, and no more than fit in the output bounds.
pub fn generate_matches(pattern: &str, alphabet: &str, max_len: Option<usize>, word_limit: Option<usize>) -> (result:
    Result<Generation, String>)
    ensures
        alphabet@.len() == 0 ==> (result matches Err(m) && m@ == "Alphabet must contain at least one character."@),
        alphabet@.len() > 0 && parsed_pattern(pattern@) is None ==> (result matches Err(m) && m@.len() >= 28 && m@.take(28)
            == "Invalid regular expression: "@),
        alphabet@.len() > 0 ==> (result matches Err(m) && m@.len() >= 28 && m@.take(28) == "Invalid regular expression: "@) || (
        result matches Ok(g) && produced(pattern@, alphabet@, max_len, word_limit, g)),
        result matches Ok(g) ==> encode_utf8(g.text@).len() <= MAX_OUTPUT_BYTES,
{
    if alphabet.is_empty() {
        let message = String::from_str("Alphabet must contain at least one character.");
        proof {
            reveal_strlit("Alphabet must contain at least one character.");
        }
        return Err(message);
    }
    let compiled = compile_regex(pattern);
    let result = finish_generation(compiled, pattern, alphabet, max_len, word_limit);
    proof {
        if result is Ok {
            law_generation_within_bounds(pattern@, alphabet@, max_len, word_limit, result->Ok_0);
        }
    }
    result
}

/// The rest of a generation once `pattern` has been compiled: the regex's
/// error where it did not compile, and otherwise the matches of the regex
/// over the characters of `alphabet`, one per line, at most `word_limit` of
/// them, none longer than `max_len`, and no more than fit in the output
/// bounds.
pub fn finish_generation(
    compiled: Result<Regex, regex::Error>,
    pattern: &str,
    alphabet: &str,
    max_len: Option<usize>,
    word_limit: Option<usize>,
) -> (result: Result<Generation, String>)
    requires
        alphabet@.len() > 0,
        compiled matches Ok(r) ==> regex_source(r) == pattern@ && parsed_pattern(pattern@) is Some,
    ensures
        compiled is Ok ==> (result matches Ok(g) && produced(pattern@, alphabet@, max_len, word_limit, g)),
        compiled is Err ==> (result matches Err(m) && m@.len() >= 28 && m@.take(28) == "Invalid regular expression: "@),
{
    let regex = match compiled {
        Ok(regex) => regex,
        Err(error) => {
            let mut message = String::from_str("Invalid regular expression: ");
            let text = error_text(&error);
            message.append(text.as_str());
            proof {
                reveal_strlit("Invalid regular expression: ");
                assert(message@.take(28) =~= "Invalid regular expression: "@);
            }
            return Err(message);
        },
    };
    let chars = Alphabet::from(alphabet);
    let mut strings = regex.strings(chars);
    let ghost parsed = strings;
    if let Some(m) = max_len {
        strings = strings.max_len(m);
    }
    let ghost from = strings;
    proof {
        assert forall|w: Seq<char>| #[trigger] from.unseen(w) by {
            assert(parsed.unseen(w));
        }
        assert forall|w: Seq<char>|
            #[trigger] from.accepts(w) <==> spelled_from(w, from.alphabet()) && matches_somewhere(
                parsed_pattern(pattern@).unwrap(),
                from.alphabet(),
                w,
            ) by {
            assert(parsed.accepts(w) <==> spelled_from(w, parsed.alphabet()) && matches_somewhere(
                parsed_pattern(pattern@).unwrap(),
                parsed.alphabet(),
                w,
            ));
        }
        lemma_start(from);
    }
    let ghost mut words: Seq<Seq<char>> = Seq::empty();
    let mut output = String::from_str("");
    let mut bytes: usize = 0;
    let mut count: u32 = 0;
    proof {
        reveal_strlit("");
        assert(output@ =~= lines(words));
    }
    loop
        invariant
            alphabet@.len() > 0,
            parsed_pattern(pattern@) is Some,
            compiled is Ok,
            enumerates_over(from, pattern@, alphabet@, max_len),
            strings.wf(),
            first_of(from, words),
            tracks(from, strings, words),
            output@ == lines(words),
            bytes == utf8_len(lines(words)),
            bytes <= MAX_OUTPUT_BYTES,
            count == words.len(),
            count <= MAX_OUTPUT_WORDS,
            word_limit matches Some(l) ==> count <= l,
        decreases MAX_OUTPUT_WORDS - count,
    {
        let ghost before = strings;
        let item = pull(&mut strings);
        let word = match item {
            Some(word) => word,
            None => {
                let g = Generation { text: output, count, truncated: false };
                proof {
                    lemma_step_none(from, before, words);
                    assert(generated(from, words, g, word_limit));
                }
                return Ok(g);
            },
        };
        let ghost longer = words.push(word@);
        proof {
            lemma_step_next(from, before, words, word@);
            lemma_step_first(from, words, word@);
            lemma_step_tracks(from, before, strings, words, word@);
        }
        if let Some(limit) = word_limit {
            if count as usize >= limit {
                let g = Generation { text: output, count, truncated: false };
                proof {
                    assert(generated(from, words, g, word_limit));
                }
                return Ok(g);
            }
        }
        let required = bytes.saturating_add(utf8_bytes(word.as_str())).saturating_add(1);
        proof {
            lemma_utf8_len_concat(lines(words), word@);
            lemma_utf8_len_concat(lines(words) + word@, seq!['\n']);
            assert(utf8_len(Seq::<char>::empty()) == 0);
            assert(seq!['\n'].drop_last() =~= Seq::<char>::empty());
            assert(utf8_len(seq!['\n']) == 1);
            assert(seq!['\n'].drop_last() =~= Seq::<char>::empty());
            assert(longer.drop_last() =~= words);
            assert(lines(longer) == lines(words) + word@ + seq!['\n']);
        }
        if count >= MAX_OUTPUT_WORDS || required > MAX_OUTPUT_BYTES {
            let g = Generation { text: output, count, truncated: true };
            proof {
                assert(generated(from, words, g, word_limit));
            }
            return Ok(g);
        }
        output.append(word.as_str());
        output.append("\n");
        proof {
            reveal_strlit("\n");
            assert("\n"@ =~= seq!['\n']);
            assert(output@ =~= lines(longer));
            words = longer;
        }
        bytes = required;
        count = count + 1;
    }
}

} // verus!
