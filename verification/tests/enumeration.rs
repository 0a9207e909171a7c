use regex::Regex;
use regex_strings::{Alphabet, RegexExt, Strings};

/// Every string handed out, until the enumeration ends.
fn all_of(mut strings: Strings) -> Vec<String> {
    let mut found = Vec::new();
    while let Some(word) = strings.next() {
        found.push(word);
    }
    found
}

/// The first `n` strings handed out, or fewer if the enumeration ends.
fn first(mut strings: Strings, n: usize) -> Vec<String> {
    let mut found = Vec::new();
    while found.len() < n {
        match strings.next() {
            Some(word) => found.push(word),
            None => break,
        }
    }
    found
}

fn strings_of(pattern: &str, alphabet: &str) -> Strings {
    Regex::new(pattern)
        .unwrap()
        .strings(Alphabet::from(alphabet))
}

fn take(pattern: &str, alphabet: &str, n: usize) -> Vec<String> {
    first(strings_of(pattern, alphabet), n)
}

/// Every word over the alphabet up to `max_len`, by length then lexicographically.
fn words_up_to(alphabet: &str, max_len: usize) -> Vec<String> {
    let mut chars: Vec<char> = alphabet.chars().collect();
    chars.sort_unstable();
    chars.dedup();
    let mut all = vec![String::new()];
    let mut level = vec![String::new()];
    for _ in 0..max_len {
        let next_level: Vec<String> = level
            .iter()
            .flat_map(|word| chars.iter().map(move |c| format!("{word}{c}")))
            .collect();
        all.extend(next_level.iter().cloned());
        level = next_level;
    }
    all
}

fn check_alphabet_is_canonical() {
    let alphabet = Alphabet::from("cbac");
    assert_eq!(alphabet.as_slice(), &['a', 'b', 'c']);

    let alphabet: Alphabet = Alphabet::from(vec!['z', 'x', 'z']);
    assert_eq!(alphabet.as_slice(), &['x', 'z']);
}

#[test]
fn alphabet_is_canonical() {
    check_alphabet_is_canonical();
}

#[test]
fn lib_alphabet_is_canonical() {
    check_alphabet_is_canonical();
}

fn check_anchored() {
    assert_eq!(take("^abc$", "abc", 9), ["abc"]);
    assert_eq!(take("^colou?r$", "colour", 9), ["color", "colour"]);
    assert_eq!(take("^a{2,4}$", "a", 9), ["aa", "aaa", "aaaa"]);
    assert_eq!(take("^[ab]*$", "ab", 4), ["", "a", "b", "aa"]);
    assert_eq!(take("^a.b$", "abc", 9), ["aab", "abb", "acb"]);
    assert_eq!(take("a+", "bc", 9), Vec::<String>::new());
}

#[test]
fn anchored() {
    check_anchored();
}

#[test]
fn lib_anchored() {
    check_anchored();
}

fn check_unanchored() {
    assert_eq!(take("b", "ab", 5), ["b", "ab", "ba", "bb", "aab"]);
    assert_eq!(take("^a", "ab", 5), ["a", "aa", "ab", "aaa", "aab"]);
}

#[test]
fn unanchored() {
    check_unanchored();
}

#[test]
fn lib_unanchored() {
    check_unanchored();
}

/// `(a|aa)*` derives most of its strings more than one way; enumerating the
/// automaton cannot emit duplicates.
fn check_no_duplicates() {
    assert_eq!(take("^(a|aa)*$", "a", 5), ["", "a", "aa", "aaa", "aaaa"]);
}

#[test]
fn no_duplicates() {
    check_no_duplicates();
}

#[test]
fn lib_no_duplicates() {
    check_no_duplicates();
}

/// Over a small alphabet, what comes out is exactly the strings the regex
/// itself matches, in order.
fn check_agrees_with_is_match() {
    const MAX_LEN: usize = 6;
    let cases = [
        ("^a(b|c)*d$", "abcd"),
        ("^(a|aa)*$", "ab"),
        ("^[01]*1$", "01"),
        ("^a.*b$", "abc"),
        ("^(ab|ba)+$", "ab"),
        ("^a{2,4}b?$", "ab"),
        ("^[^a]c$", "abc"),
        ("^(a*b*)*c$", "abc"),
        ("^$", "ab"),
        ("(?i)^[ab]+$", "abAB"),
        ("abc", "abc"),
        ("^ab", "ab"),
        ("ab$", "ab"),
        ("a|^b", "ab"),
        ("(^a|b$)+", "ab"),
        (r"\bab\b", "ab-"),
        (r"\Bb", "ab-"),
        (r"^a\b", "ab-"),
        ("(?m)^b$", "ab\n"),
        ("(?m)a$", "ab\n"),
        ("\x1c++*+++++++++*++++++a", "ab-\n"),
        ("a=?aG???.{48}", "ab-\n"),
    ];

    for (pattern, alphabet) in cases {
        let re = Regex::new(pattern).unwrap();
        let expected: Vec<String> = words_up_to(alphabet, MAX_LEN)
            .into_iter()
            .filter(|s| re.is_match(s))
            .collect();
        let found = all_of(re.strings(Alphabet::from(alphabet)).max_len(MAX_LEN));
        assert_eq!(found, expected, "mismatch for {pattern:?} over {alphabet:?}");
    }
}

#[test]
fn agrees_with_is_match() {
    check_agrees_with_is_match();
}

#[test]
fn lib_agrees_with_is_match() {
    check_agrees_with_is_match();
}

/// Matches nothing at all, yet the automaton always has somewhere left to
/// go, so only the barren-run bound ends the search.
fn check_unmatchable_pattern_terminates() {
    for pattern in [r"a\bb", r"a$b", r"a^b", r"\Ba\A", r"a\b\Bb"] {
        assert_eq!(take(pattern, "ab-", 1), Vec::<String>::new(), "{pattern}");
    }
}

#[test]
fn unmatchable_pattern_terminates() {
    check_unmatchable_pattern_terminates();
}

#[test]
fn lib_unmatchable_pattern_terminates() {
    check_unmatchable_pattern_terminates();
}

#[test]
fn states_reached_again_are_found_in_the_index() {
    // The fourth character from the end must be `a`: the determinized
    // automaton has sixteen states, each reached many times over.
    let pattern = "^[ab]*a[ab][ab][ab]$";
    let re = Regex::new(pattern).unwrap();
    let expected: Vec<String> = words_up_to("ab", 7).into_iter().filter(|w| re.is_match(w)).collect();
    assert_eq!(expected.len(), 8 + 16 + 32 + 64);
    assert_eq!(all_of(strings_of(pattern, "ab").max_len(7)), expected);
    assert_eq!(
        take(pattern, "ab", 10),
        vec!["aaaa", "aaab", "aaba", "aabb", "abaa", "abab", "abba", "abbb", "aaaaa", "aaaab"]
    );
}
