use regex::Regex;
use regex_strings::generate::generate_matches;
use regex_strings::{parse_pattern, Alphabet, Pattern, RegexExt, Strings};

fn strings_of(pattern: &str, alphabet: &str) -> Strings {
    Regex::new(pattern)
        .unwrap()
        .strings(Alphabet::from(alphabet))
}

fn first(mut strings: Strings, n: usize) -> Vec<String> {
    let mut found = Vec::new();
    while found.len() < n {
        match strings.next() {
            Some(word) => found.push(word),
            None => break,
        }
    }
    found
}

fn all_of(mut strings: Strings) -> Vec<String> {
    let mut found = Vec::new();
    while let Some(word) = strings.next() {
        found.push(word);
    }
    found
}

fn shortlex_before(a: &str, b: &str) -> bool {
    let (a, b): (Vec<char>, Vec<char>) = (a.chars().collect(), b.chars().collect());
    a.len() < b.len() || (a.len() == b.len() && a < b)
}

fn words_up_to(alphabet: &str, max_len: usize) -> Vec<String> {
    let mut chars: Vec<char> = alphabet.chars().collect();
    chars.sort_unstable();
    chars.dedup();
    let mut all = vec![String::new()];
    let mut level = vec![String::new()];
    for _ in 0..max_len {
        let next_level: Vec<String> = level
            .iter()
            .flat_map(|word| chars.iter().map(move |c| format!("{word}{c}")))
            .collect();
        all.extend(next_level.iter().cloned());
        level = next_level;
    }
    all
}

#[test]
fn strings_come_in_strictly_increasing_order() {
    let found = first(strings_of("b", "abc"), 60);
    assert_eq!(found.len(), 60);
    for pair in found.windows(2) {
        assert!(shortlex_before(&pair[0], &pair[1]), "{:?} then {:?}", pair[0], pair[1]);
    }
}

#[test]
fn nothing_is_handed_out_twice() {
    let found = first(strings_of("^(a|aa|aaa)*b?$", "ab"), 40);
    let mut sorted = found.clone();
    sorted.dedup();
    assert_eq!(sorted, found);
}

#[test]
fn max_len_bounds_every_string() {
    let found = all_of(strings_of("a", "ab").max_len(3));
    assert!(found.iter().all(|w| w.chars().count() <= 3));
    let re = Regex::new("a").unwrap();
    let expected: Vec<String> = words_up_to("ab", 3).into_iter().filter(|w| re.is_match(w)).collect();
    assert_eq!(found, expected);
}

#[test]
fn max_len_zero_keeps_only_the_empty_string() {
    assert_eq!(all_of(strings_of("^a*$", "a").max_len(0)), [""]);
    assert_eq!(all_of(strings_of("a", "a").max_len(0)), Vec::<String>::new());
}

#[test]
fn exhausted_stays_exhausted() {
    let mut strings = strings_of("^ab$", "ab");
    assert_eq!(strings.next(), Some("ab".to_string()));
    assert_eq!(strings.next(), None);
    assert_eq!(strings.next(), None);
}

#[test]
fn strings_are_spelled_from_the_alphabet() {
    let found = first(strings_of("x|b", "ba"), 30);
    assert!(!found.is_empty());
    assert!(found.iter().all(|w| w.chars().all(|c| c == 'a' || c == 'b')));
}

#[test]
fn an_empty_alphabet_gives_at_most_the_empty_string() {
    assert_eq!(all_of(strings_of("^$", "")), [""]);
    assert_eq!(all_of(strings_of("a", "")), Vec::<String>::new());
}

#[test]
fn alphabet_conversions_agree() {
    let from_str = Alphabet::from("dcbad");
    assert_eq!(from_str.as_slice(), &['a', 'b', 'c', 'd']);
    assert_eq!(Alphabet::from(String::from("dcbad")), from_str);
    assert_eq!(Alphabet::from(&String::from("dcbad")), from_str);
    assert_eq!(Alphabet::new(vec!['d', 'c', 'b', 'a', 'a']), from_str);
    assert_eq!(from_str.clone(), from_str);
    assert_eq!(Alphabet::from("").as_slice(), &[] as &[char]);
}

#[test]
fn unparseable_patterns_give_no_enumeration() {
    assert!(parse_pattern("(").is_none());
    assert!(parse_pattern("[a-").is_none());
    assert!(parse_pattern("a(b)c").is_some());
    assert!(Strings::parse("(", Alphabet::from("ab")).is_none());
    assert!(Strings::parse("a", Alphabet::from("ab")).is_some());
}

#[test]
fn a_pattern_tree_is_searched_anywhere() {
    let pattern = Pattern::Literal(b"ab".to_vec());
    let strings = Strings::new(&pattern, Alphabet::from("ab"));
    assert_eq!(first(strings, 5), ["ab", "aab", "aba", "abb", "bab"]);
}

#[test]
fn multibyte_literals_and_classes() {
    assert_eq!(all_of(strings_of("^日本$", "本日")), ["日本"]);
    assert_eq!(first(strings_of("^[é日]+$", "é日a"), 4), ["é", "日", "éé", "é日"]);
}

#[test]
fn unicode_boundaries_agree_with_is_match() {
    for (pattern, alphabet) in [
        (r"\bé\b", "éa-"),
        (r"(?-u:\b)a", "a-é"),
        (r"\Bé", "é-a"),
        (r"\b{start}a", "a-é"),
        (r"a\b{end}", "a-é"),
        (r"(?m)^é$", "é\na"),
        (r"(?R)^a$", "a\r\n"),
    ] {
        let re = Regex::new(pattern).unwrap();
        let expected: Vec<String> = words_up_to(alphabet, 4).into_iter().filter(|w| re.is_match(w)).collect();
        let found = all_of(re.strings(Alphabet::from(alphabet)).max_len(4));
        assert_eq!(found, expected, "mismatch for {pattern:?} over {alphabet:?}");
    }
}

#[test]
fn generation_lists_the_strings_one_per_line() {
    let result = generate_matches("a", "ab", Some(2), None).unwrap();
    assert_eq!(result.text, "a\naa\nab\nba\n");
    assert_eq!(result.count, 4);
    assert!(!result.truncated);
}

#[test]
fn generation_with_a_zero_word_limit_is_empty() {
    let result = generate_matches("a", "ab", None, Some(0)).unwrap();
    assert_eq!(result.text, "");
    assert_eq!(result.count, 0);
    assert!(!result.truncated);
}

#[test]
fn generation_of_nothing_is_empty() {
    let result = generate_matches("^a$", "b", None, None).unwrap();
    assert_eq!(result.text, "");
    assert_eq!(result.count, 0);
    assert!(!result.truncated);
}

#[test]
fn generation_reports_the_regex_error() {
    let message = generate_matches("a{", "ab", None, None).unwrap_err();
    let expected = format!("Invalid regular expression: {}", Regex::new("a{").unwrap_err());
    assert_eq!(message, expected);
}

#[test]
fn generation_stops_at_the_byte_bound() {
    // Every word over "ab", shortest first, until the next one would not fit.
    let mut expected = String::new();
    let mut count = 0u32;
    'outer: for len in 0.. {
        for word in words_up_to("ab", len).into_iter().filter(|w| w.len() == len) {
            if expected.len() + word.len() + 1 > 1_000_000 {
                break 'outer;
            }
            expected.push_str(&word);
            expected.push('\n');
            count += 1;
        }
    }
    let result = generate_matches("^[ab]*$", "ab", None, None).unwrap();
    assert!(result.truncated);
    assert_eq!(result.count, count);
    assert_eq!(result.text, expected);
}

#[test]
fn generation_counts_bytes_not_characters() {
    let result = generate_matches("^é*$", "é", None, None).unwrap();
    assert!(result.truncated);
    let lines: u32 = result.text.lines().count() as u32;
    assert_eq!(lines, result.count);
    assert!(result.text.len() <= 1_000_000);
    // The next word, one `é` longer than the last, would not have fitted.
    let last = result.text.lines().last().unwrap();
    assert!(result.text.len() + last.len() + 2 + 1 > 1_000_000);
}

#[test]
fn yielded_strings_are_exactly_the_matches() {
    let patterns = [
        "ab|ba",
        "^a*b$",
        "a{2,3}",
        "^(ab){1,}$",
        "^(a|bc)?c{0,2}$",
        "^[ab]{2}$",
        "(?:a|)b",
        "\\bab\\b",
        "^$",
        "x",
        "^(?:a{0,1}b){2}$",
        "c+a*c",
    ];
    for pattern in patterns {
        let regex = Regex::new(pattern).unwrap();
        let found = all_of(strings_of(pattern, "abc").max_len(4));
        let expected: Vec<String> = words_up_to("abc", 4)
            .into_iter()
            .filter(|word| regex.is_match(word))
            .collect();
        assert_eq!(found, expected, "pattern {pattern:?}");
    }
}

#[test]
fn shortest_first_then_alphabetical() {
    assert_eq!(first(strings_of(r"^a(b|c)*d$", "abcd"), 4), ["ad", "abd", "acd", "abbd"]);
}

#[test]
fn digits_and_punctuation_from_the_alphabet() {
    assert_eq!(first(strings_of(r"^\d{3}-\d{2}$", "0123-"), 3), ["000-00", "000-01", "000-02"]);
}

#[test]
fn max_len_keeps_the_short_matches() {
    assert_eq!(all_of(strings_of("ab", "ab").max_len(2)), ["ab"]);
}

#[test]
fn a_pattern_without_anchors_never_runs_out() {
    let found = first(strings_of("b", "ab"), 300);
    assert_eq!(found.len(), 300);
    assert!(found.iter().all(|word| word.contains('b')));
}

#[test]
fn a_regex_enumerates_its_own_pattern() {
    let plain = Regex::new("a").unwrap();
    assert_eq!(all_of(plain.strings(Alphabet::from("a")).max_len(2)), ["a", "aa"]);
}
