use regex_strings::generate::{generate_matches, MAX_OUTPUT_BYTES, MAX_OUTPUT_WORDS};

#[test]
fn generates_matches_with_a_trailing_newline() {
    let result = generate_matches("^a(b|c)*d$", "abcd", None, Some(4)).unwrap();
    assert_eq!(result.text, "ad\nabd\nacd\nabbd\n");
    assert_eq!(result.count, 4);
    assert!(!result.truncated);
}

#[test]
fn preserves_an_empty_match() {
    let result = generate_matches("^$", "ab", None, None).unwrap();
    assert_eq!(result.text, "\n");
    assert_eq!(result.count, 1);
}

#[test]
fn reports_invalid_input() {
    assert!(generate_matches("[", "ab", None, Some(1))
        .unwrap_err()
        .starts_with("Invalid regular expression:"));
    assert_eq!(
        generate_matches("a", "", None, Some(1)).unwrap_err(),
        "Alphabet must contain at least one character."
    );
}

#[test]
fn truncates_before_the_output_becomes_huge() {
    let result = generate_matches("^[ab]*$", "ab", None, None).unwrap();
    assert!(result.truncated);
    assert!(result.text.len() <= MAX_OUTPUT_BYTES);
    assert!(result.count <= MAX_OUTPUT_WORDS);
}

#[test]
fn finishing_a_compiled_regex_lists_its_matches() {
    let compiled = regex::Regex::new("^a(b|c)*d$");
    let g = regex_strings::generate::finish_generation(compiled, "^a(b|c)*d$", "abcd", None, Some(4)).unwrap();
    assert_eq!(g.text, "ad\nabd\nacd\nabbd\n");
    assert_eq!(g.count, 4);
    assert!(!g.truncated);
}

#[test]
fn finishing_a_failed_compile_reports_the_regex_error() {
    let compiled = regex::Regex::new("a[");
    let error = regex_strings::generate::finish_generation(compiled, "a[", "ab", None, None).unwrap_err();
    assert!(error.starts_with("Invalid regular expression: "));
    assert!(error.len() > "Invalid regular expression: ".len());
}
