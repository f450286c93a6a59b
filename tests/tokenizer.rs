use inverted_index::tokenizer::{is_delimiter, is_whitespace, to_lower, tokenize};

fn counts(text: &str) -> (u32, Vec<(String, u32)>) {
    let t = tokenize(text);
    (t.length, t.counts)
}

#[test]
fn greeting_counts_fragments_and_terms() {
    let (length, c) = counts("Hello, world! Hello.");
    assert_eq!(length, 3);
    assert_eq!(c, vec![("hello".to_string(), 2), ("world".to_string(), 1)]);
}

#[test]
fn empty_text_has_no_fragments() {
    let (length, c) = counts("");
    assert_eq!(length, 0);
    assert!(c.is_empty());
}

#[test]
fn only_delimiters_have_no_fragments() {
    let (length, c) = counts("  ,.;!? \t ");
    assert_eq!(length, 0);
    assert!(c.is_empty());
}

#[test]
fn non_ascii_fragment_counts_but_yields_no_term() {
    let (length, c) = counts("café au lait");
    assert_eq!(length, 3);
    assert_eq!(c, vec![("au".to_string(), 1), ("lait".to_string(), 1)]);
}

#[test]
fn digits_are_stripped_and_digit_only_fragments_dropped() {
    let (length, c) = counts("abc123 42 a1b2c3");
    assert_eq!(length, 3);
    assert_eq!(c, vec![("abc".to_string(), 2)]);
}

#[test]
fn uppercase_is_folded() {
    let (length, c) = counts("ABC abc AbC");
    assert_eq!(length, 3);
    assert_eq!(c, vec![("abc".to_string(), 3)]);
}

#[test]
fn unicode_whitespace_splits() {
    let (length, c) = counts("one\u{3000}two\u{a0}one");
    assert_eq!(length, 3);
    assert_eq!(c, vec![("one".to_string(), 2), ("two".to_string(), 1)]);
}

#[test]
fn every_ascii_punctuation_splits() {
    let (length, c) = counts("a-b_c/d(e)f[g]h{i}j@k#l$m%n^o&p*q+r=s<t>u|v~w`x:y\\z");
    assert_eq!(length, 26);
    assert_eq!(c.len(), 26);
    assert_eq!(c[0], ("a".to_string(), 1));
    assert_eq!(c[25], ("z".to_string(), 1));
}

#[test]
fn classifies_characters() {
    assert!(is_whitespace(' '));
    assert!(is_whitespace('\n'));
    assert!(is_whitespace('\u{2003}'));
    assert!(!is_whitespace('\u{1c}'));
    assert!(!is_whitespace('a'));
    assert!(is_delimiter(','));
    assert!(is_delimiter('~'));
    assert!(!is_delimiter('é'));
    assert!(!is_delimiter('7'));
    assert_eq!(to_lower('Q'), 'q');
    assert_eq!(to_lower('q'), 'q');
    assert_eq!(to_lower('É'), 'É');
}
