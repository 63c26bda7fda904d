use markov_engine::text::join_with_spaces;
use markov_engine::text::message_tokens;
use markov_engine::text::tokenize;
use markov_engine::words::word_usage_counts;

fn owned(items: &[&str]) -> Vec<String> {
    items.iter().map(|s| s.to_string()).collect()
}

#[test]
fn tokenize_splits_on_whitespace_runs() {
    assert_eq!(tokenize(" a  bb\tc\n"), owned(&["a", "bb", "c"]));
    assert_eq!(tokenize(""), Vec::<String>::new());
    assert_eq!(tokenize("   \t\n"), Vec::<String>::new());
    assert_eq!(tokenize("single"), owned(&["single"]));
}

#[test]
fn message_tokens_case_folds() {
    assert_eq!(message_tokens("AbC dEf"), owned(&["abc", "def"]));
    assert_eq!(message_tokens("ÅNGSTRÖM"), owned(&["ångström"]));
}

#[test]
fn join_puts_single_spaces_between_tokens() {
    assert_eq!(join_with_spaces(&owned(&["a", "b", "c"])), "a b c");
    assert_eq!(join_with_spaces(&owned(&["a"])), "a");
    assert_eq!(join_with_spaces(&Vec::new()), "");
}

#[test]
fn word_counts_are_exact_and_case_folded() {
    let counts = word_usage_counts("The the THE cat", &Vec::new());
    assert_eq!(counts, vec![("the".to_string(), 3u128), ("cat".to_string(), 1u128)]);
}

#[test]
fn word_counts_skip_excluded_words() {
    let counts = word_usage_counts("a b a , b ,", &owned(&[","]));
    assert_eq!(counts, vec![("a".to_string(), 2u128), ("b".to_string(), 2u128)]);
}

#[test]
fn word_counts_compare_excluded_words_after_folding() {
    let counts = word_usage_counts("M. hi", &owned(&["m."]));
    assert_eq!(counts, vec![("hi".to_string(), 1u128)]);
}

#[test]
fn word_counts_of_empty_content() {
    assert_eq!(word_usage_counts("", &Vec::new()), Vec::new());
}
