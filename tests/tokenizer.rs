use summarizer::Tokenizer;

#[test]
fn tokens_drop_stopwords_and_keep_case() {
    let tokens = Tokenizer::sentence_to_tokens("The cat sat on the mat.");
    assert_eq!(tokens, vec!["cat", "sat", "mat."]);
}

#[test]
fn stopwords_are_matched_without_case() {
    let tokens = Tokenizer::sentence_to_tokens("THE Quick AND Brown fox");
    assert_eq!(tokens, vec!["Quick", "Brown", "fox"]);
}

#[test]
fn tokens_split_on_every_ascii_whitespace() {
    let tokens = Tokenizer::sentence_to_tokens("  red\tgreen\nblue\r\nwhite\u{c}black  ");
    assert_eq!(tokens, vec!["red", "green", "blue", "white", "black"]);
}

#[test]
fn empty_and_stopword_only_sentences_have_no_tokens() {
    assert!(Tokenizer::sentence_to_tokens("").is_empty());
    assert!(Tokenizer::sentence_to_tokens("   ").is_empty());
    assert!(Tokenizer::sentence_to_tokens("It is what it is").is_empty());
}

#[test]
fn non_breaking_space_is_not_a_separator() {
    let tokens = Tokenizer::sentence_to_tokens("caf\u{e9}\u{a0}noir");
    assert_eq!(tokens, vec!["caf\u{e9}\u{a0}noir"]);
}

#[test]
fn stopword_lookup() {
    assert!(Tokenizer::is_stopword("the"));
    assert!(Tokenizer::is_stopword("Ourselves"));
    assert!(Tokenizer::is_stopword("NOW"));
    assert!(!Tokenizer::is_stopword("fox"));
    assert!(!Tokenizer::is_stopword("the."));
    assert!(!Tokenizer::is_stopword(""));
}

#[test]
fn freq_map_counts_repeats_in_first_occurrence_order() {
    let words = vec!["fox", "dog", "fox", "Fox", "fox"];
    let freq = Tokenizer::get_freq_map(&words);
    assert_eq!(freq, vec![("fox", 3), ("dog", 1), ("Fox", 1)]);
}

#[test]
fn freq_map_of_nothing_is_empty() {
    let words: Vec<&str> = Vec::new();
    assert!(Tokenizer::get_freq_map(&words).is_empty());
}
