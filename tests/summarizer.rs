use summarizer::Summarizer;
use summarizer::TermStat;
use summarizer::Tokenizer;

fn owned(sentences: &[&str]) -> Vec<String> {
    sentences.iter().map(|s| s.to_string()).collect()
}

fn score(stats: &[TermStat], n: usize, mean: bool) -> f32 {
    if stats.is_empty() {
        return 0.0;
    }
    let len = stats.len() as f32;
    let mut sum: f32 = 0.0;
    for s in stats {
        sum += (s.in_sentence as f32 / len) * (n as f32 / s.in_corpus as f32).log10();
    }
    if mean {
        sum / len
    } else {
        sum
    }
}

fn keys_of(sentences: &Vec<String>, mean: bool) -> Vec<u32> {
    let tokens = Summarizer::tokenize_all(sentences);
    let stats = Summarizer::all_term_stats(&tokens).unwrap();
    stats
        .iter()
        .map(|s| Summarizer::score_key(score(s, sentences.len(), mean).to_bits()))
        .collect()
}

fn scenario() -> Vec<String> {
    owned(&[
        "The cat sat on the mat.",
        "A quick brown fox jumps over the lazy dog.",
        "The cat and the fox are friends.",
    ])
}

#[test]
fn corpus_count_adds_repeats_over_sentences() {
    let sentences = owned(&["fox fox cat", "cat fox", "dog"]);
    let tokens = Summarizer::tokenize_all(&sentences);
    assert_eq!(Summarizer::corpus_count("fox", &tokens), 3);
    assert_eq!(Summarizer::corpus_count("cat", &tokens), 2);
    assert_eq!(Summarizer::corpus_count("Fox", &tokens), 0);
}

#[test]
fn term_stats_pair_each_token_with_its_counts() {
    let sentences = owned(&["fox fox cat", "cat fox", "dog"]);
    let tokens = Summarizer::tokenize_all(&sentences);
    let stats = Summarizer::term_stats(&tokens[0], &tokens);
    assert_eq!(
        stats,
        vec![
            TermStat { in_sentence: 2, in_corpus: 3 },
            TermStat { in_sentence: 2, in_corpus: 3 },
            TermStat { in_sentence: 1, in_corpus: 2 },
        ]
    );
    assert_eq!(Summarizer::token_total(&tokens), Some(6));
}

#[test]
fn all_term_stats_cover_every_sentence() {
    let sentences = owned(&["fox cat", "the of", "cat"]);
    let tokens = Summarizer::tokenize_all(&sentences);
    let stats = Summarizer::all_term_stats(&tokens).unwrap();
    assert_eq!(stats.len(), 3);
    assert_eq!(
        stats[0],
        vec![TermStat { in_sentence: 1, in_corpus: 1 }, TermStat { in_sentence: 1, in_corpus: 2 }]
    );
    assert!(stats[1].is_empty());
    assert_eq!(stats[2], vec![TermStat { in_sentence: 1, in_corpus: 2 }]);
}

#[test]
fn score_key_orders_like_total_cmp() {
    let values: Vec<f32> = vec![-f32::INFINITY, -2.5, -0.0, 0.0, 1e-30, 0.5, 3.0, f32::INFINITY];
    for w in values.windows(2) {
        assert!(Summarizer::score_key(w[0].to_bits()) < Summarizer::score_key(w[1].to_bits()));
    }
    assert_eq!(Summarizer::score_key(0.0f32.to_bits()), 0x8000_0000);
    assert_eq!(Summarizer::score_key((-0.0f32).to_bits()), 0x7FFF_FFFF);
}

#[test]
fn rank_is_descending_and_stable() {
    let keys: Vec<u32> = vec![5, 9, 5, 1, 9, 5];
    assert_eq!(Summarizer::rank(&keys), vec![1, 4, 0, 2, 5, 3]);
    let empty: Vec<u32> = Vec::new();
    assert!(Summarizer::rank(&empty).is_empty());
}

#[test]
fn equal_scores_keep_source_order() {
    let sentences = owned(&["alpha beta.", "gamma delta.", "epsilon zeta."]);
    let keys = keys_of(&sentences, false);
    assert_eq!(keys[0], keys[1]);
    assert_eq!(keys[1], keys[2]);
    let summary = Summarizer::select(&sentences, &keys, 3, " ");
    assert_eq!(summary, "alpha beta. gamma delta. epsilon zeta.");
}

#[test]
fn join_selected_takes_a_prefix_of_the_order() {
    let sentences = owned(&["a", "b", "c"]);
    let order: Vec<usize> = vec![2, 0, 1];
    assert_eq!(Summarizer::join_selected(&sentences, &order, 2, " "), "c a");
    assert_eq!(Summarizer::join_selected(&sentences, &order, 1, ". "), "c");
    assert_eq!(Summarizer::join_selected(&sentences, &order, 0, " "), "");
    assert_eq!(Summarizer::join_selected(&sentences, &order, 7, ". "), "c. a. b");
}

#[test]
fn zero_budget_gives_empty_summary() {
    let sentences = scenario();
    let keys = keys_of(&sentences, false);
    assert_eq!(Summarizer::select(&sentences, &keys, 0, " "), "");
}

#[test]
fn full_budget_gives_every_sentence_by_score() {
    let sentences = scenario();
    let keys = keys_of(&sentences, false);
    assert_eq!(
        Summarizer::select(&sentences, &keys, 3, " "),
        "A quick brown fox jumps over the lazy dog. The cat sat on the mat. The cat and the fox are friends."
    );
    assert_eq!(
        Summarizer::select(&sentences, &keys, 10, " "),
        Summarizer::select(&sentences, &keys, 3, " ")
    );
}

#[test]
fn no_sentences_give_empty_summary() {
    let sentences: Vec<String> = Vec::new();
    let keys: Vec<u32> = Vec::new();
    assert_eq!(Summarizer::select(&sentences, &keys, 4, " "), "");
}

#[test]
fn summary_size_follows_budget() {
    let sentences = owned(&["one red.", "two green.", "three blue.", "four red.", "five green."]);
    let keys = keys_of(&sentences, false);
    for (factor, expected) in [(0.0f32, 0usize), (0.2, 1), (0.5, 2), (0.99, 4), (1.0, 5)] {
        let count = (factor * sentences.len() as f32) as usize;
        assert_eq!(count, expected);
        let summary = Summarizer::select(&sentences, &keys, count, ". ");
        let parts = if summary.is_empty() { 0 } else { summary.split(". ").count() };
        assert_eq!(parts, expected);
    }
}

#[test]
fn summarizing_twice_gives_the_same_summary() {
    let sentences = scenario();
    let first = Summarizer::select(&sentences, &keys_of(&sentences, false), 2, " ");
    let second = Summarizer::select(&sentences, &keys_of(&sentences, false), 2, " ");
    assert_eq!(first, second);
}

#[test]
fn parallel_tokens_stay_with_their_sentences() {
    let sentences = owned(&[
        "apple banana cherry",
        "cherry apple banana banana",
        "banana cherry apple apple apple",
        "the of and",
        "cherry cherry banana",
    ]);
    let sequential = Summarizer::tokenize_all(&sentences);
    let parallel = Summarizer::par_tokenize_all(&sentences);
    assert_eq!(parallel, sequential);
    for (i, sentence) in sentences.iter().enumerate() {
        assert_eq!(parallel[i], Tokenizer::sentence_to_tokens(sentence));
    }
}

#[test]
fn rarer_words_outrank_repeated_ones() {
    let sentences = scenario();
    let keys = keys_of(&sentences, false);
    let count = (0.67f32 * sentences.len() as f32) as usize;
    assert_eq!(count, 2);
    assert_eq!(
        Summarizer::select(&sentences, &keys, count, " "),
        "A quick brown fox jumps over the lazy dog. The cat sat on the mat."
    );
}

#[test]
fn mean_scoring_and_separator_diverge_from_sum_scoring() {
    let sentences = scenario();
    let tokens = Summarizer::par_tokenize_all(&sentences);
    let stats = Summarizer::all_term_stats(&tokens).unwrap();
    let keys: Vec<u32> = stats
        .iter()
        .map(|s| Summarizer::score_key(score(s, sentences.len(), true).to_bits()))
        .collect();
    let parallel = Summarizer::select(&sentences, &keys, 2, ". ");
    let sequential = Summarizer::select(&sentences, &keys_of(&sentences, false), 2, " ");
    assert_eq!(parallel, "The cat sat on the mat.. The cat and the fox are friends.");
    assert_ne!(parallel, sequential);
}
