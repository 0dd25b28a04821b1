use lsert::index::TermFrequencyIndex;
use lsert::ranking::{distinct_tokens, id_precedes, rank, rank_tokens, total_count, ScoredDocument};
use lsert::term_frequency::term_frequency_of;

fn index_of(documents: &[(&str, &str)]) -> TermFrequencyIndex {
    let mut index = TermFrequencyIndex::new();
    for (id, text) in documents {
        index.insert(id.to_string(), term_frequency_of(text));
    }
    index
}

fn pairs(ranking: &[ScoredDocument]) -> Vec<(String, u128)> {
    ranking.iter().map(|document| (document.id.clone(), document.score)).collect()
}

fn expected(pairs: &[(&str, u128)]) -> Vec<(String, u128)> {
    pairs.iter().map(|(id, score)| (id.to_string(), *score)).collect()
}

#[test]
fn two_files_scenario() {
    let index = index_of(&[("a.txt", "dog cat dog"), ("b.txt", "cat cat")]);
    assert_eq!(pairs(&rank("dog", &index)), expected(&[("a.txt", 2)]));
    assert_eq!(pairs(&rank("cat", &index)), expected(&[("b.txt", 2), ("a.txt", 1)]));
    assert_eq!(pairs(&rank("bird", &index)), expected(&[]));
}

#[test]
fn score_is_the_sum_over_the_query_tokens() {
    let index = index_of(&[("a.txt", "dog cat dog"), ("b.txt", "cat cat"), ("c.txt", "bird")]);
    assert_eq!(pairs(&rank("dog cat", &index)), expected(&[("a.txt", 3), ("b.txt", 2)]));
    assert_eq!(pairs(&rank("cat bird dog", &index)), expected(&[("a.txt", 3), ("b.txt", 2), ("c.txt", 1)]));
}

#[test]
fn repeated_query_token_counts_once() {
    let index = index_of(&[("a.txt", "dog cat dog"), ("b.txt", "cat cat")]);
    assert_eq!(pairs(&rank("dog dog dog", &index)), expected(&[("a.txt", 2)]));
    assert_eq!(pairs(&rank("cat dog cat", &index)), expected(&[("a.txt", 3), ("b.txt", 2)]));
}

#[test]
fn query_without_tokens_matches_nothing() {
    let index = index_of(&[("a.txt", "dog cat dog")]);
    assert_eq!(pairs(&rank("", &index)), expected(&[]));
    assert_eq!(pairs(&rank("   ", &index)), expected(&[]));
}

#[test]
fn empty_index_has_empty_ranking() {
    let index = TermFrequencyIndex::new();
    assert_eq!(pairs(&rank("dog", &index)), expected(&[]));
}

#[test]
fn equal_scores_are_ordered_by_id() {
    let index = index_of(&[("b.txt", "dog"), ("c.txt", "dog"), ("a.txt", "dog"), ("ab.txt", "dog")]);
    assert_eq!(
        pairs(&rank("dog", &index)),
        expected(&[("a.txt", 1), ("ab.txt", 1), ("b.txt", 1), ("c.txt", 1)])
    );
}

#[test]
fn query_is_tokenized_as_documents_are() {
    let index = index_of(&[("a.txt", "x=10.5"), ("b.txt", "10 10")]);
    assert_eq!(pairs(&rank("10", &index)), expected(&[("b.txt", 2), ("a.txt", 1)]));
    assert_eq!(pairs(&rank(".", &index)), expected(&[("a.txt", 1)]));
    assert_eq!(pairs(&rank("Dog", &index_of(&[("a.txt", "dog")]))), expected(&[]));
}

#[test]
fn ranking_keeps_the_twenty_best_of_more() {
    let mut index = TermFrequencyIndex::new();
    for n in 1..=30u32 {
        let text = vec!["dog"; n as usize].join(" ");
        index.insert(format!("doc{:02}.txt", n), term_frequency_of(&text));
    }
    let ranking = rank("dog", &index);
    assert_eq!(ranking.len(), 20);
    for (k, document) in ranking.iter().enumerate() {
        let n = 30 - k as u32;
        assert_eq!(document.id, format!("doc{:02}.txt", n));
        assert_eq!(document.score, n as u128);
    }
}

#[test]
fn ranking_of_twenty_takes_them_all() {
    let mut index = TermFrequencyIndex::new();
    for n in 0..20u32 {
        index.insert(format!("doc{:02}.txt", n), term_frequency_of("dog"));
    }
    index.insert(String::from("none.txt"), term_frequency_of("cat"));
    let ranking = rank("dog", &index);
    assert_eq!(ranking.len(), 20);
    for (k, document) in ranking.iter().enumerate() {
        assert_eq!(document.id, format!("doc{:02}.txt", k));
        assert_eq!(document.score, 1);
    }
}

#[test]
fn ranking_is_sorted_and_holds_no_zero_score() {
    let index = index_of(&[
        ("a", "x y z"),
        ("b", "x x"),
        ("c", "q"),
        ("d", "y y y y"),
        ("e", ""),
        ("f", "z x"),
    ]);
    let ranking = rank("x y", &index);
    assert_eq!(pairs(&ranking), expected(&[("d", 4), ("a", 2), ("b", 2), ("f", 1)]));
    for document in &ranking {
        assert!(document.score > 0);
    }
    for pair in ranking.windows(2) {
        assert!(pair[0].score >= pair[1].score);
        assert!(pair[0].outranks(&pair[1]));
        assert!(!pair[1].outranks(&pair[0]));
    }
}

#[test]
fn rank_tokens_takes_the_tokens_as_given() {
    let index = index_of(&[("a.txt", "dog cat dog"), ("b.txt", "cat cat")]);
    let ranking = rank_tokens(&vec![String::from("cat"), String::from("cat")], &index);
    assert_eq!(pairs(&ranking), expected(&[("b.txt", 2), ("a.txt", 1)]));
}

#[test]
fn distinct_tokens_keep_first_occurrences() {
    let tokens: Vec<String> = ["b", "a", "b", "c", "a"].iter().map(|t| t.to_string()).collect();
    assert_eq!(distinct_tokens(&tokens), vec!["b", "a", "c"]);
    assert_eq!(distinct_tokens(&Vec::new()), Vec::<String>::new());
}

#[test]
fn total_count_adds_each_listed_term() {
    let frequency = term_frequency_of("dog cat dog");
    let terms: Vec<String> = ["dog", "bird", "cat"].iter().map(|t| t.to_string()).collect();
    assert_eq!(total_count(&frequency, &terms), 3);
    assert_eq!(total_count(&frequency, &Vec::new()), 0);
}

#[test]
fn ids_are_ordered_by_code_point() {
    assert!(id_precedes("a", "b"));
    assert!(!id_precedes("b", "a"));
    assert!(!id_precedes("a", "a"));
    assert!(id_precedes("", "a"));
    assert!(!id_precedes("a", ""));
    assert!(!id_precedes("", ""));
    assert!(id_precedes("a", "ab"));
    assert!(id_precedes("Z", "a"));
    assert!(id_precedes("a.txt", "b.txt"));
    assert!(id_precedes("z", "é"));
    assert!(id_precedes("é", "東"));
}

#[test]
fn higher_score_outranks_and_id_breaks_ties() {
    let high = ScoredDocument { id: String::from("z"), score: 3 };
    let low = ScoredDocument { id: String::from("a"), score: 2 };
    let tie = ScoredDocument { id: String::from("b"), score: 2 };
    assert!(high.outranks(&low));
    assert!(!low.outranks(&high));
    assert!(low.outranks(&tie));
    assert!(!tie.outranks(&low));
    assert!(!low.outranks(&low));
}
