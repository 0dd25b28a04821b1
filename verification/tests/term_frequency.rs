use lsert::index::TermFrequencyIndex;
use lsert::term_frequency::{count_terms, term_frequency_of, TermFrequency};

fn sorted(mut entries: Vec<(String, u64)>) -> Vec<(String, u64)> {
    entries.sort();
    entries
}

fn expected(entries: &[(&str, u64)]) -> Vec<(String, u64)> {
    entries.iter().map(|(term, count)| (term.to_string(), *count)).collect()
}

#[test]
fn new_term_frequency_is_empty() {
    let frequency = TermFrequency::new();
    assert_eq!(frequency.entries(), Vec::new());
    assert_eq!(frequency.count("dog"), 0);
}

#[test]
fn increment_counts_from_zero() {
    let mut frequency = TermFrequency::new();
    frequency.increment("dog");
    assert_eq!(frequency.count("dog"), 1);
    frequency.increment("dog");
    frequency.increment("cat");
    assert_eq!(frequency.count("dog"), 2);
    assert_eq!(frequency.count("cat"), 1);
    assert_eq!(frequency.count("bird"), 0);
    assert_eq!(frequency.entries(), expected(&[("dog", 2), ("cat", 1)]));
}

#[test]
fn set_replaces_a_count() {
    let mut frequency = TermFrequency::new();
    frequency.set("dog", 7);
    frequency.set("cat", 1);
    frequency.set("dog", 3);
    assert_eq!(frequency.count("dog"), 3);
    assert_eq!(sorted(frequency.entries()), expected(&[("cat", 1), ("dog", 3)]));
}

#[test]
fn count_terms_counts_each_occurrence() {
    let tokens: Vec<String> = ["dog", "cat", "dog"].iter().map(|t| t.to_string()).collect();
    let frequency = count_terms(&tokens);
    assert_eq!(sorted(frequency.entries()), expected(&[("cat", 1), ("dog", 2)]));
    assert_eq!(count_terms(&Vec::new()).entries(), Vec::new());
}

#[test]
fn term_frequency_of_text() {
    let frequency = term_frequency_of("Hello, 20 hello 20.20");
    assert_eq!(
        sorted(frequency.entries()),
        expected(&[(",", 1), (".", 1), ("20", 3), ("Hello", 1), ("hello", 1)])
    );
    assert_eq!(term_frequency_of("").entries(), Vec::new());
    assert_eq!(term_frequency_of(" \n ").entries(), Vec::new());
}

#[test]
fn every_count_is_positive() {
    let frequency = term_frequency_of("a b a c b a");
    for (term, count) in frequency.entries() {
        assert!(count > 0);
        assert_eq!(frequency.count(&term), count);
    }
}

#[test]
fn new_index_is_empty() {
    let index = TermFrequencyIndex::new();
    assert_eq!(index.len(), 0);
    assert!(index.get("a.txt").is_none());
}

#[test]
fn index_holds_what_was_inserted() {
    let mut index = TermFrequencyIndex::new();
    index.insert(String::from("a.txt"), term_frequency_of("dog cat dog"));
    index.insert(String::from("b.txt"), term_frequency_of(""));
    assert_eq!(index.len(), 2);
    assert_eq!(index.get("a.txt").unwrap().count("dog"), 2);
    assert_eq!(index.get("b.txt").unwrap().entries(), Vec::new());
    assert!(index.get("c.txt").is_none());
    let (id, terms) = index.document(0);
    assert_eq!(id, "a.txt");
    assert_eq!(terms.count("cat"), 1);
    let (id, terms) = index.document(1);
    assert_eq!(id, "b.txt");
    assert_eq!(terms.count("cat"), 0);
}

#[test]
fn inserting_again_replaces_the_document() {
    let mut index = TermFrequencyIndex::new();
    index.insert(String::from("a.txt"), term_frequency_of("dog"));
    index.insert(String::from("b.txt"), term_frequency_of("cat"));
    index.insert(String::from("a.txt"), term_frequency_of("bird bird"));
    assert_eq!(index.len(), 2);
    assert_eq!(index.get("a.txt").unwrap().entries(), expected(&[("bird", 2)]));
    assert_eq!(index.get("b.txt").unwrap().entries(), expected(&[("cat", 1)]));
}

#[test]
fn term_frequencies_are_equal_by_their_counts() {
    let a = term_frequency_of("dog cat dog");
    let b = term_frequency_of("cat dog dog");
    assert!(a.equals(&b));
    assert!(b.equals(&a));
    assert!(a.equals(&a));
    assert!(TermFrequency::new().equals(&term_frequency_of("  ")));
}

#[test]
fn term_frequencies_differ_by_a_count_or_a_term() {
    let a = term_frequency_of("dog cat dog");
    assert!(!a.equals(&term_frequency_of("dog cat")));
    assert!(!a.equals(&term_frequency_of("dog cat dog bird")));
    assert!(!term_frequency_of("dog cat dog bird").equals(&a));
    assert!(!a.equals(&term_frequency_of("dog dog")));
    assert!(!a.equals(&TermFrequency::new()));
    assert!(!TermFrequency::new().equals(&a));
}

#[test]
fn indexes_are_equal_by_their_documents() {
    let mut a = TermFrequencyIndex::new();
    a.insert(String::from("a.txt"), term_frequency_of("dog cat dog"));
    a.insert(String::from("b.txt"), TermFrequency::new());
    let mut b = TermFrequencyIndex::new();
    b.insert(String::from("b.txt"), TermFrequency::new());
    b.insert(String::from("a.txt"), term_frequency_of("cat dog dog"));
    assert!(a.equals(&b));
    assert!(b.equals(&a));
    assert!(TermFrequencyIndex::new().equals(&TermFrequencyIndex::new()));
}

#[test]
fn indexes_differ_by_a_document_or_its_terms() {
    let mut a = TermFrequencyIndex::new();
    a.insert(String::from("a.txt"), term_frequency_of("dog cat dog"));
    let mut b = TermFrequencyIndex::new();
    b.insert(String::from("a.txt"), term_frequency_of("dog cat"));
    assert!(!a.equals(&b));
    b.insert(String::from("a.txt"), term_frequency_of("dog cat dog"));
    assert!(a.equals(&b));
    b.insert(String::from("b.txt"), TermFrequency::new());
    assert!(!a.equals(&b));
    assert!(!b.equals(&a));
    assert!(!a.equals(&TermFrequencyIndex::new()));
    assert!(!TermFrequencyIndex::new().equals(&a));
}
