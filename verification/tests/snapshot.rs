use lsert::index::TermFrequencyIndex;
use lsert::snapshot::{documents_of, index_from, read_snapshot, term_frequency_from, write_snapshot};
use lsert::term_frequency::{term_frequency_of, TermFrequency};
use std::collections::BTreeMap;

fn as_maps(index: &TermFrequencyIndex) -> BTreeMap<String, BTreeMap<String, u64>> {
    documents_of(index).into_iter().map(|(id, terms)| (id, terms.into_iter().collect())).collect()
}

fn sample() -> TermFrequencyIndex {
    let mut index = TermFrequencyIndex::new();
    index.insert(String::from("/corpus/b.html"), TermFrequency::new());
    index.insert(String::from("/corpus/a.txt"), term_frequency_of("world hello hello"));
    index
}

#[test]
fn snapshot_is_a_map_of_maps() {
    assert_eq!(
        write_snapshot(&sample()).ok().unwrap(),
        "{\"/corpus/a.txt\":{\"hello\":2,\"world\":1},\"/corpus/b.html\":{}}"
    );
}

#[test]
fn empty_index_is_an_empty_map() {
    assert_eq!(write_snapshot(&TermFrequencyIndex::new()).ok().unwrap(), "{}");
    assert_eq!(read_snapshot("{}").ok().unwrap().len(), 0);
}

#[test]
fn snapshot_is_read_as_written_in_the_format() {
    let index = read_snapshot("{ \"/corpus/a.txt\": { \"hello\": 2, \"world\": 1 }, \"/corpus/b.html\": {} }")
        .ok()
        .unwrap();
    assert_eq!(index.len(), 2);
    assert_eq!(index.get("/corpus/a.txt").unwrap().count("hello"), 2);
    assert_eq!(index.get("/corpus/a.txt").unwrap().count("world"), 1);
    assert_eq!(index.get("/corpus/b.html").unwrap().entries(), Vec::new());
}

#[test]
fn snapshot_round_trip() {
    let index = sample();
    let text = write_snapshot(&index).ok().unwrap();
    let read = read_snapshot(&text).ok().unwrap();
    assert!(read.equals(&index));
    assert_eq!(as_maps(&read), as_maps(&index));
    assert_eq!(read.len(), 2);
    assert_eq!(read.get("/corpus/b.html").unwrap().entries(), Vec::new());
    assert_eq!(write_snapshot(&read).ok().unwrap(), text);
}

#[test]
fn snapshot_round_trip_keeps_odd_characters() {
    let mut index = TermFrequencyIndex::new();
    index.insert(String::from("dir/\"quoted\" \\ name\n.txt"), term_frequency_of("\" \\ é 東 \u{1F600} \u{0007}"));
    index.insert(String::new(), term_frequency_of("x"));
    let text = write_snapshot(&index).ok().unwrap();
    let read = read_snapshot(&text).ok().unwrap();
    assert_eq!(as_maps(&read), as_maps(&index));
    assert_eq!(read.get("dir/\"quoted\" \\ name\n.txt").unwrap().count("東"), 1);
}

#[test]
fn snapshot_round_trip_keeps_large_counts() {
    let index = index_from(&vec![(String::from("a"), vec![(String::from("x"), u64::MAX)])]);
    let text = write_snapshot(&index).ok().unwrap();
    assert_eq!(text, "{\"a\":{\"x\":18446744073709551615}}");
    assert_eq!(read_snapshot(&text).ok().unwrap().get("a").unwrap().count("x"), u64::MAX);
}

#[test]
fn zero_count_reads_as_absent() {
    let index = read_snapshot("{\"a.txt\":{\"dog\":0,\"cat\":3}}").ok().unwrap();
    let terms = index.get("a.txt").unwrap();
    assert_eq!(terms.count("dog"), 0);
    assert_eq!(terms.entries(), vec![(String::from("cat"), 3)]);
}

#[test]
fn malformed_snapshot_is_a_failure() {
    for text in [
        "",
        "{",
        "[]",
        "null",
        "{\"a.txt\":3}",
        "{\"a.txt\":{\"dog\":-1}}",
        "{\"a.txt\":{\"dog\":1.5}}",
        "{\"a.txt\":{\"dog\":\"2\"}}",
        "{\"a.txt\":{\"dog\":18446744073709551616}}",
        "{\"a.txt\":{}} trailing",
    ] {
        let outcome = read_snapshot(text);
        assert!(outcome.is_err(), "{}", text);
        assert!(!outcome.err().unwrap().message.is_empty());
    }
}

#[test]
fn index_from_lets_the_later_entry_win() {
    let index = index_from(&vec![
        (String::from("a"), vec![(String::from("x"), 1)]),
        (String::from("b"), vec![(String::from("y"), 2), (String::from("y"), 5), (String::from("z"), 0)]),
        (String::from("a"), vec![(String::from("w"), 4)]),
    ]);
    assert_eq!(index.len(), 2);
    assert_eq!(index.get("a").unwrap().entries(), vec![(String::from("w"), 4)]);
    assert_eq!(index.get("b").unwrap().entries(), vec![(String::from("y"), 5)]);
}

#[test]
fn term_frequency_from_entries() {
    let frequency = term_frequency_from(&vec![(String::from("dog"), 2), (String::from("cat"), 0)]);
    assert_eq!(frequency.count("dog"), 2);
    assert_eq!(frequency.count("cat"), 0);
    assert_eq!(frequency.entries(), vec![(String::from("dog"), 2)]);
}

#[test]
fn documents_of_lists_each_document_once() {
    let listed = documents_of(&sample());
    assert_eq!(listed.len(), 2);
    assert_eq!(listed[0], (String::from("/corpus/b.html"), Vec::new()));
    assert_eq!(listed[1].0, "/corpus/a.txt");
    assert_eq!(listed[1].1, vec![(String::from("world"), 1), (String::from("hello"), 2)]);
    assert_eq!(as_maps(&index_from(&listed)), as_maps(&sample()));
}
