use lsert::file_types::FileFormat;
use lsert::index::TermFrequencyIndex;
use lsert::io_control::{CorpusEntry, IOControl, LogLevel, WalkError, WalkReport};
use lsert::ranking::rank;

fn file(path: &str, content: &str) -> CorpusEntry {
    let extension = path.rsplit_once('.').map(|(_, extension)| extension.to_string());
    CorpusEntry::File { path: path.to_string(), extension, content: content.to_string() }
}

fn directory(path: &str, entries: Vec<CorpusEntry>) -> CorpusEntry {
    CorpusEntry::Directory { path: path.to_string(), entries }
}

fn corpus() -> CorpusEntry {
    directory(
        "corpus",
        vec![
            file("corpus/a.txt", "dog cat dog"),
            directory(
                "corpus/sub",
                vec![
                    file("corpus/sub/c.txt", "bird"),
                    directory("corpus/sub/deep", vec![file("corpus/sub/deep/d.txt", "fish fish")]),
                    CorpusEntry::Other { path: String::from("corpus/sub/socket") },
                ],
            ),
            file("corpus/b.txt", "cat cat"),
            CorpusEntry::Other { path: String::from("corpus/pipe") },
            directory("corpus/empty", Vec::new()),
        ],
    )
}

fn walk(root: &CorpusEntry, deep: bool) -> Result<WalkReport, WalkError> {
    IOControl::new(String::from("corpus"), "./index.json", deep, false).check_file_type(root)
}

fn keys(index: &TermFrequencyIndex) -> Vec<String> {
    let mut keys: Vec<String> = (0..index.len()).map(|i| index.document(i).0.clone()).collect();
    keys.sort();
    keys
}

fn unsupported(report: &WalkReport) -> Vec<String> {
    report.documents.iter().filter(|document| document.format.is_none()).map(|document| document.path.clone()).collect()
}

fn visited(report: &WalkReport) -> Vec<String> {
    report.documents.iter().map(|document| document.path.clone()).collect()
}

fn pairs(index: &TermFrequencyIndex, query: &str) -> Vec<(String, u128)> {
    rank(query, index).iter().map(|document| (document.id.clone(), document.score)).collect()
}

#[test]
fn control_keeps_its_settings() {
    let control = IOControl::new(String::from("corpus"), "./index.json", true, false);
    assert_eq!(control.path, "corpus");
    assert_eq!(control.json_path, "./index.json");
    assert!(control.deep);
    assert!(!control.progress);
}

#[test]
fn flat_walk_indexes_the_files_directly_inside_the_root() {
    let report = walk(&corpus(), false).ok().unwrap();
    assert_eq!(keys(&report.index), vec!["corpus/a.txt", "corpus/b.txt"]);
    assert!(unsupported(&report).is_empty());
}

#[test]
fn deep_walk_indexes_every_file() {
    let report = walk(&corpus(), true).ok().unwrap();
    assert_eq!(
        keys(&report.index),
        vec!["corpus/a.txt", "corpus/b.txt", "corpus/sub/c.txt", "corpus/sub/deep/d.txt"]
    );
    assert_eq!(report.index.get("corpus/sub/deep/d.txt").unwrap().count("fish"), 2);
    assert_eq!(
        visited(&report),
        vec!["corpus/a.txt", "corpus/sub/c.txt", "corpus/sub/deep/d.txt", "corpus/b.txt"]
    );
    assert_eq!(report.documents[0].tokens, vec!["dog", "cat", "dog"]);
}

#[test]
fn root_file_is_indexed_alone() {
    for deep in [false, true] {
        let report = walk(&file("a.txt", "dog cat dog"), deep).ok().unwrap();
        assert_eq!(keys(&report.index), vec!["a.txt"]);
        assert_eq!(report.index.get("a.txt").unwrap().count("dog"), 2);
        assert_eq!(report.index.get("a.txt").unwrap().count("cat"), 1);
    }
}

#[test]
fn empty_directory_gives_an_empty_index() {
    let report = walk(&directory("corpus", Vec::new()), true).ok().unwrap();
    assert_eq!(report.index.len(), 0);
}

#[test]
fn two_files_corpus_is_ranked() {
    let root = directory("", vec![file("a.txt", "dog cat dog"), file("b.txt", "cat cat")]);
    let report = walk(&root, false).ok().unwrap();
    assert_eq!(pairs(&report.index, "dog"), vec![(String::from("a.txt"), 2)]);
    assert_eq!(pairs(&report.index, "cat"), vec![(String::from("b.txt"), 2), (String::from("a.txt"), 1)]);
    assert_eq!(pairs(&report.index, "bird"), Vec::new());
}

#[test]
fn unsupported_file_is_kept_without_terms() {
    let root = directory("", vec![file("c.exe", "dog cat"), file("a.txt", "dog")]);
    let report = walk(&root, false).ok().unwrap();
    assert_eq!(keys(&report.index), vec!["a.txt", "c.exe"]);
    assert_eq!(report.index.get("c.exe").unwrap().entries(), Vec::new());
    assert_eq!(unsupported(&report), vec!["c.exe"]);
    assert_eq!(visited(&report), vec!["c.exe", "a.txt"]);
    assert!(report.documents[0].tokens.is_empty());
    assert_eq!(report.documents[1].tokens, vec!["dog"]);
    assert_eq!(report.documents[1].format, Some(FileFormat::PlainText));
    assert_eq!(pairs(&report.index, "dog"), vec![(String::from("a.txt"), 1)]);
    assert_eq!(pairs(&report.index, "cat"), Vec::new());
    assert_eq!(pairs(&report.index, "c exe"), Vec::new());
}

#[test]
fn file_without_extension_is_unsupported() {
    let root = directory("", vec![file("README", "dog")]);
    let report = walk(&root, false).ok().unwrap();
    assert_eq!(report.index.get("README").unwrap().entries(), Vec::new());
    assert_eq!(unsupported(&report), vec!["README"]);
}

#[test]
fn extension_is_matched_as_written() {
    let root = directory("", vec![file("a.TXT", "dog"), file("b.Html", "<p>dog</p>")]);
    let report = walk(&root, false).ok().unwrap();
    assert_eq!(unsupported(&report), vec!["a.TXT", "b.Html"]);
    assert_eq!(pairs(&report.index, "dog"), Vec::new());
}

#[test]
fn markup_file_is_indexed_without_its_tags() {
    let root = directory(
        "",
        vec![
            file("a.html", "<html><body><p>dog cat</p><p>dog</p></body></html>"),
            file("b.xml", "<list><item name=\"cat\">bird</item></list>"),
            file("c.xhtml", "<p>cat<!-- dog -->cat</p>"),
        ],
    );
    let report = walk(&root, false).ok().unwrap();
    assert!(unsupported(&report).is_empty());
    let a = report.index.get("a.html").unwrap();
    assert_eq!((a.count("dog"), a.count("cat"), a.count("p"), a.count("<")), (2, 1, 0, 0));
    let b = report.index.get("b.xml").unwrap();
    assert_eq!((b.count("bird"), b.count("cat"), b.count("item")), (1, 0, 0));
    let c = report.index.get("c.xhtml").unwrap();
    assert_eq!((c.count("cat"), c.count("dog")), (2, 0));
}

#[test]
fn root_that_is_neither_file_nor_directory_fails() {
    let outcome = walk(&CorpusEntry::Other { path: String::from("socket") }, true);
    assert_eq!(outcome.err(), Some(WalkError::NotAFileOrDirectory));
}

#[test]
fn missing_root_fails() {
    let outcome = walk(&CorpusEntry::Missing { path: String::from("nowhere") }, false);
    assert_eq!(outcome.err(), Some(WalkError::PathNotFound));
}

#[test]
fn denied_root_fails() {
    let outcome = walk(&CorpusEntry::Denied { path: String::from("secret") }, false);
    assert_eq!(outcome.err(), Some(WalkError::PermissionDenied));
}

#[test]
fn unreadable_entry_fails_the_walk() {
    let root = directory(
        "",
        vec![
            file("a.txt", "dog"),
            CorpusEntry::Denied { path: String::from("secret.txt") },
            CorpusEntry::Missing { path: String::from("gone.txt") },
        ],
    );
    assert_eq!(walk(&root, false).err(), Some(WalkError::PermissionDenied));
}

#[test]
fn unreadable_entry_below_fails_only_the_deep_walk() {
    let root = directory(
        "",
        vec![
            file("a.txt", "dog"),
            directory("sub", vec![CorpusEntry::Missing { path: String::from("sub/gone.txt") }]),
        ],
    );
    assert_eq!(walk(&root, true).err(), Some(WalkError::PathNotFound));
    let report = walk(&root, false).ok().unwrap();
    assert_eq!(keys(&report.index), vec!["a.txt"]);
}

#[test]
fn later_file_of_the_same_path_replaces_the_earlier() {
    let root = directory("", vec![file("a.txt", "dog"), file("a.txt", "cat cat")]);
    let report = walk(&root, false).ok().unwrap();
    assert_eq!(keys(&report.index), vec!["a.txt"]);
    assert_eq!(report.index.get("a.txt").unwrap().count("cat"), 2);
    assert_eq!(report.index.get("a.txt").unwrap().count("dog"), 0);
    assert_eq!(visited(&report), vec!["a.txt", "a.txt"]);
}

#[test]
fn log_levels_show_their_labels() {
    assert_eq!(
        LogLevel::ERROR(String::from("no such command")).show(),
        "\x1B[41m\x1B[1mERROR:\x1B[0m no such command"
    );
    assert_eq!(
        LogLevel::WARN(String::from("Cannot Tokenize c.exe")).show(),
        "\x1B[44m\x1B[1mWARN:\x1B[0m Cannot Tokenize c.exe "
    );
    assert_eq!(LogLevel::SIGNAL(String::from("Serving...")).show(), "\n\x1B[1mServing...\x1B[0m\n");
}

#[test]
fn errors_and_warnings_are_diagnostics() {
    assert!(LogLevel::ERROR(String::new()).is_diagnostic());
    assert!(LogLevel::WARN(String::new()).is_diagnostic());
    assert!(!LogLevel::SIGNAL(String::new()).is_diagnostic());
}
