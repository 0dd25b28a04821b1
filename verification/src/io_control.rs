//! The corpus walker: turns the files under a root into a term-frequency
//! index.

use vstd::prelude::*;
use vstd::string::StringExecFns;
use crate::file_types::{extract_text, extracted_text, format_of, FileFormat};
use crate::index::TermFrequencyIndex;
use crate::lexical_analysis::{token_views, tokenize, tokens_of};
use crate::term_frequency::{count_terms, term_counts};

verus! {

/// What was found at one path of the corpus.
pub enum CorpusEntry {
    /// A regular file with its extension, if it has one, and its content.
    File { path: String, extension: Option<String>, content: String },
    /// A directory with what it holds.
    Directory { path: String, entries: Vec<CorpusEntry> },
    /// Something that is neither a regular file nor a directory.
    Other { path: String },
    /// A path at which nothing was found.
    Missing { path: String },
    /// A path that could not be read for want of permission.
    Denied { path: String },
}

/// Why a walk failed.
#[derive(Clone, Copy, Debug, PartialEq, Eq, Structural)]
pub enum WalkError {
    PathNotFound,
    PermissionDenied,
    NotAFileOrDirectory,
}

/// A regular file that a walk has visited: its path, its format where text
/// can be extracted from it, and the tokens of its text.
pub struct Visited {
    pub path: Seq<char>,
    pub format: Option<FileFormat>,
    pub tokens: Seq<Seq<char>>,
}

/// What a walk has gathered so far: the index, and the files that it has
/// visited, in the order in which it came to them.
#[verifier::ext_equal]
pub struct Gathered {
    pub index: Map<Seq<char>, Map<Seq<char>, nat>>,
    pub documents: Seq<Visited>,
}

/// The tokens of a file with the extension `extension` and the content
/// `content`: those of its extracted text, and none where text cannot be
/// extracted from files with that extension, or where the file has no
/// extension.
pub open spec fn document_tokens(extension: Option<String>, content: Seq<char>) -> Seq<Seq<char>> {
    match supported(extension) {
        Some(format) => tokenize(extracted_text(format, content)),
        None => Seq::empty(),
    }
}

/// The term frequency of a file with the extension `extension` and the
/// content `content`.
pub open spec fn document_terms(extension: Option<String>, content: Seq<char>) -> Map<Seq<char>, nat> {
    term_counts(document_tokens(extension, content))
}

/// The format of a file with the extension `extension`, if text can be
/// extracted from it.
pub open spec fn supported(extension: Option<String>) -> Option<FileFormat> {
    match extension {
        Some(extension) => format_of(extension@),
        None => None,
    }
}

/// What a walk that has gathered `so_far` holds after it has visited
/// `entry`. The root of a walk is visited with `root` set, any other entry
/// without. A failed walk stays failed.
pub open spec fn visit(
    entry: CorpusEntry,
    recursive: bool,
    root: bool,
    so_far: Result<Gathered, WalkError>,
) -> Result<Gathered, WalkError>
    decreases entry, 0nat,
{
    match so_far {
        Err(error) => Err(error),
        Ok(gathered) => match entry {
            CorpusEntry::File { path, extension, content } => Ok(
                Gathered {
                    index: gathered.index.insert(path@, document_terms(extension, content@)),
                    documents: gathered.documents.push(
                        Visited {
                            path: path@,
                            format: supported(extension),
                            tokens: document_tokens(extension, content@),
                        },
                    ),
                },
            ),
            CorpusEntry::Directory { path, entries } => if root || recursive {
                visit_first(entries@, entries@.len(), recursive, so_far)
            } else {
                so_far
            },
            CorpusEntry::Other { path } => if root {
                Err(WalkError::NotAFileOrDirectory)
            } else {
                so_far
            },
            CorpusEntry::Missing { path } => Err(WalkError::PathNotFound),
            CorpusEntry::Denied { path } => Err(WalkError::PermissionDenied),
        },
    }
}

/// What a walk that has gathered `so_far` holds after it has visited the
/// first `count` of `entries`, in order.
pub open spec fn visit_first(
    entries: Seq<CorpusEntry>,
    count: nat,
    recursive: bool,
    so_far: Result<Gathered, WalkError>,
) -> Result<Gathered, WalkError>
    decreases entries, count,
{
    if count == 0 || count > entries.len() {
        so_far
    } else {
        visit(
            entries[count - 1],
            recursive,
            false,
            visit_first(entries, (count - 1) as nat, recursive, so_far),
        )
    }
}

/// A file from whose format no text can be extracted has no terms.
pub proof fn lemma_unsupported_has_no_terms(extension: Option<String>, content: Seq<char>)
    requires
        supported(extension) is None,
    ensures
        document_terms(extension, content) == Map::<Seq<char>, nat>::empty(),
{
    assert(document_terms(extension, content) =~= Map::<Seq<char>, nat>::empty());
}

/// Whether a walk that visits `entry` comes to a regular file with the path
/// `path`: `entry` itself, or a file in the directory `entry` where that is
/// the root of the walk, or a file at any depth under `entry` where the walk
/// is recursive.
pub open spec fn reaches(entry: CorpusEntry, recursive: bool, root: bool, path: Seq<char>) -> bool
    decreases entry, 0nat,
{
    match entry {
        CorpusEntry::File { path: found, extension, content } => found@ == path,
        CorpusEntry::Directory { path: _, entries } => (root || recursive) && reaches_among(
            entries@,
            entries@.len(),
            recursive,
            path,
        ),
        _ => false,
    }
}

/// Whether a walk that visits the first `count` of the entries of a
/// directory comes to a regular file with the path `path`.
pub open spec fn reaches_among(entries: Seq<CorpusEntry>, count: nat, recursive: bool, path: Seq<char>) -> bool
    decreases entries, count,
{
    if count == 0 || count > entries.len() {
        false
    } else {
        reaches_among(entries, (count - 1) as nat, recursive, path) || reaches(
            entries[count - 1],
            recursive,
            false,
            path,
        )
    }
}

/// A walk comes to a file among the first `count` entries of a directory
/// exactly if it comes to that file from one of those entries.
pub proof fn lemma_reaches_among(entries: Seq<CorpusEntry>, count: nat, recursive: bool, path: Seq<char>)
    requires
        count <= entries.len(),
    ensures
        reaches_among(entries, count, recursive, path) <==> exists|i: int|
            0 <= i < count && #[trigger] reaches(entries[i], recursive, false, path),
    decreases count,
{
    if count > 0 {
        lemma_reaches_among(entries, (count - 1) as nat, recursive, path);
        if reaches_among(entries, (count - 1) as nat, recursive, path) {
            let i = choose|i: int| 0 <= i < count - 1 && #[trigger] reaches(entries[i], recursive, false, path);
            assert(reaches(entries[i], recursive, false, path));
        } else if reaches_among(entries, count, recursive, path) {
            assert(reaches(entries[count - 1], recursive, false, path));
        }
        if exists|i: int| 0 <= i < count && #[trigger] reaches(entries[i], recursive, false, path) {
            let i = choose|i: int| 0 <= i < count && #[trigger] reaches(entries[i], recursive, false, path);
            if i < count - 1 {
                assert(reaches(entries[i], recursive, false, path));
            }
        }
    }
}

/// The index of a finished walk holds a document `path` exactly if it held
/// that document before or the walk has come to a regular file `path`.
pub proof fn lemma_visit_keys(
    entry: CorpusEntry,
    recursive: bool,
    root: bool,
    so_far: Result<Gathered, WalkError>,
    path: Seq<char>,
)
    requires
        visit(entry, recursive, root, so_far) is Ok,
    ensures
        so_far is Ok,
        visit(entry, recursive, root, so_far)->Ok_0.index.contains_key(path) <==> (
        so_far->Ok_0.index.contains_key(path) || reaches(entry, recursive, root, path)),
    decreases entry, 0nat,
{
    match entry {
        CorpusEntry::Directory { path: _, entries } => {
            if root || recursive {
                lemma_visit_first_keys(entries@, entries@.len(), recursive, so_far, path);
            }
        },
        _ => {},
    }
}

/// The index of a walk that has visited the first `count` of `entries` holds
/// a document `path` exactly if it held that document before or the walk has
/// come to a regular file `path` among those entries.
pub proof fn lemma_visit_first_keys(
    entries: Seq<CorpusEntry>,
    count: nat,
    recursive: bool,
    so_far: Result<Gathered, WalkError>,
    path: Seq<char>,
)
    requires
        count <= entries.len(),
        visit_first(entries, count, recursive, so_far) is Ok,
    ensures
        so_far is Ok,
        visit_first(entries, count, recursive, so_far)->Ok_0.index.contains_key(path) <==> (
        so_far->Ok_0.index.contains_key(path) || reaches_among(entries, count, recursive, path)),
    decreases entries, count,
{
    if count > 0 {
        let earlier = visit_first(entries, (count - 1) as nat, recursive, so_far);
        lemma_visit_keys(entries[count - 1], recursive, false, earlier, path);
        lemma_visit_first_keys(entries, (count - 1) as nat, recursive, so_far, path);
    }
}

/// The documents of a walk that succeeds are the regular files that it
/// comes to from its root.
pub proof fn lemma_walk_keys(root: CorpusEntry, recursive: bool)
    requires
        walk(root, recursive) is Ok,
    ensures
        forall|path: Seq<char>| #[trigger]
            walk(root, recursive)->Ok_0.index.contains_key(path) <==> reaches(root, recursive, true, path),
{
    assert forall|path: Seq<char>| #[trigger]
        walk(root, recursive)->Ok_0.index.contains_key(path) <==> reaches(root, recursive, true, path) by {
        lemma_visit_keys(root, recursive, true, Ok(nothing_gathered()), path);
    }
}

/// The documents of a walk of a directory that does not descend are the
/// regular files directly inside that directory, and no others.
pub proof fn lemma_flat_walk_keys(root: CorpusEntry)
    requires
        root is Directory,
        walk(root, false) is Ok,
    ensures
        forall|path: Seq<char>|
            walk(root, false)->Ok_0.index.contains_key(path) <==> exists|i: int|
                0 <= i < root->entries@.len() && (#[trigger] root->entries@[i]) is File
                    && root->entries@[i]->File_path@ == path,
{
    let entries = root->entries@;
    assert forall|path: Seq<char>|
        walk(root, false)->Ok_0.index.contains_key(path) <==> exists|i: int|
            0 <= i < entries.len() && (#[trigger] entries[i]) is File && entries[i]->File_path@ == path by {
        lemma_visit_keys(root, false, true, Ok(nothing_gathered()), path);
        lemma_reaches_among(entries, entries.len(), false, path);
        if reaches(root, false, true, path) {
            let i = choose|i: int| 0 <= i < entries.len() && #[trigger] reaches(entries[i], false, false, path);
            assert(entries[i] is File && entries[i]->File_path@ == path);
        }
        if exists|i: int|
            0 <= i < entries.len() && (#[trigger] entries[i]) is File && entries[i]->File_path@ == path {
            let i = choose|i: int|
                0 <= i < entries.len() && (#[trigger] entries[i]) is File && entries[i]->File_path@ == path;
            assert(reaches(entries[i], false, false, path));
        }
    }
}

/// A walk that descends comes to every regular file at any depth: to a file
/// that it visits, and from a directory that it visits to whatever it comes
/// to from one of the entries of that directory.
pub proof fn lemma_deep_reaches(entry: CorpusEntry, root: bool, path: Seq<char>)
    ensures
        reaches(entry, true, root, path) <==> match entry {
            CorpusEntry::File { path: found, extension, content } => found@ == path,
            CorpusEntry::Directory { path: _, entries } => exists|i: int|
                0 <= i < entries@.len() && #[trigger] reaches(entries@[i], true, false, path),
            _ => false,
        },
{
    match entry {
        CorpusEntry::Directory { path: _, entries } => {
            lemma_reaches_among(entries@, entries@.len(), true, path);
        },
        _ => {},
    }
}

/// What a walk starts with: an empty index and no file.
pub open spec fn nothing_gathered() -> Gathered {
    Gathered { index: Map::empty(), documents: Seq::empty() }
}

/// What a walk from `root` gathers, or the error that ends it.
pub open spec fn walk(root: CorpusEntry, recursive: bool) -> Result<Gathered, WalkError> {
    visit(root, recursive, true, Ok(nothing_gathered()))
}

/// A regular file that a walk has visited.
pub struct Document {
    /// The path of the file, which is its id in the index.
    pub path: String,
    /// The format of the file, or `None` where text cannot be extracted
    /// from it.
    pub format: Option<FileFormat>,
    /// The tokens of the text of the file, in order.
    pub tokens: Vec<String>,
}

impl View for Document {
    type V = Visited;

    open spec fn view(&self) -> Visited {
        Visited { path: self.path@, format: self.format, tokens: token_views(self.tokens@) }
    }
}

/// What a walk has found: the index, and the files that it has visited, in
/// the order in which it came to them.
pub struct WalkReport {
    pub index: TermFrequencyIndex,
    pub documents: Vec<Document>,
}

impl View for WalkReport {
    type V = Gathered;

    open spec fn view(&self) -> Gathered {
        Gathered { index: self.index@, documents: Seq::new(self.documents@.len(), |i: int| self.documents@[i]@) }
    }
}

/// The settings of one indexing run.
pub struct IOControl {
    /// The root of the corpus.
    pub path: String,
    /// Where the snapshot of the index goes.
    pub json_path: String,
    /// Whether the walk descends into the directories below the root.
    pub deep: bool,
    /// Whether the run reports each file as it indexes it.
    pub progress: bool,
}

impl IOControl {
    /// The settings of a run that indexes the corpus at `path`.
    pub fn new(path: String, json_path: &str, deep: bool, progress: bool) -> (control: Self)
        ensures
            control.path == path,
            control.json_path@ == json_path@,
            control.deep == deep,
            control.progress == progress,
    {
        Self { path, json_path: json_path.to_owned(), deep, progress }
    }

    /// Walks the corpus found at the root: a regular file is indexed, a
    /// directory is read, and anything else ends the walk with an error.
    pub fn check_file_type(&self, root: &CorpusEntry) -> (outcome: Result<WalkReport, WalkError>)
        ensures
            match walk(*root, self.deep) {
                Ok(gathered) => outcome is Ok && outcome->Ok_0@ == gathered,
                Err(error) => outcome == Err::<WalkReport, WalkError>(error),
            },
            outcome is Ok ==> forall|path: Seq<char>| #[trigger]
                outcome->Ok_0.index@.contains_key(path) <==> reaches(*root, self.deep, true, path),
    {
        let mut report = WalkReport { index: TermFrequencyIndex::new(), documents: Vec::new() };
        assert(report@ =~= nothing_gathered());
        let outcome = match root {
            CorpusEntry::File { path, extension, content } => {
                self.read_file(path, extension, content, &mut report);
                Ok(())
            },
            CorpusEntry::Directory { path: _, entries } => self.read_dir(entries, &mut report),
            CorpusEntry::Other { path: _ } => Err(WalkError::NotAFileOrDirectory),
            CorpusEntry::Missing { path: _ } => Err(WalkError::PathNotFound),
            CorpusEntry::Denied { path: _ } => Err(WalkError::PermissionDenied),
        };
        match outcome {
            Ok(()) => {
                proof {
                    assert(walk(*root, self.deep) == Ok::<Gathered, WalkError>(report@));
                    assert forall|path: Seq<char>| #[trigger]
                        report.index@.contains_key(path) <==> reaches(*root, self.deep, true, path) by {
                        lemma_visit_keys(*root, self.deep, true, Ok(nothing_gathered()), path);
                    }
                }
                Ok(report)
            },
            Err(error) => Err(error),
        }
    }

    /// Visits the entries of a directory in order: indexes the regular
    /// files, reads the directories where the walk is deep, and skips what
    /// is neither.
    fn read_dir(&self, entries: &Vec<CorpusEntry>, report: &mut WalkReport) -> (outcome: Result<
        (),
        WalkError,
    >)
        ensures
            match visit_first(entries@, entries@.len(), self.deep, Ok(old(report)@)) {
                Ok(gathered) => outcome is Ok && final(report)@ == gathered,
                Err(error) => outcome == Err::<(), WalkError>(error),
            },
        decreases entries,
    {
        let ghost start = report@;
        let mut i: usize = 0;
        while i < entries.len()
            invariant
                i <= entries@.len(),
                start == old(report)@,
                visit_first(entries@, i as nat, self.deep, Ok(start)) == Ok::<Gathered, WalkError>(report@),
            decreases entries@.len() - i,
        {
            let ghost before = report@;
            proof {
                assert(visit_first(entries@, (i + 1) as nat, self.deep, Ok(start)) == visit(
                    entries@[i as int],
                    self.deep,
                    false,
                    Ok(before),
                ));
            }
            match &entries[i] {
                CorpusEntry::File { path, extension, content } => {
                    self.read_file(path, extension, content, report);
                },
                CorpusEntry::Directory { path: _, entries: inner } => {
                    if self.deep {
                        match self.read_dir(inner, report) {
                            Ok(()) => {},
                            Err(error) => {
                                proof {
                                    lemma_failed_walk_fails(
                                        entries@,
                                        (i + 1) as nat,
                                        entries@.len(),
                                        self.deep,
                                        Ok(start),
                                    );
                                }
                                return Err(error);
                            },
                        }
                    }
                },
                CorpusEntry::Other { path: _ } => {},
                CorpusEntry::Missing { path: _ } => {
                    proof {
                        lemma_failed_walk_fails(entries@, (i + 1) as nat, entries@.len(), self.deep, Ok(start));
                    }
                    return Err(WalkError::PathNotFound);
                },
                CorpusEntry::Denied { path: _ } => {
                    proof {
                        lemma_failed_walk_fails(entries@, (i + 1) as nat, entries@.len(), self.deep, Ok(start));
                    }
                    return Err(WalkError::PermissionDenied);
                },
            }
            i += 1;
        }
        Ok(())
    }

    /// Enters one regular file into the index: with the terms of its text
    /// where text can be extracted from its format, else without terms.
    fn read_file(&self, path: &String, extension: &Option<String>, content: &String, report: &mut WalkReport)
        ensures
            Ok::<Gathered, WalkError>(final(report)@) == visit(
                CorpusEntry::File { path: *path, extension: *extension, content: *content },
                self.deep,
                false,
                Ok(old(report)@),
            ),
    {
        let format = match extension {
            Some(extension) => FileFormat::from_extension(extension.as_str()),
            None => None,
        };
        let ghost documents = report@.documents;
        let tokens = match format {
            Some(format) => tokens_of(extract_text(format, content.as_str()).as_str()),
            None => Vec::new(),
        };
        assert(token_views(tokens@) =~= document_tokens(*extension, content@));
        let terms = count_terms(&tokens);
        report.index.insert(path.clone(), terms);
        report.documents.push(Document { path: path.clone(), format, tokens });
        assert(report@.documents =~= documents.push(
            Visited { path: path@, format: supported(*extension), tokens: document_tokens(*extension, content@) },
        ));
    }
}

/// A walk that has failed after the first `count` of `entries` has failed
/// after any greater number of them, with the same error.
proof fn lemma_failed_walk_fails(
    entries: Seq<CorpusEntry>,
    count: nat,
    more: nat,
    recursive: bool,
    so_far: Result<Gathered, WalkError>,
)
    requires
        count <= more <= entries.len(),
        visit_first(entries, count, recursive, so_far) is Err,
    ensures
        visit_first(entries, more, recursive, so_far) == visit_first(entries, count, recursive, so_far),
    decreases more,
{
    if more > count {
        lemma_failed_walk_fails(entries, count, (more - 1) as nat, recursive, so_far);
        let earlier = visit_first(entries, (more - 1) as nat, recursive, so_far);
        assert(visit_first(entries, more, recursive, so_far) == visit(
            entries[more - 1],
            recursive,
            false,
            earlier,
        ));
        assert(visit(entries[more - 1], recursive, false, earlier) == earlier);
    }
}

/// A message for the user, by its weight.
pub enum LogLevel {
    ERROR(String),
    WARN(String),
    SIGNAL(String),
}

/// What `level` shows: an error and a warning behind a coloured label, a
/// signal in bold between two line ends.
pub open spec fn shown(level: LogLevel) -> Seq<char> {
    match level {
        LogLevel::ERROR(message) => "\x1B[41m\x1B[1mERROR:\x1B[0m "@ + message@,
        LogLevel::WARN(message) => "\x1B[44m\x1B[1mWARN:\x1B[0m "@ + message@ + " "@,
        LogLevel::SIGNAL(message) => "\n\x1B[1m"@ + message@ + "\x1B[0m\n"@,
    }
}

impl LogLevel {
    /// The text that shows the message.
    pub fn show(&self) -> (text: String)
        ensures
            text@ == shown(*self),
    {
        match self {
            LogLevel::ERROR(message) => String::from_str("\x1B[41m\x1B[1mERROR:\x1B[0m ").concat(message.as_str()),
            LogLevel::WARN(message) => String::from_str("\x1B[44m\x1B[1mWARN:\x1B[0m ").concat(
                message.as_str(),
            ).concat(" "),
            LogLevel::SIGNAL(message) => String::from_str("\n\x1B[1m").concat(message.as_str()).concat(
                "\x1B[0m\n",
            ),
        }
    }

    /// Whether the message goes to the error stream: an error and a warning
    /// do, a signal does not.
    pub fn is_diagnostic(&self) -> (diagnostic: bool)
        ensures
            diagnostic == !(self is SIGNAL),
    {
        match self {
            LogLevel::ERROR(_) => true,
            LogLevel::WARN(_) => true,
            LogLevel::SIGNAL(_) => false,
        }
    }
}

} // verus!
