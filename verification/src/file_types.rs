//! The text extractor: what text a file of a given format holds.

use vstd::prelude::*;
use vstd::string::StringExecFns;
use xml::reader::{EventReader, ParserConfig, XmlEvent};

verus! {

/// The formats that text can be extracted from.
#[derive(Clone, Copy, Debug, PartialEq, Eq, Structural)]
pub enum FileFormat {
    /// Plain text: the content is the text.
    PlainText,
    /// Markup of the XML family: the text is what stands between the tags.
    Markup,
}

/// The format that a file with the extension `extension` has, if text can be
/// extracted from it. Extensions are compared as they are written, upper
/// and lower case kept apart.
pub open spec fn format_of(extension: Seq<char>) -> Option<FileFormat> {
    if extension == "xhtml"@ || extension == "html"@ || extension == "xml"@ {
        Some(FileFormat::Markup)
    } else if extension == "txt"@ {
        Some(FileFormat::PlainText)
    } else {
        None
    }
}

/// Whether two strings hold the same characters.
fn same_text(a: &str, b: &str) -> (same: bool)
    ensures
        same == (a@ == b@),
{
    a.to_owned() == b.to_owned()
}

impl FileFormat {
    /// The format of a file with the extension `extension`, or `None` where
    /// no text can be extracted from such a file.
    pub fn from_extension(extension: &str) -> (format: Option<FileFormat>)
        ensures
            format == format_of(extension@),
    {
        if same_text(extension, "xhtml") || same_text(extension, "html") || same_text(extension, "xml") {
            Some(FileFormat::Markup)
        } else if same_text(extension, "txt") {
            Some(FileFormat::PlainText)
        } else {
            None
        }
    }
}

/// The events that the XML reader yields for the document `source`, read
/// with the settings given, each reduced to its character data: `Some` of
/// the text for a run of characters, `None` for any other event and for an
/// error.
pub uninterp spec fn xml_character_data(
    source: Seq<char>,
    trim_whitespace: bool,
    cdata_to_characters: bool,
    ignore_comments: bool,
) -> Seq<Option<Seq<char>>>;

/// The character data of each element of `events`.
pub open spec fn character_data_views(events: Seq<Option<String>>) -> Seq<Option<Seq<char>>> {
    Seq::new(
        events.len(),
        |i: int|
            match events[i] {
                Some(text) => Some(text@),
                None => None,
            },
    )
}

/// Runs `xml::reader::EventReader` over `source` until it ends the document
/// or fails, with `xml::reader::ParserConfig::new()` changed in the three
/// settings given, and hands out each event's character data. The reader
/// works on the bytes of `source` alone, so the same source and settings
/// give the same events.
#[verifier::external_body]
fn read_character_data(
    source: &str,
    trim_whitespace: bool,
    cdata_to_characters: bool,
    ignore_comments: bool,
) -> (events: Vec<Option<String>>)
    ensures
        character_data_views(events@) == xml_character_data(
            source@,
            trim_whitespace,
            cdata_to_characters,
            ignore_comments,
        ),
{
    let config = ParserConfig::new().trim_whitespace(trim_whitespace).cdata_to_characters(
        cdata_to_characters,
    ).ignore_comments(ignore_comments);
    let mut events = Vec::new();
    for event in EventReader::new_with_config(source.as_bytes(), config) {
        events.push(match event {
            Ok(XmlEvent::Characters(text)) => Some(text),
            Ok(_) => None,
            Err(_) => None,
        });
    }
    events
}

/// The texts of `events`, each followed by one space.
pub open spec fn spaced(events: Seq<Option<Seq<char>>>) -> Seq<char>
    decreases events.len(),
{
    if events.len() == 0 {
        Seq::empty()
    } else {
        spaced(events.drop_last()) + match events.last() {
            Some(text) => text + seq![' '],
            None => Seq::empty(),
        }
    }
}

/// The texts of `events`, each followed by one space.
pub fn join_character_data(events: &Vec<Option<String>>) -> (text: String)
    ensures
        text@ == spaced(character_data_views(events@)),
{
    let mut text = String::new();
    let ghost all = character_data_views(events@);
    let mut i: usize = 0;
    assert(all.take(0) =~= Seq::<Option<Seq<char>>>::empty());
    while i < events.len()
        invariant
            i <= events@.len(),
            all == character_data_views(events@),
            text@ == spaced(all.take(i as int)),
        decreases events@.len() - i,
    {
        proof {
            assert(all.take(i + 1).drop_last() =~= all.take(i as int));
            assert(all.take(i + 1).last() == all[i as int]);
            reveal_strlit(" ");
            assert(" "@ =~= seq![' ']);
        }
        match &events[i] {
            Some(characters) => {
                text.append(characters.as_str());
                text.append(" ");
                assert(text@ =~= spaced(all.take(i as int)) + (characters@ + seq![' ']));
            },
            None => {
                assert(text@ =~= spaced(all.take(i as int)) + Seq::<char>::empty());
            },
        }
        i += 1;
    }
    assert(all.take(events@.len() as int) =~= all);
    text
}

/// The text of a markup document: its character data with the tags left
/// out, leading and trailing white space trimmed from each run, CDATA taken
/// as characters and comments kept apart from the text.
pub open spec fn markup_text(source: Seq<char>) -> Seq<char> {
    spaced(xml_character_data(source, true, true, false))
}

/// The text that a file of the format `format` with the content `source`
/// holds.
pub open spec fn extracted_text(format: FileFormat, source: Seq<char>) -> Seq<char> {
    match format {
        FileFormat::PlainText => source,
        FileFormat::Markup => markup_text(source),
    }
}

/// The text of the markup document `source`.
pub fn read_xml_file(source: &str) -> (text: String)
    ensures
        text@ == markup_text(source@),
{
    let events = read_character_data(source, true, true, false);
    join_character_data(&events)
}

/// The text that a file of the format `format` with the content `source`
/// holds.
pub fn extract_text(format: FileFormat, source: &str) -> (text: String)
    ensures
        text@ == extracted_text(format, source@),
{
    match format {
        FileFormat::PlainText => source.to_owned(),
        FileFormat::Markup => read_xml_file(source),
    }
}

} // verus!
