use lsert::file_types::{extract_text, join_character_data, read_xml_file, FileFormat};

#[test]
fn formats_by_extension() {
    assert_eq!(FileFormat::from_extension("txt"), Some(FileFormat::PlainText));
    assert_eq!(FileFormat::from_extension("xml"), Some(FileFormat::Markup));
    assert_eq!(FileFormat::from_extension("html"), Some(FileFormat::Markup));
    assert_eq!(FileFormat::from_extension("xhtml"), Some(FileFormat::Markup));
}

#[test]
fn other_extensions_have_no_format() {
    assert_eq!(FileFormat::from_extension("exe"), None);
    assert_eq!(FileFormat::from_extension(""), None);
    assert_eq!(FileFormat::from_extension("TXT"), None);
    assert_eq!(FileFormat::from_extension("htm"), None);
    assert_eq!(FileFormat::from_extension(".txt"), None);
    assert_eq!(FileFormat::from_extension("txt "), None);
}

#[test]
fn plain_text_is_its_own_text() {
    assert_eq!(extract_text(FileFormat::PlainText, "<p>dog</p>\n cat"), "<p>dog</p>\n cat");
    assert_eq!(extract_text(FileFormat::PlainText, ""), "");
}

#[test]
fn markup_text_is_the_character_data() {
    assert_eq!(extract_text(FileFormat::Markup, "<a><b>dog</b><c>cat bird</c></a>"), "dog cat bird ");
    assert_eq!(read_xml_file("<a><b>dog</b><c>cat bird</c></a>"), "dog cat bird ");
}

#[test]
fn markup_text_is_trimmed_run_by_run() {
    assert_eq!(read_xml_file("<a>\n  <b>  dog  </b>\n  <c>\tcat\n</c>\n</a>"), "dog cat ");
}

#[test]
fn markup_attributes_and_tags_are_left_out() {
    assert_eq!(read_xml_file("<a href=\"dog\"><img alt=\"cat\"/>bird</a>"), "bird ");
}

#[test]
fn markup_entities_are_resolved() {
    assert_eq!(read_xml_file("<a>dog &amp; cat &lt;3</a>"), "dog & cat <3 ");
}

#[test]
fn markup_cdata_counts_as_characters() {
    assert_eq!(read_xml_file("<a><![CDATA[dog <cat>]]></a>"), "dog <cat> ");
}

#[test]
fn markup_comment_parts_the_text() {
    assert_eq!(read_xml_file("<a>dog<!-- bird -->cat</a>"), "dog cat ");
}

#[test]
fn markup_that_breaks_off_keeps_what_came_before() {
    assert_eq!(read_xml_file("<a><b>dog</b><c>cat"), "dog ");
    assert_eq!(read_xml_file("not markup at all"), "");
    assert_eq!(read_xml_file(""), "");
}

#[test]
fn character_data_is_joined_with_spaces() {
    let events = vec![Some(String::from("dog")), None, Some(String::from("cat bird")), None, None];
    assert_eq!(join_character_data(&events), "dog cat bird ");
    assert_eq!(join_character_data(&vec![None, None]), "");
    assert_eq!(join_character_data(&Vec::new()), "");
    assert_eq!(join_character_data(&vec![Some(String::new())]), " ");
}
