use tfidf_index::extract::{add_document, index_doc, xml_to_string};
use tfidf_index::index::CorpusIndex;

#[test]
fn xml_to_string_keeps_only_character_data() {
    let text = xml_to_string(b"<doc><title>x</title><body>y</body></doc>").unwrap();
    assert_eq!(text, "x y ");
}

#[test]
fn xml_to_string_appends_separator_space() {
    let text = xml_to_string(b"<a>hello</a>").unwrap();
    assert_eq!(text, "hello ");
}

#[test]
fn xml_to_string_drops_markup_and_comments() {
    let text = xml_to_string(b"<a attr=\"ignored\"><!-- note -->kept</a>").unwrap();
    assert_eq!(text, "kept ");
}

#[test]
fn xml_to_string_reports_parse_failure() {
    assert!(xml_to_string(b"<doc>never closed").is_err());
    assert!(xml_to_string(b"plain text, no markup").is_err());
}

#[test]
fn index_doc_counts_extracted_tokens() {
    let tf = index_doc(b"<doc>foo foo bar</doc>").unwrap();
    assert_eq!(tf.get_count(&"FOO".to_string()), 2);
    assert_eq!(tf.get_count(&"BAR".to_string()), 1);
    assert_eq!(tf.total(), 3);
}

#[test]
fn index_doc_fails_on_bad_markup() {
    assert!(index_doc(b"<doc>").is_err());
}

#[test]
fn add_document_skips_failing_document() {
    // One good document and one whose extraction fails: the index ends up
    // with exactly one entry, the failure is reported, nothing is fatal.
    let mut idx = CorpusIndex::new();
    let ok = add_document(&mut idx, "good.xml".to_string(), b"<d>alpha beta</d>");
    assert!(ok.is_ok());
    let skipped = add_document(&mut idx, "bad.xml".to_string(), b"<d>oops");
    assert!(skipped.is_err());
    assert_eq!(idx.len(), 1);
    assert_eq!(idx.path_at(0), "good.xml");
    assert_eq!(idx.freqs_at(0).get_count(&"ALPHA".to_string()), 1);
}
