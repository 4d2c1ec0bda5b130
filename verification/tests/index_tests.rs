use tfidf_index::index::{count_tokens, CorpusIndex, TermFreq};

fn chars(s: &str) -> Vec<char> {
    s.chars().collect()
}

#[test]
fn count_tokens_counts_occurrences() {
    let cs = chars("foo foo bar");
    let tf = count_tokens(&cs);
    assert_eq!(tf.get_count(&"FOO".to_string()), 2);
    assert_eq!(tf.get_count(&"BAR".to_string()), 1);
    assert_eq!(tf.get_count(&"BAZ".to_string()), 0);
    assert_eq!(tf.total(), 3);
    assert_eq!(tf.len(), 2);
}

#[test]
fn count_tokens_empty_text() {
    let cs = chars("   ");
    let tf = count_tokens(&cs);
    assert_eq!(tf.len(), 0);
    assert_eq!(tf.total(), 0);
}

#[test]
fn term_freq_record_accumulates() {
    let mut tf = TermFreq::new();
    tf.record("X".to_string());
    tf.record("Y".to_string());
    tf.record("X".to_string());
    assert_eq!(tf.get_count(&"X".to_string()), 2);
    assert_eq!(tf.get_count(&"Y".to_string()), 1);
    assert_eq!(tf.total(), 3);
    assert!(tf.contains(&"X".to_string()));
    assert!(!tf.contains(&"Z".to_string()));
}

#[test]
fn term_freq_entry_accessors() {
    let mut tf = TermFreq::new();
    tf.record("A".to_string());
    tf.record("B".to_string());
    assert_eq!(tf.term_at(0), "A");
    assert_eq!(tf.count_at(0), 1);
    assert_eq!(tf.term_at(1), "B");
}

#[test]
fn from_entries_accepts_valid() {
    let tf = TermFreq::from_entries(vec![("A".to_string(), 2), ("B".to_string(), 1)]).unwrap();
    assert_eq!(tf.get_count(&"A".to_string()), 2);
    assert_eq!(tf.total(), 3);
}

#[test]
fn from_entries_rejects_duplicate_key() {
    assert!(TermFreq::from_entries(vec![("A".to_string(), 2), ("A".to_string(), 1)]).is_none());
}

#[test]
fn from_entries_rejects_zero_count() {
    assert!(TermFreq::from_entries(vec![("A".to_string(), 0)]).is_none());
}

#[test]
fn corpus_index_insert_and_lookup() {
    let mut idx = CorpusIndex::new();
    assert_eq!(idx.len(), 0);
    idx.insert("a.xml".to_string(), count_tokens(&chars("foo bar")));
    idx.insert("b.xml".to_string(), count_tokens(&chars("foo")));
    assert_eq!(idx.len(), 2);
    assert_eq!(idx.path_at(0), "a.xml");
    assert_eq!(idx.path_at(1), "b.xml");
    assert_eq!(idx.freqs_at(1).get_count(&"FOO".to_string()), 1);
}

#[test]
fn corpus_index_insert_replaces_existing_path() {
    let mut idx = CorpusIndex::new();
    idx.insert("a.xml".to_string(), count_tokens(&chars("foo")));
    idx.insert("a.xml".to_string(), count_tokens(&chars("bar bar")));
    assert_eq!(idx.len(), 1);
    assert_eq!(idx.freqs_at(0).get_count(&"BAR".to_string()), 2);
    assert_eq!(idx.freqs_at(0).get_count(&"FOO".to_string()), 0);
}

#[test]
fn corpus_index_doc_freq() {
    let mut idx = CorpusIndex::new();
    idx.insert("a".to_string(), count_tokens(&chars("foo bar")));
    idx.insert("b".to_string(), count_tokens(&chars("foo")));
    idx.insert("c".to_string(), count_tokens(&chars("baz")));
    assert_eq!(idx.doc_freq(&"FOO".to_string()), 2);
    assert_eq!(idx.doc_freq(&"BAR".to_string()), 1);
    assert_eq!(idx.doc_freq(&"NONE".to_string()), 0);
}

#[test]
fn from_docs_rejects_duplicate_paths() {
    let d1 = count_tokens(&chars("x"));
    let d2 = count_tokens(&chars("y"));
    assert!(CorpusIndex::from_docs(vec![("p".to_string(), d1), ("p".to_string(), d2)]).is_none());
}
