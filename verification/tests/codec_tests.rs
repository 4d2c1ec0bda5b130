use tfidf_index::codec::{load_index, save_index, LoadError};
use tfidf_index::index::{count_tokens, CorpusIndex};

fn chars(s: &str) -> Vec<char> {
    s.chars().collect()
}

fn load_str(s: &str) -> Result<CorpusIndex, LoadError> {
    load_index(&chars(s))
}

#[test]
fn save_format_is_exact() {
    let mut idx = CorpusIndex::new();
    idx.insert("a.xml".to_string(), count_tokens(&chars("foo foo")));
    let saved: String = save_index(&idx).into_iter().collect();
    assert_eq!(saved, "{\"a.xml\":{\"FOO\":2}}");
}

#[test]
fn save_format_empty_index() {
    let idx = CorpusIndex::new();
    let saved: String = save_index(&idx).into_iter().collect();
    assert_eq!(saved, "{}");
}

#[test]
fn save_load_round_trip() {
    let mut idx = CorpusIndex::new();
    idx.insert("docs/a.xml".to_string(), count_tokens(&chars("foo foo bar")));
    idx.insert("docs/b.xml".to_string(), count_tokens(&chars("baz 1.0 baz")));
    idx.insert("docs/empty.xml".to_string(), count_tokens(&chars("")));
    let saved = save_index(&idx);
    let loaded = load_index(&saved).unwrap();
    assert_eq!(loaded, idx);
}

#[test]
fn save_load_round_trip_with_escapes() {
    // Symbol tokens can be the quote or backslash character itself, and
    // paths may hold them too; both must survive the trip.
    let mut idx = CorpusIndex::new();
    idx.insert(
        "dir\\we\"ird.xml".to_string(),
        count_tokens(&chars("say \"hi\" \\ now")),
    );
    let saved = save_index(&idx);
    let loaded = load_index(&saved).unwrap();
    assert_eq!(loaded, idx);
    assert_eq!(loaded.freqs_at(0).get_count(&"\"".to_string()), 2);
    assert_eq!(loaded.freqs_at(0).get_count(&"\\".to_string()), 1);
}

#[test]
fn load_empty_object_is_empty_index() {
    let idx = load_str("{}").unwrap();
    assert_eq!(idx.len(), 0);
}

#[test]
fn load_reads_counts_back() {
    let idx = load_str("{\"p\":{\"A\":3,\"B\":1}}").unwrap();
    assert_eq!(idx.len(), 1);
    assert_eq!(idx.path_at(0), "p");
    assert_eq!(idx.freqs_at(0).get_count(&"A".to_string()), 3);
    assert_eq!(idx.freqs_at(0).get_count(&"B".to_string()), 1);
    assert_eq!(idx.freqs_at(0).total(), 4);
}

#[test]
fn save_escapes_control_characters() {
    let mut idx = CorpusIndex::new();
    idx.insert("a\nb\u{1}c".to_string(), count_tokens(&chars("foo")));
    let saved: String = save_index(&idx).into_iter().collect();
    assert_eq!(saved, "{\"a\\nb\\u0001c\":{\"FOO\":1}}");
}

#[test]
fn save_load_round_trip_with_control_characters() {
    let mut idx = CorpusIndex::new();
    idx.insert(
        "dir\tx\u{7f}\u{1f}.xml".to_string(),
        count_tokens(&chars("a b")),
    );
    let saved = save_index(&idx);
    let loaded = load_index(&saved).unwrap();
    assert_eq!(loaded, idx);
}

#[test]
fn load_accepts_standard_escapes() {
    let idx = load_str("{\"a\\nb\\t\\/\\u0041\":{\"X\":1}}").unwrap();
    assert_eq!(idx.path_at(0), "a\nb\t/A");
}

#[test]
fn load_rejects_bad_escapes() {
    assert_eq!(load_str("{\"a\\qb\":{\"X\":1}}"), Err(LoadError::Invalid));
    assert_eq!(load_str("{\"a\\u12\":{\"X\":1}}"), Err(LoadError::Invalid));
    assert_eq!(
        load_str("{\"a\\ud800b\":{\"X\":1}}"),
        Err(LoadError::Invalid)
    );
}

#[test]
fn load_rejects_garbage() {
    assert_eq!(load_str("not an index"), Err(LoadError::Invalid));
    assert_eq!(load_str(""), Err(LoadError::Invalid));
    assert_eq!(load_str("["), Err(LoadError::Invalid));
}

#[test]
fn load_rejects_trailing_input() {
    assert_eq!(load_str("{}g"), Err(LoadError::Invalid));
}

#[test]
fn load_rejects_truncated_input() {
    assert_eq!(load_str("{\"p\":{\"A\":3"), Err(LoadError::Invalid));
}

#[test]
fn load_rejects_duplicate_token() {
    assert_eq!(
        load_str("{\"p\":{\"A\":1,\"A\":2}}"),
        Err(LoadError::Invalid)
    );
}

#[test]
fn load_rejects_duplicate_path() {
    assert_eq!(
        load_str("{\"p\":{\"A\":1},\"p\":{\"B\":1}}"),
        Err(LoadError::Invalid)
    );
}

#[test]
fn load_rejects_zero_count() {
    assert_eq!(load_str("{\"p\":{\"A\":0}}"), Err(LoadError::Invalid));
}

#[test]
fn load_rejects_oversized_count() {
    assert_eq!(
        load_str("{\"p\":{\"A\":99999999999999999999999999}}"),
        Err(LoadError::Invalid)
    );
}
