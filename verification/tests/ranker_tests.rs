use tfidf_index::index::{count_tokens, CorpusIndex, TermFreq};
use tfidf_index::ranker::{idf, search_query, tf, DocScore};

fn chars(s: &str) -> Vec<char> {
    s.chars().collect()
}

/// The floating-point score of one ranked entry, as a consumer of the
/// ranker computes it: sum over query tokens of tf * idf, with tf taken
/// as 0 for an empty document.
fn score_of(d: &DocScore) -> f32 {
    d.terms
        .iter()
        .map(|w| {
            let tf = if w.doc_total == 0 {
                0.0
            } else {
                w.count as f32 / w.doc_total as f32
            };
            let idf = (w.corpus_docs as f32 / w.containing_docs as f32).log10();
            tf * idf
        })
        .sum()
}

#[test]
fn tf_on_empty_document_is_zero() {
    let empty = TermFreq::new();
    let (count, total) = tf("ANYTHING", &empty);
    assert_eq!(count, 0);
    assert_eq!(total, 0);
    // The consumer's division guard makes the term frequency 0.0, with no
    // division-by-zero fault.
    let tf_value = if total == 0 { 0.0 } else { count as f32 / total as f32 };
    assert_eq!(tf_value, 0.0);
}

#[test]
fn tf_is_count_and_total() {
    let doc = count_tokens(&chars("foo foo bar"));
    assert_eq!(tf("FOO", &doc), (2, 3));
    assert_eq!(tf("BAR", &doc), (1, 3));
    assert_eq!(tf("MISSING", &doc), (0, 3));
}

#[test]
fn idf_of_absent_term_is_log10_of_corpus_size() {
    let mut idx = CorpusIndex::new();
    idx.insert("a".to_string(), count_tokens(&chars("foo")));
    idx.insert("b".to_string(), count_tokens(&chars("bar")));
    let (n, m) = idf("UNSEEN", &idx);
    assert_eq!((n, m), (2, 1));
    let idf_value = (n as f32 / m as f32).log10();
    assert_eq!(idf_value, 2.0f32.log10());
}

#[test]
fn idf_counts_containing_documents() {
    let mut idx = CorpusIndex::new();
    idx.insert("a".to_string(), count_tokens(&chars("foo bar")));
    idx.insert("b".to_string(), count_tokens(&chars("foo")));
    idx.insert("c".to_string(), count_tokens(&chars("other")));
    assert_eq!(idf("FOO", &idx), (3, 2));
    assert_eq!(idf("BAR", &idx), (3, 1));
}

#[test]
fn search_is_deterministic() {
    let mut idx = CorpusIndex::new();
    idx.insert("a".to_string(), count_tokens(&chars("foo foo bar")));
    idx.insert("b".to_string(), count_tokens(&chars("bar baz")));
    let q = chars("foo baz");
    let r1 = search_query(&q, &idx);
    let r2 = search_query(&q, &idx);
    assert_eq!(r1, r2);
    let s1: Vec<f32> = r1.iter().map(score_of).collect();
    let s2: Vec<f32> = r2.iter().map(score_of).collect();
    assert_eq!(s1, s2);
}

#[test]
fn search_includes_documents_with_zero_score() {
    let mut idx = CorpusIndex::new();
    idx.insert("a".to_string(), count_tokens(&chars("foo")));
    idx.insert("b".to_string(), count_tokens(&chars("unrelated")));
    let q = chars("foo");
    let results = search_query(&q, &idx);
    assert_eq!(results.len(), 2);
    assert_eq!(results[1].path, "b");
    assert_eq!(results[1].terms[0].count, 0);
}

#[test]
fn two_document_scoring_scenario() {
    // Doc A holds tokens {FOO:3} of 3 total; doc B holds {FOO:1, BAR:3}
    // of 4 total. The query "foo" gives tf(FOO, A) = 1.0 and
    // tf(FOO, B) = 0.25, with one shared idf factor, so A ranks at or
    // above B.
    let mut idx = CorpusIndex::new();
    idx.insert("A".to_string(), count_tokens(&chars("foo foo foo")));
    idx.insert("B".to_string(), count_tokens(&chars("foo bar bar bar")));
    let q = chars("foo");
    let results = search_query(&q, &idx);
    assert_eq!(results.len(), 2);

    let a = &results[0];
    assert_eq!(a.path, "A");
    assert_eq!(a.terms.len(), 1);
    assert_eq!((a.terms[0].count, a.terms[0].doc_total), (3, 3));
    let b = &results[1];
    assert_eq!(b.path, "B");
    assert_eq!((b.terms[0].count, b.terms[0].doc_total), (1, 4));
    // Both share one idf factor, since both contain FOO.
    assert_eq!(a.terms[0].corpus_docs, 2);
    assert_eq!(a.terms[0].containing_docs, 2);
    assert_eq!(b.terms[0].containing_docs, 2);

    let tf_a = a.terms[0].count as f32 / a.terms[0].doc_total as f32;
    let tf_b = b.terms[0].count as f32 / b.terms[0].doc_total as f32;
    assert_eq!(tf_a, 1.0);
    assert_eq!(tf_b, 0.25);
    assert!(score_of(a) >= score_of(b));
}
