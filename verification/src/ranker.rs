//! The integer core of TF-IDF ranking.
//!
//! A document's score for a query is the sum over the query's tokens of
//! `tf * idf`, where `tf = count / doc_total` (zero when `doc_total` is
//! zero) and `idf = log10(corpus_docs / max(1, containing_docs))`. The
//! logarithm and the division are floating-point work and live with the
//! caller; everything the score depends on — the exact counts, totals and
//! document frequencies — is computed and pinned down here.
use crate::index::{assoc_map, spec_doc_freq, sum_counts, CorpusIndex, TermFreq};
use crate::tokenizer::{tokenize, tokens_of};
use vstd::prelude::*;

verus! {

/// Occurrences of `term` in the document, zero when absent.
pub open spec fn count_in(doc: Seq<(Seq<char>, nat)>, term: Seq<char>) -> nat {
    if assoc_map(doc).contains_key(term) {
        assoc_map(doc)[term]
    } else {
        0
    }
}

/// The floor applied to a document frequency before it divides the corpus
/// size.
pub open spec fn max1(m: nat) -> nat {
    if m < 1 {
        1nat
    } else {
        m
    }
}

/// Everything the TF-IDF contribution of one query token to one document
/// depends on: `tf = count / doc_total` (zero when `doc_total` is zero)
/// and `idf = log10(corpus_docs / containing_docs)`, with the floor
/// already applied to `containing_docs`.
#[derive(Debug, PartialEq)]
pub struct TermWeight {
    pub count: usize,
    pub doc_total: usize,
    pub corpus_docs: usize,
    pub containing_docs: usize,
}

/// One ranked entry: a document and the weight data of every query token
/// against it.
#[derive(Debug, PartialEq)]
pub struct DocScore {
    pub path: String,
    pub terms: Vec<TermWeight>,
}

pub open spec fn weight_view(w: TermWeight) -> (nat, nat, nat, nat) {
    (w.count as nat, w.doc_total as nat, w.corpus_docs as nat, w.containing_docs as nat)
}

pub open spec fn doc_score_view(d: DocScore) -> (Seq<char>, Seq<(nat, nat, nat, nat)>) {
    (d.path@, d.terms@.map_values(|w: TermWeight| weight_view(w)))
}

/// The weight of one term against one document of the corpus.
pub open spec fn spec_term_weight(
    term: Seq<char>,
    doc: Seq<(Seq<char>, nat)>,
    docs: Seq<(Seq<char>, Seq<(Seq<char>, nat)>)>,
) -> (nat, nat, nat, nat) {
    (count_in(doc, term), sum_counts(doc), docs.len(), max1(spec_doc_freq(term, docs)))
}

/// The weights of all query tokens against one document.
pub open spec fn spec_doc_weights(
    toks: Seq<Seq<char>>,
    doc: Seq<(Seq<char>, nat)>,
    docs: Seq<(Seq<char>, Seq<(Seq<char>, nat)>)>,
) -> Seq<(nat, nat, nat, nat)> {
    Seq::new(toks.len(), |i: int| spec_term_weight(toks[i], doc, docs))
}

/// The whole search result: one entry per document of the corpus, in index
/// order, with the weights of every token of the tokenized query.
pub open spec fn spec_search(q: Seq<char>, docs: Seq<(Seq<char>, Seq<(Seq<char>, nat)>)>) -> Seq<
    (Seq<char>, Seq<(nat, nat, nat, nat)>),
> {
    Seq::new(docs.len(), |d: int| (docs[d].0, spec_doc_weights(tokens_of(q), docs[d].1, docs)))
}

/// Term frequency data of `term` in one document: its count and the
/// document's total count. The term frequency itself is `count / total`,
/// taken as zero when the document is empty (`total == 0`), which is what
/// makes an empty document safe to score.
pub fn tf(term: &str, map: &TermFreq) -> (r: (usize, usize))
    requires
        map.wf(),
    ensures
        r.0 as nat == count_in(map.entries_view(), term@),
        r.1 as nat == sum_counts(map.entries_view()),
{
    let t = term.to_owned();
    (map.get_count(&t), map.total())
}

/// Inverse document frequency data of `term` in the corpus: the number of
/// documents and the floored number of documents containing the term. The
/// idf itself is `log10(r.0 / r.1)`; the floor keeps it finite for a term
/// that no document contains.
pub fn idf(term: &str, tfi: &CorpusIndex) -> (r: (usize, usize))
    requires
        tfi.wf(),
    ensures
        r.0 as nat == tfi.docs_view().len(),
        r.1 as nat == max1(spec_doc_freq(term@, tfi.docs_view())),
{
    let t = term.to_owned();
    let n = tfi.len();
    let m = tfi.doc_freq(&t);
    let floored = if m < 1 {
        1
    } else {
        m
    };
    (n, floored)
}

/// An empty document has a zero count for every term, and a zero total: its
/// term frequency is zero for all terms, with no division performed.
pub proof fn lemma_tf_empty_doc(term: Seq<char>, doc: Seq<(Seq<char>, nat)>)
    requires
        doc.len() == 0,
    ensures
        count_in(doc, term) == 0,
        sum_counts(doc) == 0,
{
    assert(!assoc_map(doc).contains_key(term));
}

/// A term absent from every document has document frequency zero, so its
/// floored document frequency is one and its idf is `log10(N / 1)`: the
/// maximum over the corpus.
pub proof fn lemma_idf_absent_term(term: Seq<char>, docs: Seq<(Seq<char>, Seq<(Seq<char>, nat)>)>)
    requires
        forall|i: int|
            0 <= i < docs.len() ==> !assoc_map((#[trigger] docs[i]).1).contains_key(term),
    ensures
        spec_doc_freq(term, docs) == 0,
        max1(spec_doc_freq(term, docs)) == 1,
    decreases docs.len(),
{
    if docs.len() > 0 {
        assert(forall|i: int|
            0 <= i < docs.len() - 1 ==> (#[trigger] docs.drop_last()[i]) == docs[i]);
        lemma_idf_absent_term(term, docs.drop_last());
        assert(docs[docs.len() - 1] == docs.last());
    }
}

/// Ranking is deterministic: the search result is a function of the query
/// and the index alone, so any two results of the same search coincide.
pub proof fn lemma_search_deterministic(
    q: Seq<char>,
    docs: Seq<(Seq<char>, Seq<(Seq<char>, nat)>)>,
    r1: Seq<(Seq<char>, Seq<(nat, nat, nat, nat)>)>,
    r2: Seq<(Seq<char>, Seq<(nat, nat, nat, nat)>)>,
)
    requires
        r1 == spec_search(q, docs),
        r2 == spec_search(q, docs),
    ensures
        r1 == r2,
{
}

/// Scores a query against the whole corpus: tokenizes the query with the
/// same tokenizer as indexing, computes each token's document frequency
/// once, and returns, per document of the index and in index order, the
/// exact weight data of every query token. The caller turns each entry
/// into a score (the sum of `tf * idf`) and sorts by it, descending.
pub fn search_query(query: &[char], tfi: &CorpusIndex) -> (results: Vec<DocScore>)
    requires
        tfi.wf(),
    ensures
        results@.map_values(|d: DocScore| doc_score_view(d)) == spec_search(
            query@,
            tfi.docs_view(),
        ),
{
    let ghost docs = tfi.docs_view();
    let ghost toksv = tokens_of(query@);
    let toks = tokenize(query);
    let n_toks = toks.len();
    let n_docs = tfi.len();
    let mut dfs: Vec<usize> = Vec::new();
    let mut k: usize = 0;
    while k < n_toks
        invariant
            k <= n_toks,
            n_toks == toks@.len(),
            toks.deep_view() == toksv,
            tfi.wf(),
            docs == tfi.docs_view(),
            dfs@.len() == k,
            forall|j: int|
                0 <= j < k ==> (#[trigger] dfs@[j]) as nat == max1(spec_doc_freq(toksv[j], docs)),
        decreases n_toks - k,
    {
        let m = tfi.doc_freq(&toks[k]);
        let floored = if m < 1 {
            1
        } else {
            m
        };
        assert(toks@[k as int]@ == toksv[k as int]);
        dfs.push(floored);
        k = k + 1;
    }
    let mut results: Vec<DocScore> = Vec::new();
    let mut d: usize = 0;
    while d < n_docs
        invariant
            d <= n_docs,
            n_docs == docs.len(),
            n_toks == toks@.len(),
            toks.deep_view() == toksv,
            tfi.wf(),
            docs == tfi.docs_view(),
            dfs@.len() == n_toks,
            forall|j: int|
                0 <= j < n_toks ==> (#[trigger] dfs@[j]) as nat == max1(
                    spec_doc_freq(toksv[j], docs),
                ),
            results@.len() == d,
            forall|e: int|
                0 <= e < d ==> doc_score_view(#[trigger] results@[e]) == (
                docs[e].0,
                spec_doc_weights(toksv, docs[e].1, docs),
                ),
        decreases n_docs - d,
    {
        let path = tfi.path_at(d).clone();
        let tfd = tfi.freqs_at(d);
        let total = tfd.total();
        let ghost doc = docs[d as int].1;
        let mut weights: Vec<TermWeight> = Vec::new();
        let mut k2: usize = 0;
        while k2 < n_toks
            invariant
                k2 <= n_toks,
                n_toks == toks@.len(),
                toks.deep_view() == toksv,
                tfd.wf(),
                tfd.entries_view() == doc,
                total as nat == sum_counts(doc),
                n_docs == docs.len(),
                dfs@.len() == n_toks,
                forall|j: int|
                    0 <= j < n_toks ==> (#[trigger] dfs@[j]) as nat == max1(
                        spec_doc_freq(toksv[j], docs),
                    ),
                weights@.len() == k2,
                forall|j: int|
                    0 <= j < k2 ==> weight_view(#[trigger] weights@[j]) == spec_term_weight(
                        toksv[j],
                        doc,
                        docs,
                    ),
            decreases n_toks - k2,
        {
            let c = tfd.get_count(&toks[k2]);
            assert(toks@[k2 as int]@ == toksv[k2 as int]);
            weights.push(
                TermWeight { count: c, doc_total: total, corpus_docs: n_docs, containing_docs: dfs[k2] },
            );
            k2 = k2 + 1;
        }
        proof {
            assert(weights@.map_values(|w: TermWeight| weight_view(w)) =~= spec_doc_weights(
                toksv,
                doc,
                docs,
            ));
        }
        results.push(DocScore { path, terms: weights });
        d = d + 1;
    }
    proof {
        assert(results@.map_values(|ds: DocScore| doc_score_view(ds)) =~= spec_search(
            query@,
            docs,
        ));
    }
    results
}

} // verus!
