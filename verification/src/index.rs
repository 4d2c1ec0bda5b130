//! Per-document term counts and the corpus-wide index.
//!
//! A [`TermFreq`] maps each token of one document to the number of times it
//! occurred (always at least once), and carries the total number of tokens.
//! A [`CorpusIndex`] maps each document path to its [`TermFreq`]. Both are
//! association vectors with unique keys; their views are the corresponding
//! mathematical maps.
use crate::tokenizer::{tokens_of, Lexer};
use vstd::prelude::*;

verus! {

/// The map an association sequence stands for: later entries win.
pub open spec fn assoc_map<V>(es: Seq<(Seq<char>, V)>) -> Map<Seq<char>, V>
    decreases es.len(),
{
    if es.len() == 0 {
        Map::empty()
    } else {
        assoc_map(es.drop_last()).insert(es.last().0, es.last().1)
    }
}

/// All keys of the association sequence differ.
pub open spec fn keys_unique<V>(es: Seq<(Seq<char>, V)>) -> bool {
    forall|i: int, j: int| 0 <= i < j < es.len() ==> es[i].0 != es[j].0
}

pub proof fn lemma_assoc_contains<V>(es: Seq<(Seq<char>, V)>, k: Seq<char>)
    ensures
        assoc_map(es).contains_key(k) <==> exists|i: int|
            0 <= i < es.len() && (#[trigger] es[i]).0 == k,
    decreases es.len(),
{
    if es.len() > 0 {
        lemma_assoc_contains(es.drop_last(), k);
        if es.last().0 == k {
            assert(es[es.len() - 1].0 == k);
        } else if assoc_map(es).contains_key(k) {
            let i = choose|i: int| 0 <= i < es.drop_last().len() && (#[trigger] es.drop_last()[i]).0
                == k;
            assert(es[i].0 == k);
        } else {
            assert forall|i: int| 0 <= i < es.len() implies (#[trigger] es[i]).0 != k by {
                if i < es.len() - 1 {
                    assert(es.drop_last()[i].0 == es[i].0);
                }
            }
        }
    }
}

pub proof fn lemma_assoc_lookup<V>(es: Seq<(Seq<char>, V)>, i: int)
    requires
        keys_unique(es),
        0 <= i < es.len(),
    ensures
        assoc_map(es).contains_key(es[i].0),
        assoc_map(es)[es[i].0] == es[i].1,
    decreases es.len(),
{
    if i == es.len() - 1 {
    } else {
        assert(forall|a: int, b: int|
            0 <= a < b < es.len() - 1 ==> (#[trigger] es.drop_last()[a]).0 != (
            #[trigger] es.drop_last()[b]).0);
        assert(es.drop_last()[i] == es[i]);
        lemma_assoc_lookup(es.drop_last(), i);
        assert(es[i].0 != es.last().0);
    }
}

pub proof fn lemma_assoc_update<V>(es: Seq<(Seq<char>, V)>, i: int, v: V)
    requires
        keys_unique(es),
        0 <= i < es.len(),
    ensures
        assoc_map(es.update(i, (es[i].0, v))) == assoc_map(es).insert(es[i].0, v),
    decreases es.len(),
{
    let es2 = es.update(i, (es[i].0, v));
    if i == es.len() - 1 {
        assert(es2.drop_last() =~= es.drop_last());
        assert(assoc_map(es2) =~= assoc_map(es).insert(es[i].0, v));
    } else {
        assert(forall|a: int, b: int|
            0 <= a < b < es.len() - 1 ==> (#[trigger] es.drop_last()[a]).0 != (
            #[trigger] es.drop_last()[b]).0);
        assert(es.drop_last()[i] == es[i]);
        lemma_assoc_update(es.drop_last(), i, v);
        assert(es2.drop_last() =~= es.drop_last().update(i, (es[i].0, v)));
        assert(es2.last() == es.last());
        assert(es[i].0 != es.last().0);
        assert(assoc_map(es2) =~= assoc_map(es).insert(es[i].0, v));
    }
}

/// Sum of the counts of an association sequence.
pub open spec fn sum_counts(es: Seq<(Seq<char>, nat)>) -> nat
    decreases es.len(),
{
    if es.len() == 0 {
        0
    } else {
        sum_counts(es.drop_last()) + es.last().1
    }
}

pub proof fn lemma_count_le_sum(es: Seq<(Seq<char>, nat)>, i: int)
    requires
        0 <= i < es.len(),
    ensures
        es[i].1 <= sum_counts(es),
    decreases es.len(),
{
    if i < es.len() - 1 {
        assert(es.drop_last()[i] == es[i]);
        lemma_count_le_sum(es.drop_last(), i);
    }
}

pub proof fn lemma_sum_update(es: Seq<(Seq<char>, nat)>, i: int, v: nat)
    requires
        0 <= i < es.len(),
    ensures
        sum_counts(es.update(i, (es[i].0, v))) == sum_counts(es) - es[i].1 + v,
    decreases es.len(),
{
    let es2 = es.update(i, (es[i].0, v));
    if i == es.len() - 1 {
        assert(es2.drop_last() =~= es.drop_last());
    } else {
        assert(es2.drop_last() =~= es.drop_last().update(i, (es[i].0, v)));
        assert(es.drop_last()[i] == es[i]);
        lemma_sum_update(es.drop_last(), i, v);
        assert(es2.last() == es.last());
    }
}

pub proof fn lemma_sum_take_le(es: Seq<(Seq<char>, nat)>, i: int)
    requires
        0 <= i <= es.len(),
    ensures
        sum_counts(es.take(i)) <= sum_counts(es),
    decreases es.len() - i,
{
    if i == es.len() {
        assert(es.take(i) =~= es);
    } else {
        assert(es.take(i + 1).drop_last() =~= es.take(i));
        lemma_sum_take_le(es, i + 1);
    }
}

/// Token occurrence counts of a token sequence, as a map.
pub open spec fn token_counts(toks: Seq<Seq<char>>) -> Map<Seq<char>, nat>
    decreases toks.len(),
{
    if toks.len() == 0 {
        Map::empty()
    } else {
        let m = token_counts(toks.drop_last());
        let t = toks.last();
        m.insert(
            t,
            1 + if m.contains_key(t) {
                m[t]
            } else {
                0
            },
        )
    }
}

/// The view of a plain entry vector.
pub open spec fn entry_seq_view(es: Seq<(String, usize)>) -> Seq<(Seq<char>, nat)> {
    es.map_values(|e: (String, usize)| (e.0@, e.1 as nat))
}

/// Validity of term-count entries: unique keys, positive counts, and a
/// total that fits the machine.
pub open spec fn tf_entries_valid(es: Seq<(Seq<char>, nat)>) -> bool {
    &&& keys_unique(es)
    &&& (forall|i: int| 0 <= i < es.len() ==> 1 <= (#[trigger] es[i]).1)
    &&& sum_counts(es) <= usize::MAX
}

/// Term-to-count map of one document.
#[derive(Debug, PartialEq)]
pub struct TermFreq {
    entries: Vec<(String, usize)>,
    total: usize,
}

impl View for TermFreq {
    type V = Map<Seq<char>, nat>;

    open spec fn view(&self) -> Map<Seq<char>, nat> {
        assoc_map(self.entries_view())
    }
}

impl TermFreq {
    /// The entries in insertion order.
    pub closed spec fn entries_view(&self) -> Seq<(Seq<char>, nat)> {
        entry_seq_view(self.entries@)
    }

    /// Total number of token occurrences recorded.
    pub open spec fn total_count(&self) -> nat {
        sum_counts(self.entries_view())
    }

    pub closed spec fn wf(&self) -> bool {
        &&& tf_entries_valid(self.entries_view())
        &&& self.total as nat == sum_counts(self.entries_view())
    }

    pub fn new() -> (tf: TermFreq)
        ensures
            tf.wf(),
            tf@ == Map::<Seq<char>, nat>::empty(),
            tf.entries_view() == Seq::<(Seq<char>, nat)>::empty(),
    {
        let tf = TermFreq { entries: Vec::new(), total: 0 };
        proof {
            assert(tf.entries_view() =~= Seq::<(Seq<char>, nat)>::empty());
        }
        tf
    }

    pub fn len(&self) -> (n: usize)
        ensures
            n == self.entries_view().len(),
    {
        self.entries.len()
    }

    pub fn term_at(&self, i: usize) -> (t: &String)
        requires
            i < self.entries_view().len(),
        ensures
            t@ == self.entries_view()[i as int].0,
    {
        &self.entries[i].0
    }

    pub fn count_at(&self, i: usize) -> (c: usize)
        requires
            i < self.entries_view().len(),
        ensures
            c as nat == self.entries_view()[i as int].1,
    {
        self.entries[i].1
    }

    fn find_entry(&self, term: &String) -> (r: Option<usize>)
        ensures
            r matches Some(i) ==> i < self.entries_view().len() && self.entries_view()[i as int].0
                == term@,
            r is None ==> forall|j: int|
                0 <= j < self.entries_view().len() ==> (#[trigger] self.entries_view()[j]).0
                    != term@,
    {
        let n = self.entries.len();
        let mut i: usize = 0;
        while i < n
            invariant
                i <= n,
                n == self.entries@.len(),
                forall|j: int| 0 <= j < i ==> (#[trigger] self.entries_view()[j]).0 != term@,
            decreases n - i,
        {
            if self.entries[i].0 == *term {
                assert(self.entries_view()[i as int].0 == term@);
                return Some(i);
            }
            assert(self.entries_view()[i as int].0 != term@);
            i = i + 1;
        }
        None
    }

    /// Whether this document contains the given term.
    pub fn contains(&self, term: &String) -> (r: bool)
        ensures
            r == self@.contains_key(term@),
    {
        proof {
            lemma_assoc_contains(self.entries_view(), term@);
        }
        match self.find_entry(term) {
            Some(i) => {
                assert(self.entries_view()[i as int].0 == term@);
                true
            },
            None => false,
        }
    }

    /// The number of occurrences of `term`, zero when absent.
    pub fn get_count(&self, term: &String) -> (c: usize)
        requires
            self.wf(),
        ensures
            c as nat == if self@.contains_key(term@) {
                self@[term@]
            } else {
                0
            },
    {
        proof {
            lemma_assoc_contains(self.entries_view(), term@);
        }
        match self.find_entry(term) {
            Some(i) => {
                proof {
                    lemma_assoc_lookup(self.entries_view(), i as int);
                }
                self.entries[i].1
            },
            None => 0,
        }
    }

    /// Total number of token occurrences in this document.
    pub fn total(&self) -> (t: usize)
        requires
            self.wf(),
        ensures
            t as nat == self.total_count(),
    {
        self.total
    }

    /// Records one more occurrence of `token`.
    pub fn record(&mut self, token: String)
        requires
            old(self).wf(),
            old(self).total_count() < usize::MAX,
        ensures
            final(self).wf(),
            final(self)@ == old(self)@.insert(
                token@,
                1 + if old(self)@.contains_key(token@) {
                    old(self)@[token@]
                } else {
                    0
                },
            ),
            final(self).total_count() == old(self).total_count() + 1,
    {
        let ghost es = old(self).entries_view();
        proof {
            lemma_assoc_contains(es, token@);
        }
        match self.find_entry(&token) {
            Some(i) => {
                proof {
                    lemma_assoc_lookup(es, i as int);
                    lemma_count_le_sum(es, i as int);
                    lemma_sum_update(es, i as int, (es[i as int].1 + 1) as nat);
                    lemma_assoc_update(es, i as int, (es[i as int].1 + 1) as nat);
                }
                let c = self.entries[i].1;
                let key = self.entries[i].0.clone();
                self.entries.set(i, (key, c + 1));
                self.total = self.total + 1;
                proof {
                    assert(self.entries_view() =~= es.update(
                        i as int,
                        (es[i as int].0, (es[i as int].1 + 1) as nat),
                    ));
                    assert(es[i as int].0 == token@);
                }
            },
            None => {
                self.entries.push((token, 1));
                self.total = self.total + 1;
                proof {
                    assert(self.entries_view().drop_last() =~= es);
                    assert(self.entries_view().last().1 == 1nat);
                    assert(forall|j: int|
                        0 <= j < es.len() ==> (#[trigger] self.entries_view()[j]) == es[j]);
                }
            },
        }
    }

    /// Builds a term-frequency map from plain entries, rejecting entry
    /// lists that are not valid (a duplicate key, a zero count, or a total
    /// that overflows).
    pub fn from_entries(entries: Vec<(String, usize)>) -> (r: Option<TermFreq>)
        ensures
            r is Some <==> tf_entries_valid(entry_seq_view(entries@)),
            r matches Some(tf) ==> tf.wf() && tf.entries_view() == entry_seq_view(entries@),
    {
        let ghost es = entry_seq_view(entries@);
        let n = entries.len();
        let mut i: usize = 0;
        while i < n
            invariant
                i <= n,
                n == entries@.len(),
                es == entry_seq_view(entries@),
                forall|a: int, b: int| 0 <= a < b < es.len() && a < i ==> es[a].0 != es[b].0,
                forall|a: int| 0 <= a < i ==> 1 <= (#[trigger] es[a]).1,
            decreases n - i,
        {
            if entries[i].1 == 0 {
                assert(es[i as int].1 == 0);
                return None;
            }
            assert(1 <= es[i as int].1);
            let mut j: usize = i + 1;
            while j < n
                invariant
                    i < j <= n,
                    n == entries@.len(),
                    es == entry_seq_view(entries@),
                    forall|b: int| i < b < j ==> es[i as int].0 != (#[trigger] es[b]).0,
                decreases n - j,
            {
                if entries[i].0 == entries[j].0 {
                    assert(es[i as int].0 == es[j as int].0);
                    return None;
                }
                assert(es[i as int].0 != es[j as int].0);
                j = j + 1;
            }
            i = i + 1;
        }
        let mut total: usize = 0;
        let mut k: usize = 0;
        while k < n
            invariant
                k <= n,
                n == entries@.len(),
                es == entry_seq_view(entries@),
                keys_unique(es),
                forall|a: int| 0 <= a < es.len() ==> 1 <= (#[trigger] es[a]).1,
                total as nat == sum_counts(es.take(k as int)),
            decreases n - k,
        {
            proof {
                assert(es.take(k + 1).drop_last() =~= es.take(k as int));
                assert(es.take(k + 1).last() == es[k as int]);
            }
            match total.checked_add(entries[k].1) {
                Some(t) => {
                    total = t;
                },
                None => {
                    proof {
                        lemma_sum_take_le(es, k + 1);
                    }
                    return None;
                },
            }
            k = k + 1;
        }
        proof {
            assert(es.take(n as int) =~= es);
        }
        let tf = TermFreq { entries, total };
        Some(tf)
    }
}

/// The view of a plain document vector.
pub open spec fn doc_seq_view(ds: Seq<(String, TermFreq)>) -> Seq<
    (Seq<char>, Seq<(Seq<char>, nat)>),
> {
    ds.map_values(|d: (String, TermFreq)| (d.0@, d.1.entries_view()))
}

/// Map view of a whole index, from its sequence of documents.
pub open spec fn index_map_of(docs: Seq<(Seq<char>, Seq<(Seq<char>, nat)>)>) -> Map<
    Seq<char>,
    Map<Seq<char>, nat>,
>
    decreases docs.len(),
{
    if docs.len() == 0 {
        Map::empty()
    } else {
        index_map_of(docs.drop_last()).insert(docs.last().0, assoc_map(docs.last().1))
    }
}

pub proof fn lemma_index_map_update(
    docs: Seq<(Seq<char>, Seq<(Seq<char>, nat)>)>,
    i: int,
    v: Seq<(Seq<char>, nat)>,
)
    requires
        keys_unique(docs),
        0 <= i < docs.len(),
    ensures
        index_map_of(docs.update(i, (docs[i].0, v))) == index_map_of(docs).insert(
            docs[i].0,
            assoc_map(v),
        ),
    decreases docs.len(),
{
    let ds2 = docs.update(i, (docs[i].0, v));
    if i == docs.len() - 1 {
        assert(ds2.drop_last() =~= docs.drop_last());
        assert(index_map_of(ds2) =~= index_map_of(docs).insert(docs[i].0, assoc_map(v)));
    } else {
        assert(forall|a: int, b: int|
            0 <= a < b < docs.len() - 1 ==> (#[trigger] docs.drop_last()[a]).0 != (
            #[trigger] docs.drop_last()[b]).0);
        assert(docs.drop_last()[i] == docs[i]);
        lemma_index_map_update(docs.drop_last(), i, v);
        assert(ds2.drop_last() =~= docs.drop_last().update(i, (docs[i].0, v)));
        assert(ds2.last() == docs.last());
        assert(docs[i].0 != docs.last().0);
        assert(index_map_of(ds2) =~= index_map_of(docs).insert(docs[i].0, assoc_map(v)));
    }
}

/// The corpus index: one entry per successfully processed document.
#[derive(Debug, PartialEq)]
pub struct CorpusIndex {
    docs: Vec<(String, TermFreq)>,
}

impl View for CorpusIndex {
    type V = Map<Seq<char>, Map<Seq<char>, nat>>;

    open spec fn view(&self) -> Map<Seq<char>, Map<Seq<char>, nat>> {
        index_map_of(self.docs_view())
    }
}

impl CorpusIndex {
    /// The documents in insertion order, with their entry sequences.
    pub closed spec fn docs_view(&self) -> Seq<(Seq<char>, Seq<(Seq<char>, nat)>)> {
        doc_seq_view(self.docs@)
    }

    pub closed spec fn wf(&self) -> bool {
        &&& keys_unique(self.docs_view())
        &&& (forall|i: int| 0 <= i < self.docs@.len() ==> (#[trigger] self.docs@[i]).1.wf())
    }

    pub fn new() -> (idx: CorpusIndex)
        ensures
            idx.wf(),
            idx@ == Map::<Seq<char>, Map<Seq<char>, nat>>::empty(),
            idx.docs_view() == Seq::<(Seq<char>, Seq<(Seq<char>, nat)>)>::empty(),
    {
        let idx = CorpusIndex { docs: Vec::new() };
        proof {
            assert(idx.docs_view() =~= Seq::<(Seq<char>, Seq<(Seq<char>, nat)>)>::empty());
        }
        idx
    }

    /// Number of documents in the index.
    pub fn len(&self) -> (n: usize)
        ensures
            n == self.docs_view().len(),
    {
        self.docs.len()
    }

    pub fn path_at(&self, i: usize) -> (p: &String)
        requires
            i < self.docs_view().len(),
        ensures
            p@ == self.docs_view()[i as int].0,
    {
        &self.docs[i].0
    }

    pub fn freqs_at(&self, i: usize) -> (tf: &TermFreq)
        requires
            i < self.docs_view().len(),
        ensures
            tf.entries_view() == self.docs_view()[i as int].1,
            self.wf() ==> tf.wf(),
    {
        &self.docs[i].1
    }

    fn find_doc(&self, path: &String) -> (r: Option<usize>)
        ensures
            r matches Some(i) ==> i < self.docs_view().len() && self.docs_view()[i as int].0
                == path@,
            r is None ==> forall|j: int|
                0 <= j < self.docs_view().len() ==> (#[trigger] self.docs_view()[j]).0 != path@,
    {
        let n = self.docs.len();
        let mut i: usize = 0;
        while i < n
            invariant
                i <= n,
                n == self.docs@.len(),
                forall|j: int| 0 <= j < i ==> (#[trigger] self.docs_view()[j]).0 != path@,
            decreases n - i,
        {
            if self.docs[i].0 == *path {
                assert(self.docs_view()[i as int].0 == path@);
                return Some(i);
            }
            assert(self.docs_view()[i as int].0 != path@);
            i = i + 1;
        }
        None
    }

    /// Inserts (or replaces) the document `path` with its term counts.
    pub fn insert(&mut self, path: String, tf: TermFreq)
        requires
            old(self).wf(),
            tf.wf(),
        ensures
            final(self).wf(),
            final(self)@ == old(self)@.insert(path@, tf@),
    {
        let ghost ds = old(self).docs_view();
        match self.find_doc(&path) {
            Some(i) => {
                proof {
                    lemma_index_map_update(ds, i as int, tf.entries_view());
                }
                self.docs.set(i, (path, tf));
                proof {
                    assert(self.docs_view() =~= ds.update(
                        i as int,
                        (ds[i as int].0, tf.entries_view()),
                    ));
                }
            },
            None => {
                let ghost pv = path@;
                self.docs.push((path, tf));
                proof {
                    assert(self.docs_view().drop_last() =~= ds);
                    assert(self.docs_view().last() == (pv, tf.entries_view()));
                    assert(forall|j: int|
                        0 <= j < ds.len() ==> (#[trigger] self.docs_view()[j]) == ds[j]);
                }
            },
        }
    }

    /// Builds an index from plain documents, rejecting duplicate paths.
    pub fn from_docs(docs: Vec<(String, TermFreq)>) -> (r: Option<CorpusIndex>)
        requires
            forall|i: int| 0 <= i < docs@.len() ==> (#[trigger] docs@[i]).1.wf(),
        ensures
            r is Some <==> keys_unique(doc_seq_view(docs@)),
            r matches Some(idx) ==> idx.wf() && idx.docs_view() == doc_seq_view(docs@),
    {
        let ghost ds = doc_seq_view(docs@);
        let n = docs.len();
        let mut i: usize = 0;
        while i < n
            invariant
                i <= n,
                n == docs@.len(),
                ds == doc_seq_view(docs@),
                forall|a: int, b: int| 0 <= a < b < ds.len() && a < i ==> ds[a].0 != ds[b].0,
            decreases n - i,
        {
            let mut j: usize = i + 1;
            while j < n
                invariant
                    i < j <= n,
                    n == docs@.len(),
                    ds == doc_seq_view(docs@),
                    forall|b: int| i < b < j ==> ds[i as int].0 != (#[trigger] ds[b]).0,
                decreases n - j,
            {
                if docs[i].0 == docs[j].0 {
                    assert(ds[i as int].0 == ds[j as int].0);
                    return None;
                }
                assert(ds[i as int].0 != ds[j as int].0);
                j = j + 1;
            }
            i = i + 1;
        }
        Some(CorpusIndex { docs })
    }

    /// Counts the documents whose map contains `term`.
    pub fn doc_freq(&self, term: &String) -> (m: usize)
        requires
            self.wf(),
        ensures
            m as nat == spec_doc_freq(term@, self.docs_view()),
    {
        let n = self.docs.len();
        let mut m: usize = 0;
        let mut i: usize = 0;
        while i < n
            invariant
                i <= n,
                n == self.docs@.len(),
                self.wf(),
                m <= i,
                m as nat == spec_doc_freq(term@, self.docs_view().take(i as int)),
            decreases n - i,
        {
            proof {
                assert(self.docs_view().take(i + 1).drop_last() =~= self.docs_view().take(i as int));
                assert(self.docs_view().take(i + 1).last() == self.docs_view()[i as int]);
            }
            let tf = self.freqs_at(i);
            if tf.contains(term) {
                m = m + 1;
            }
            i = i + 1;
        }
        proof {
            assert(self.docs_view().take(n as int) =~= self.docs_view());
        }
        m
    }
}

/// What well-formedness of a term-frequency map means for its entries:
/// unique keys, positive counts, and a total that fits the machine (so in
/// particular, by [`lemma_count_le_sum`], every count is at most the
/// total).
pub proof fn lemma_tf_wf_valid(tf: &TermFreq)
    requires
        tf.wf(),
    ensures
        tf_entries_valid(tf.entries_view()),
        tf.total_count() <= usize::MAX,
{
}

/// What well-formedness of an index means for its document data: unique
/// paths and valid entries per document.
pub proof fn lemma_wf_valid(idx: &CorpusIndex)
    requires
        idx.wf(),
    ensures
        keys_unique(idx.docs_view()),
        forall|i: int|
            0 <= i < idx.docs_view().len() ==> tf_entries_valid((#[trigger] idx.docs_view()[i]).1),
{
    assert forall|i: int|
        0 <= i < idx.docs_view().len() implies tf_entries_valid(
        (#[trigger] idx.docs_view()[i]).1,
    ) by {
        assert(idx.docs_view()[i].1 == idx.docs@[i].1.entries_view());
        assert(idx.docs@[i].1.wf());
    }
}

/// How many of the given documents contain `term`.
pub open spec fn spec_doc_freq(
    term: Seq<char>,
    docs: Seq<(Seq<char>, Seq<(Seq<char>, nat)>)>,
) -> nat
    decreases docs.len(),
{
    if docs.len() == 0 {
        0
    } else {
        spec_doc_freq(term, docs.drop_last()) + if assoc_map(docs.last().1).contains_key(term) {
            1nat
        } else {
            0
        }
    }
}

/// Counts token occurrences of a whole text into a fresh [`TermFreq`].
pub fn count_tokens(content: &[char]) -> (tf: TermFreq)
    ensures
        tf.wf(),
        tf@ == token_counts(tokens_of(content@)),
        tf.total_count() == tokens_of(content@).len(),
{
    let total_chars = content.len();
    let mut lexer = Lexer::new(content);
    let mut tf = TermFreq::new();
    let ghost mut processed: Seq<Seq<char>> = Seq::empty();
    proof {
        assert(processed + tokens_of(lexer@) =~= tokens_of(content@));
    }
    loop
        invariant
            tf.wf(),
            processed + tokens_of(lexer@) == tokens_of(content@),
            tf@ == token_counts(processed),
            tf.total_count() == processed.len(),
            processed.len() + lexer@.len() <= total_chars,
        ensures
            tf.wf(),
            tf@ == token_counts(tokens_of(content@)),
            tf.total_count() == tokens_of(content@).len(),
        decreases lexer@.len(),
    {
        let ghost before = lexer@;
        match lexer.next_token() {
            Some(tok) => {
                proof {
                    assert(tokens_of(before)[0] == tok@);
                    assert(processed.push(tok@) + tokens_of(lexer@) =~= processed + tokens_of(
                        before,
                    ));
                    assert(processed.push(tok@).drop_last() =~= processed);
                    assert(processed.push(tok@).last() == tok@);
                }
                tf.record(tok);
                proof {
                    processed = processed.push(tokens_of(before)[0]);
                }
            },
            None => {
                proof {
                    assert(tokens_of(before).len() == 0);
                    assert(processed + tokens_of(before) =~= processed);
                    assert(processed == tokens_of(content@));
                }
                break ;
            },
        }
    }
    tf
}

} // verus!
