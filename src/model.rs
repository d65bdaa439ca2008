//! The TF-IDF model: raw count triplets built once from the corpus, the
//! integer inputs of the two weighting passes, and the single-shot fitting
//! state machine that guards queries.

use vstd::prelude::*;
use rustc_hash::FxHashSet;
use sprs::TriMat;
use crate::counting::{
    all_triplets, count_occurrences, fit_counts, lemma_table_keys, lemma_table_total,
    occurrence_table, row_triplets, table_total,
};
use crate::outside::{tri_new, tri_shape, triplets, word_set, word_set_new};
use crate::store::{names_upto, occurs_in, rows_view, text_upto, vocab_upto, DocumentStore};

verus! {

/// Why an index cannot be built, fitted or queried.
#[derive(Debug, Clone, Copy, PartialEq, Eq, Structural)]
pub enum TfidfError {
    /// The corpus holds no document.
    EmptyCorpus,
    /// No word of the query is a known term.
    EmptyQuery,
    /// The index was queried before it was fitted.
    IndexNotFit,
    /// The index was fitted a second time.
    DoubleFit,
}

/// Where an index stands: raw counts, or weighted and read-only.
#[derive(Debug, Clone, Copy, PartialEq, Eq, Structural)]
pub enum FitState {
    Raw,
    Weighted,
}

/// What the two weighting passes need: each row is scaled by the inverse of
/// its document's length, each column by `log2(n / doc_freqs[t])`.
pub struct Scaling {
    pub n: usize,
    pub row_lengths: Vec<usize>,
    pub doc_freqs: Vec<usize>,
}

/// The stopwords given, or none.
pub open spec fn stop_of(stopwords: Option<FxHashSet<String>>) -> Set<Seq<char>> {
    match stopwords {
        Some(s) => word_set(s),
        None => Set::empty(),
    }
}

/// The number of the first `k` documents that hold term `t`.
pub open spec fn doc_freq(docs: Seq<Seq<usize>>, k: int, t: usize) -> nat
    decreases k,
{
    if k <= 0 {
        0
    } else {
        doc_freq(docs, k - 1, t) + if docs[k - 1].contains(t) {
            1nat
        } else {
            0nat
        }
    }
}

/// The TF-IDF model over a document store.
pub struct TFIDFModel {
    pub index: DocumentStore,
    pub n: usize,
    pub matrix: TriMat<usize>,
    pub state: FitState,
}

impl TFIDFModel {
    /// A store that is well formed, holds at least one document, and a
    /// matrix of shape (documents, terms) holding one count triplet per
    /// distinct term of each document.
    pub open spec fn wf(&self) -> bool {
        &&& self.index.wf()
        &&& self.n == self.index.names().len()
        &&& self.n > 0
        &&& tri_shape(self.matrix) == (self.n, self.index.terms().len() as usize)
        &&& triplets(self.matrix) == all_triplets(self.index.docs(), self.n as int)
    }

    /// Builds the index from a corpus (see `create_indices`) and its raw
    /// count matrix. A corpus without any document is refused before a
    /// matrix is built.
    pub fn new(documents: Vec<Vec<String>>, stopwords: Option<FxHashSet<String>>) -> (r: Result<
        Self,
        TfidfError,
    >)
        ensures
            (r is Err) == (names_upto(rows_view(documents@), documents@.len() as int).len() == 0),
            r matches Err(e) ==> e == TfidfError::EmptyCorpus,
            r matches Ok(m) ==> {
                let rows = rows_view(documents@);
                let k = documents@.len() as int;
                let stop = stop_of(stopwords);
                &&& m.wf()
                &&& m.state == FitState::Raw
                &&& m.index.stop() == stop
                &&& m.index.names() == names_upto(rows, k)
                &&& m.index.terms() == vocab_upto(rows, k, stop)
                &&& forall|d: int|
                    0 <= d < m.index.names().len() ==> #[trigger] m.index.text_of(d) == text_upto(
                        rows,
                        k,
                        m.index.names()[d],
                        stop,
                    )
            },
    {
        let stop_set = match stopwords {
            Some(s) => s,
            None => word_set_new(),
        };
        proof {
            assert(word_set(stop_set) =~= stop_of(stopwords));
        }
        let store = DocumentStore::new(documents, stop_set);
        let n = store.num_documents();
        if n == 0 {
            return Err(TfidfError::EmptyCorpus);
        }
        let t = store.num_terms();
        let matrix = fit_counts(store.documents.as_slice(), tri_new(n, t));
        proof {
            assert(triplets(matrix) =~= all_triplets(store.docs(), n as int));
        }
        Ok(TFIDFModel { index: store, n, matrix, state: FitState::Raw })
    }

    /// The number of terms of each document, by row.
    pub fn document_lengths(&self) -> (r: Vec<usize>)
        requires
            self.wf(),
        ensures
            r@.len() == self.n,
            forall|d: int| 0 <= d < self.n ==> #[trigger] r@[d] == self.index.docs()[d].len(),
    {
        let mut r: Vec<usize> = Vec::new();
        let mut d: usize = 0;
        while d < self.n
            invariant
                self.wf(),
                d <= self.n,
                r@.len() == d,
                forall|i: int| 0 <= i < d ==> #[trigger] r@[i] == self.index.docs()[i].len(),
            decreases self.n - d,
        {
            r.push(self.index.documents[d].len());
            d = d + 1;
        }
        r
    }

    /// The number of documents that hold `term`.
    pub fn find_across_documents(&self, term: usize) -> (r: usize)
        requires
            self.wf(),
        ensures
            r == doc_freq(self.index.docs(), self.n as int, term),
    {
        let docs = &self.index.documents;
        let mut count: usize = 0;
        let mut d: usize = 0;
        while d < self.n
            invariant
                self.wf(),
                docs == &self.index.documents,
                d <= self.n,
                count == doc_freq(self.index.docs(), d as int, term),
                count <= d,
            decreases self.n - d,
        {
            let doc = &docs[d];
            let mut found = false;
            let mut i: usize = 0;
            while i < doc.len()
                invariant
                    i <= doc@.len(),
                    found == doc@.subrange(0, i as int).contains(term),
                decreases doc@.len() - i,
            {
                proof {
                    assert(doc@.subrange(0, i + 1) =~= doc@.subrange(0, i as int).push(doc@[i as int]));
                    crate::counting::lemma_contains_push(doc@.subrange(0, i as int), doc@[i as int], term);
                }
                if doc[i] == term {
                    found = true;
                }
                i = i + 1;
            }
            proof {
                assert(doc@.subrange(0, doc@.len() as int) =~= doc@);
                assert(self.index.docs()[d as int] == doc@);
            }
            if found {
                count = count + 1;
            }
            d = d + 1;
        }
        count
    }

    /// The number of documents that hold each term, by term index.
    pub fn document_frequencies(&self) -> (r: Vec<usize>)
        requires
            self.wf(),
        ensures
            r@.len() == self.index.terms().len(),
            forall|t: int|
                0 <= t < r@.len() ==> #[trigger] r@[t] == doc_freq(
                    self.index.docs(),
                    self.n as int,
                    t as usize,
                ),
    {
        let ghost docs = self.index.docs();
        let nt = self.index.num_terms();
        let mut df: Vec<usize> = Vec::new();
        while df.len() < nt
            invariant
                df@.len() <= nt,
                forall|t: int| 0 <= t < df@.len() ==> #[trigger] df@[t] == 0,
            decreases nt - df@.len(),
        {
            df.push(0);
        }
        let mut d: usize = 0;
        while d < self.n
            invariant
                self.wf(),
                docs == self.index.docs(),
                nt == self.index.terms().len(),
                d <= self.n,
                df@.len() == nt,
                forall|t: int| 0 <= t < nt ==> #[trigger] df@[t] == doc_freq(docs, d as int, t as usize),
            decreases self.n - d,
        {
            let table = count_occurrences(self.index.documents[d].as_slice());
            let ghost doc = docs[d as int];
            let ghost keys = table@.map_values(|p: (usize, usize)| p.0);
            proof {
                assert(self.index.documents@[d as int]@ == doc);
                lemma_table_keys(doc, doc.len() as int);
                assert(doc.subrange(0, doc.len() as int) =~= doc);
            }
            let mut j: usize = 0;
            while j < table.len()
                invariant
                    self.wf(),
                    docs == self.index.docs(),
                    nt == self.index.terms().len(),
                    d < self.n,
                    doc == docs[d as int],
                    table@ == occurrence_table(doc),
                    keys == table@.map_values(|p: (usize, usize)| p.0),
                    forall|k: int| 0 <= k < table@.len() ==> doc.contains(#[trigger] table@[k].0),
                    forall|x: usize| doc.contains(x) ==> exists|k: int| 0 <= k < table@.len() && #[trigger] table@[k].0 == x,
                    forall|k1: int, k2: int| 0 <= k1 < k2 < table@.len() ==> #[trigger] table@[k1].0 != #[trigger] table@[k2].0,
                    j <= table@.len(),
                    df@.len() == nt,
                    forall|t: int|
                        0 <= t < nt ==> #[trigger] df@[t] == doc_freq(docs, d as int, t as usize)
                            + if keys.subrange(0, j as int).contains(t as usize) {
                            1nat
                        } else {
                            0nat
                        },
                decreases table@.len() - j,
            {
                let key = table[j].0;
                proof {
                    assert(keys.subrange(0, j + 1) =~= keys.subrange(0, j as int).push(key));
                    assert forall|x: usize| #![auto] keys.subrange(0, j + 1).contains(x) <==> (keys.subrange(0, j as int).contains(x) || x == key) by {
                        crate::counting::lemma_contains_push(keys.subrange(0, j as int), key, x);
                    }
                    if keys.subrange(0, j as int).contains(key) {
                        let i = choose|i: int| 0 <= i < j && keys.subrange(0, j as int)[i] == key;
                        assert(table@[i].0 == key);
                    }
                    assert(doc.contains(key));
                    let i = choose|i: int| 0 <= i < doc.len() && doc[i] == key;
                    assert(docs[d as int][i] < nt);
                    lemma_doc_freq_bound(docs, d as int, key);
                }
                df.set(key, df[key] + 1);
                j = j + 1;
            }
            proof {
                assert(keys.subrange(0, table@.len() as int) =~= keys);
                assert forall|t: int| 0 <= t < nt implies #[trigger] df@[t] == doc_freq(docs, d + 1, t as usize) by {
                    if doc.contains(t as usize) {
                        let k = choose|k: int| 0 <= k < table@.len() && #[trigger] table@[k].0 == t as usize;
                        assert(keys[k] == t as usize);
                    }
                    if keys.contains(t as usize) {
                        let k = choose|k: int| 0 <= k < keys.len() && keys[k] == t as usize;
                        assert(table@[k].0 == t as usize);
                    }
                }
            }
            d = d + 1;
        }
        df
    }

    /// Moves a raw index to its weighted state and hands back what the two
    /// weighting passes need; an index already weighted is refused and left
    /// as it is.
    pub fn fit(&mut self) -> (r: Result<Scaling, TfidfError>)
        requires
            old(self).wf(),
        ensures
            final(self).wf(),
            final(self).index == old(self).index,
            final(self).n == old(self).n,
            final(self).matrix == old(self).matrix,
            final(self).state == FitState::Weighted,
            (r is Err) == (old(self).state == FitState::Weighted),
            r matches Err(e) ==> e == TfidfError::DoubleFit,
            r matches Ok(s) ==> {
                &&& s.n == old(self).n
                &&& s.row_lengths@.len() == old(self).n
                &&& forall|d: int|
                    0 <= d < old(self).n ==> #[trigger] s.row_lengths@[d] == old(
                        self,
                    ).index.docs()[d].len()
                &&& s.doc_freqs@.len() == old(self).index.terms().len()
                &&& forall|t: int|
                    0 <= t < s.doc_freqs@.len() ==> #[trigger] s.doc_freqs@[t] == doc_freq(
                        old(self).index.docs(),
                        old(self).n as int,
                        t as usize,
                    )
            },
    {
        match self.state {
            FitState::Weighted => Err(TfidfError::DoubleFit),
            FitState::Raw => {
                let row_lengths = self.document_lengths();
                let doc_freqs = self.document_frequencies();
                self.state = FitState::Weighted;
                Ok(Scaling { n: self.n, row_lengths, doc_freqs })
            },
        }
    }

    /// The frequency table of a query's known terms, once the index is
    /// weighted; a query with no known term is refused.
    pub fn query(&self, text: &str) -> (r: Result<Vec<(usize, usize)>, TfidfError>)
        requires
            self.wf(),
        ensures
            self.state == FitState::Raw ==> (r matches Err(e) && e == TfidfError::IndexNotFit),
            self.state == FitState::Weighted && self.index.query_terms(text@).len() == 0
                ==> (r matches Err(e) && e == TfidfError::EmptyQuery),
            self.state == FitState::Weighted && self.index.query_terms(text@).len() > 0
                ==> (r matches Ok(v) && v@ == occurrence_table(self.index.query_terms(text@))),
    {
        match self.state {
            FitState::Raw => Err(TfidfError::IndexNotFit),
            FitState::Weighted => {
                let v = self.index.embed(text);
                proof {
                    let q = self.index.query_terms(text@);
                    if q.len() > 0 {
                        lemma_table_keys(q, q.len() as int);
                        assert(q.subrange(0, q.len() as int)[0] == q[0]);
                        assert(q.subrange(0, q.len() as int).contains(q[0]));
                        assert(occurrence_table(q).len() > 0);
                    }
                }
                if v.len() == 0 {
                    Err(TfidfError::EmptyQuery)
                } else {
                    Ok(v)
                }
            },
        }
    }
}

proof fn lemma_doc_freq_bound(docs: Seq<Seq<usize>>, k: int, t: usize)
    requires
        0 <= k,
    ensures
        doc_freq(docs, k, t) <= k,
    decreases k,
{
    if k > 0 {
        lemma_doc_freq_bound(docs, k - 1, t);
    }
}

/// The sum of the values of the triplets in row `d`.
pub open spec fn row_total(trips: Seq<(usize, usize, usize)>, d: usize) -> nat
    decreases trips.len(),
{
    if trips.len() == 0 {
        0
    } else {
        row_total(trips.drop_last(), d) + if trips.last().0 == d {
            trips.last().2 as nat
        } else {
            0nat
        }
    }
}

proof fn lemma_row_total_append(a: Seq<(usize, usize, usize)>, b: Seq<(usize, usize, usize)>, d: usize)
    ensures
        row_total(a + b, d) == row_total(a, d) + row_total(b, d),
    decreases b.len(),
{
    if b.len() == 0 {
        assert(a + b =~= a);
    } else {
        assert((a + b).drop_last() =~= a + b.drop_last());
        lemma_row_total_append(a, b.drop_last(), d);
    }
}

proof fn lemma_row_total_row(r: usize, tab: Seq<(usize, usize)>, d: usize)
    ensures
        row_total(row_triplets(r, tab), d) == if r == d {
            table_total(tab)
        } else {
            0
        },
    decreases tab.len(),
{
    if tab.len() > 0 {
        assert(row_triplets(r, tab).drop_last() =~= row_triplets(r, tab.drop_last()));
        lemma_row_total_row(r, tab.drop_last(), d);
    }
}

proof fn lemma_row_total_all(docs: Seq<Seq<usize>>, k: int, d: usize)
    requires
        0 <= k <= docs.len(),
        k <= usize::MAX,
        forall|i: int| 0 <= i < docs.len() ==> #[trigger] docs[i].len() <= usize::MAX,
    ensures
        row_total(all_triplets(docs, k), d) == if d < k {
            docs[d as int].len()
        } else {
            0
        },
    decreases k,
{
    if k > 0 {
        lemma_row_total_all(docs, k - 1, d);
        let tab = occurrence_table(docs[k - 1]);
        lemma_row_total_append(all_triplets(docs, k - 1), row_triplets((k - 1) as usize, tab), d);
        lemma_row_total_row((k - 1) as usize, tab, d);
        lemma_table_total(docs[k - 1]);
    } else {
        assert(all_triplets(docs, k) =~= seq![]);
    }
}

/// Before weighting, the counts in each document's row add up to the
/// document's number of terms (stopwords and empty words excluded).
pub proof fn law_row_totals(m: TFIDFModel, d: usize)
    requires
        m.wf(),
        d < m.n,
        forall|i: int| 0 <= i < m.index.docs().len() ==> #[trigger] m.index.docs()[i].len() <= usize::MAX,
    ensures
        row_total(triplets(m.matrix), d) == m.index.docs()[d as int].len(),
{
    lemma_row_total_all(m.index.docs(), m.n as int, d);
}

proof fn lemma_doc_freq_some(docs: Seq<Seq<usize>>, k: int, d: int, t: usize)
    requires
        0 <= d < k,
        docs[d].contains(t),
    ensures
        doc_freq(docs, k, t) >= 1,
    decreases k,
{
    if k - 1 > d {
        lemma_doc_freq_some(docs, k - 1, d, t);
    }
}

proof fn lemma_doc_freq_all(docs: Seq<Seq<usize>>, k: int, t: usize)
    requires
        0 <= k,
    ensures
        (doc_freq(docs, k, t) == k) <==> forall|d: int| 0 <= d < k ==> #[trigger] docs[d].contains(t),
    decreases k,
{
    if k > 0 {
        lemma_doc_freq_all(docs, k - 1, t);
        lemma_doc_freq_bound(docs, k - 1, t);
        if doc_freq(docs, k, t) == k {
            assert forall|d: int| 0 <= d < k implies #[trigger] docs[d].contains(t) by {
                if d < k - 1 {
                }
            }
        }
    }
}

/// Every term is held by at least one document and at most by all of them,
/// so its inverse document frequency `log2(n / doc_freq)` lies between 0 and
/// `log2(n)`; it is 0 exactly when every document holds the term.
pub proof fn law_doc_freq_bounds(m: TFIDFModel, t: usize)
    requires
        m.wf(),
        t < m.index.terms().len(),
    ensures
        1 <= doc_freq(m.index.docs(), m.n as int, t) <= m.n,
        (doc_freq(m.index.docs(), m.n as int, t) == m.n) <==> forall|d: int|
            0 <= d < m.n ==> #[trigger] m.index.docs()[d].contains(t),
{
    let docs = m.index.docs();
    assert(occurs_in(docs, t));
    let d = choose|d: int| 0 <= d < docs.len() && #[trigger] docs[d].contains(t);
    lemma_doc_freq_some(docs, m.n as int, d, t);
    lemma_doc_freq_bound(docs, m.n as int, t);
    lemma_doc_freq_all(docs, m.n as int, t);
}

} // verus!
