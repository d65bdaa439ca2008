//! The vocabulary and document index: terms and document names interned to
//! dense indices, and each document held as its sequence of term indices.

use vstd::prelude::*;
use indexmap::IndexSet;
use rustc_hash::FxHashSet;
use crate::counting::{count_occurrences, doc_views, occurrence_table, terms_below};
use crate::outside::{
    index_set_get_index, index_set_get_index_of, index_set_insert_full, index_set_len,
    index_set_new, set_items, word_set, word_set_contains, ascii_words, split_words,
};
use crate::text::{normalize, normalize_word};

verus! {

/// The words of each row of a corpus.
pub open spec fn rows_view(rows: Seq<Vec<String>>) -> Seq<Seq<Seq<char>>> {
    rows.map_values(|r: Vec<String>| r@.map_values(|w: String| w@))
}

/// The normalized words of `words` that are neither empty nor stopwords, in order.
pub open spec fn kept_words(words: Seq<Seq<char>>, stop: Set<Seq<char>>) -> Seq<Seq<char>>
    decreases words.len(),
{
    if words.len() == 0 {
        seq![]
    } else {
        let p = kept_words(words.drop_last(), stop);
        let w = normalize(words.last());
        if w.len() == 0 || stop.contains(w) {
            p
        } else {
            p.push(w)
        }
    }
}

/// The terms of a corpus row: its words after the first, which names the document.
pub open spec fn body_terms(row: Seq<Seq<char>>, stop: Set<Seq<char>>) -> Seq<Seq<char>> {
    if row.len() == 0 {
        seq![]
    } else {
        kept_words(row.drop_first(), stop)
    }
}

/// `acc` with `w` appended unless it already holds it.
pub open spec fn add_distinct(acc: Seq<Seq<char>>, w: Seq<char>) -> Seq<Seq<char>> {
    if acc.contains(w) {
        acc
    } else {
        acc.push(w)
    }
}

/// `acc` with each word of `ws` added in turn by `add_distinct`.
pub open spec fn add_all_distinct(acc: Seq<Seq<char>>, ws: Seq<Seq<char>>) -> Seq<Seq<char>>
    decreases ws.len(),
{
    if ws.len() == 0 {
        acc
    } else {
        add_distinct(add_all_distinct(acc, ws.drop_last()), ws.last())
    }
}

/// The distinct document names of the first `k` rows, in order of first appearance.
pub open spec fn names_upto(rows: Seq<Seq<Seq<char>>>, k: int) -> Seq<Seq<char>>
    decreases k,
{
    if k <= 0 {
        seq![]
    } else {
        let p = names_upto(rows, k - 1);
        if rows[k - 1].len() == 0 {
            p
        } else {
            add_distinct(p, rows[k - 1][0])
        }
    }
}

/// The distinct terms of the first `k` rows, in order of first appearance.
pub open spec fn vocab_upto(rows: Seq<Seq<Seq<char>>>, k: int, stop: Set<Seq<char>>) -> Seq<
    Seq<char>,
>
    decreases k,
{
    if k <= 0 {
        seq![]
    } else {
        add_all_distinct(vocab_upto(rows, k - 1, stop), body_terms(rows[k - 1], stop))
    }
}

/// The terms of the document named `name` over the first `k` rows: the
/// terms of every row with that name, one row after the other.
pub open spec fn text_upto(
    rows: Seq<Seq<Seq<char>>>,
    k: int,
    name: Seq<char>,
    stop: Set<Seq<char>>,
) -> Seq<Seq<char>>
    decreases k,
{
    if k <= 0 {
        seq![]
    } else {
        text_upto(rows, k - 1, name, stop) + if rows[k - 1].len() > 0 && rows[k - 1][0] == name {
            body_terms(rows[k - 1], stop)
        } else {
            seq![]
        }
    }
}

/// The position of `w` in `items`.
pub open spec fn position_of(items: Seq<Seq<char>>, w: Seq<char>) -> int {
    choose|i: int| 0 <= i < items.len() && items[i] == w
}

/// Interns `word` in an insertion-ordered set of strings: the index it
/// already has, or else the next unused one, where it is then recorded.
pub fn intern(set: &mut IndexSet<String>, word: String) -> (r: usize)
    requires
        set_items(*old(set)).no_duplicates(),
    ensures
        set_items(*final(set)) == add_distinct(set_items(*old(set)), word@),
        set_items(*final(set)).no_duplicates(),
        r < set_items(*final(set)).len(),
        set_items(*final(set))[r as int] == word@,
        r == position_of(set_items(*final(set)), word@),
        (r == set_items(*old(set)).len()) == !set_items(*old(set)).contains(word@),
{
    let ghost items = set_items(*set);
    let ghost w = word@;
    let (r, _) = index_set_insert_full(set, word);
    proof {
        let s2 = set_items(*set);
        if !items.contains(w) {
            assert forall|a: int, b: int| 0 <= a < s2.len() && 0 <= b < s2.len() && a != b
                implies s2[a] != s2[b] by {
                if a == items.len() as int {
                    assert(items[b] == s2[b]);
                } else if b == items.len() as int {
                    assert(items[a] == s2[a]);
                }
            }
        } else {
            assert(r < items.len());
        }
        let p = position_of(s2, w);
        assert(s2[r as int] == w);
    }
    r
}

/// The normalized words of `words` that are known terms and not stopwords, in order.
pub open spec fn known_words(words: Seq<Seq<char>>, stop: Set<Seq<char>>, terms: Seq<Seq<char>>) -> Seq<
    Seq<char>,
>
    decreases words.len(),
{
    if words.len() == 0 {
        seq![]
    } else {
        let p = known_words(words.drop_last(), stop, terms);
        let w = normalize(words.last());
        if w.len() == 0 || stop.contains(w) || !terms.contains(w) {
            p
        } else {
            p.push(w)
        }
    }
}

/// The positions of `words` in `items`.
pub open spec fn indices_of(words: Seq<Seq<char>>, items: Seq<Seq<char>>) -> Seq<usize> {
    words.map_values(|w: Seq<char>| position_of(items, w) as usize)
}

/// Interning a word twice gives the same index both times, and the second
/// interning changes nothing.
pub proof fn law_intern_idempotent(items: Seq<Seq<char>>, w: Seq<char>)
    requires
        items.no_duplicates(),
    ensures
        add_distinct(add_distinct(items, w), w) == add_distinct(items, w),
        position_of(add_distinct(add_distinct(items, w), w), w) == position_of(
            add_distinct(items, w),
            w,
        ),
{
    let once = add_distinct(items, w);
    if !items.contains(w) {
        assert(once[items.len() as int] == w);
    }
}

/// The index that interning gives a word holds that word.
pub proof fn law_intern_round_trip(items: Seq<Seq<char>>, w: Seq<char>)
    requires
        items.no_duplicates(),
    ensures
        0 <= position_of(add_distinct(items, w), w) < add_distinct(items, w).len(),
        add_distinct(items, w)[position_of(add_distinct(items, w), w)] == w,
{
    let once = add_distinct(items, w);
    if !items.contains(w) {
        assert(once[items.len() as int] == w);
    }
}

/// Some document holds term `t`.
pub open spec fn occurs_in(docs: Seq<Seq<usize>>, t: usize) -> bool {
    exists|d: int| 0 <= d < docs.len() && #[trigger] docs[d].contains(t)
}

/// Term and document-name interning, and the documents as term index sequences.
pub struct DocumentStore {
    pub stopwords: FxHashSet<String>,
    pub documents: Vec<Vec<usize>>,
    pub document_index: IndexSet<String>,
    pub term_index: IndexSet<String>,
}

impl DocumentStore {
    /// The terms, by index.
    pub open spec fn terms(&self) -> Seq<Seq<char>> {
        set_items(self.term_index)
    }

    /// The document names, by row.
    pub open spec fn names(&self) -> Seq<Seq<char>> {
        set_items(self.document_index)
    }

    /// The documents' term index sequences, by row.
    pub open spec fn docs(&self) -> Seq<Seq<usize>> {
        doc_views(self.documents@)
    }

    /// The stopwords.
    pub open spec fn stop(&self) -> Set<Seq<char>> {
        word_set(self.stopwords)
    }

    /// The term indices of a query text: its known, non-stopword words.
    pub open spec fn query_terms(&self, query: Seq<char>) -> Seq<usize> {
        indices_of(known_words(ascii_words(query), self.stop(), self.terms()), self.terms())
    }

    /// The terms of document `d`, as words.
    pub open spec fn text_of(&self, d: int) -> Seq<Seq<char>> {
        self.docs()[d].map_values(|t: usize| self.terms()[t as int])
    }

    /// One document per name, every index in range, no repeated term or
    /// name, and every term held by some document.
    pub open spec fn wf(&self) -> bool {
        &&& self.docs().len() == self.names().len()
        &&& terms_below(self.docs(), self.terms().len() as int)
        &&& self.terms().no_duplicates()
        &&& self.names().no_duplicates()
        &&& forall|t: usize| t < self.terms().len() ==> #[trigger] occurs_in(self.docs(), t)
    }

    /// Interns the kept words of a row after its first, returning their term
    /// indices in order; documents and names are left as they are.
    fn intern_body(&mut self, row: &Vec<String>) -> (r: Vec<usize>)
        requires
            old(self).wf(),
            row@.len() > 0,
        ensures
            final(self).documents == old(self).documents,
            final(self).document_index == old(self).document_index,
            final(self).stopwords == old(self).stopwords,
            final(self).terms() == add_all_distinct(
                old(self).terms(),
                body_terms(row@.map_values(|w: String| w@), old(self).stop()),
            ),
            final(self).terms().no_duplicates(),
            old(self).terms().len() <= final(self).terms().len(),
            forall|i: int|
                0 <= i < old(self).terms().len() ==> #[trigger] final(self).terms()[i] == old(
                    self,
                ).terms()[i],
            forall|i: int| 0 <= i < r@.len() ==> #[trigger] r@[i] < final(self).terms().len(),
            r@.map_values(|t: usize| final(self).terms()[t as int]) == body_terms(
                row@.map_values(|w: String| w@),
                old(self).stop(),
            ),
            forall|t: usize|
                t < final(self).terms().len() ==> #[trigger] occurs_in(final(self).docs(), t)
                    || r@.contains(t),
    {
        let ghost rv = row@.map_values(|w: String| w@);
        let ghost stop = self.stop();
        let ghost terms0 = self.terms();
        let ghost docs0 = self.docs();
        let mut r: Vec<usize> = Vec::new();
        let mut j: usize = 1;
        while j < row.len()
            invariant
                rv == row@.map_values(|w: String| w@),
                stop == self.stop(),
                1 <= j <= row@.len(),
                self.documents == old(self).documents,
                self.document_index == old(self).document_index,
                self.stopwords == old(self).stopwords,
                terms0 == old(self).terms(),
                self.terms() == add_all_distinct(terms0, kept_words(rv.subrange(1, j as int), stop)),
                self.terms().no_duplicates(),
                terms0.len() <= self.terms().len(),
                forall|i: int| 0 <= i < terms0.len() ==> #[trigger] self.terms()[i] == terms0[i],
                forall|i: int| 0 <= i < r@.len() ==> #[trigger] r@[i] < self.terms().len(),
                r@.map_values(|t: usize| self.terms()[t as int]) == kept_words(
                    rv.subrange(1, j as int),
                    stop,
                ),
                docs0 == old(self).docs(),
                forall|t: usize| t < terms0.len() ==> #[trigger] occurs_in(docs0, t),
                forall|t: usize|
                    terms0.len() <= t < self.terms().len() ==> #[trigger] r@.contains(t),
            decreases row@.len() - j,
        {
            let w = normalize_word(row[j].as_str());
            proof {
                assert(rv.subrange(1, j + 1).drop_last() =~= rv.subrange(1, j as int));
                assert(rv.subrange(1, j + 1).last() == rv[j as int]);
            }
            let ghost terms1 = self.terms();
            let ghost kept1 = kept_words(rv.subrange(1, j as int), stop);
            if w.as_str().is_empty() || word_set_contains(&self.stopwords, w.as_str()) {
            } else {
                let ghost r0 = r@;
                let idx = intern(&mut self.term_index, w);
                r.push(idx);
                proof {
                    assert(kept_words(rv.subrange(1, j + 1), stop) == kept1.push(w@));
                    assert(kept1.push(w@).drop_last() =~= kept1);
                    assert(self.terms() == add_distinct(terms1, w@));
                    assert forall|i: int| 0 <= i < terms1.len() implies #[trigger] self.terms()[i]
                        == terms1[i] by {
                        if !terms1.contains(w@) {
                            assert(self.terms() == terms1.push(w@));
                        }
                    }
                    assert(r@.map_values(|t: usize| self.terms()[t as int]) =~= kept1.push(w@));
                    if !terms1.contains(w@) {
                        assert forall|a: int, b: int|
                            0 <= a < self.terms().len() && 0 <= b < self.terms().len() && a != b
                            implies self.terms()[a] != self.terms()[b] by {
                            if a == terms1.len() as int {
                                assert(terms1[b] == self.terms()[b]);
                            } else if b == terms1.len() as int {
                                assert(terms1[a] == self.terms()[a]);
                            }
                        }
                        assert(r@[r@.len() - 1] == idx);
                    }
                    assert forall|t: usize|
                        terms0.len() <= t < self.terms().len() implies #[trigger] r@.contains(t) by {
                        if t < terms1.len() {
                            assert(r0.contains(t));
                            let i = choose|i: int| 0 <= i < r0.len() && r0[i] == t;
                            assert(r@[i] == t);
                        } else {
                            assert(r@[r@.len() - 1] == t);
                        }
                    }
                }
            }
            j = j + 1;
        }
        proof {
            assert(rv.subrange(1, row@.len() as int) =~= rv.drop_first());
            assert forall|t: usize| t < self.terms().len() implies #[trigger] occurs_in(self.docs(), t)
                || r@.contains(t) by {
                if t < terms0.len() {
                    assert(occurs_in(docs0, t));
                }
            }
        }
        r
    }

    /// Records one corpus row: its first word names the document (interned),
    /// the terms of the rest are interned and appended to that document. A
    /// row without words is skipped.
    pub fn add_row(&mut self, row: &Vec<String>)
        requires
            old(self).wf(),
        ensures
            final(self).wf(),
            final(self).stopwords == old(self).stopwords,
            final(self).names() == if row@.len() == 0 {
                old(self).names()
            } else {
                add_distinct(old(self).names(), row@[0]@)
            },
            final(self).terms() == add_all_distinct(
                old(self).terms(),
                body_terms(row@.map_values(|w: String| w@), old(self).stop()),
            ),
            forall|d: int|
                0 <= d < final(self).names().len() ==> #[trigger] final(self).text_of(d) == (if d
                    < old(self).names().len() {
                    old(self).text_of(d)
                } else {
                    seq![]
                }) + (if row@.len() > 0 && final(self).names()[d] == row@[0]@ {
                    body_terms(row@.map_values(|w: String| w@), old(self).stop())
                } else {
                    seq![]
                }),
    {
        let ghost rv = row@.map_values(|w: String| w@);
        if row.len() == 0 {
            assert(body_terms(rv, self.stop()) =~= seq![]);
            return;
        }
        let ghost old_self = *self;
        let n_names = index_set_len(&self.document_index);
        let dn = intern(&mut self.document_index, row[0].clone());
        if dn == n_names {
            self.documents.push(Vec::new());
            proof {
                assert(self.docs() =~= old_self.docs().push(seq![]));
                assert forall|a: int, b: int|
                    0 <= a < self.names().len() && 0 <= b < self.names().len() && a != b
                    implies self.names()[a] != self.names()[b] by {
                    if a < old_self.names().len() && b < old_self.names().len() {
                        assert(old_self.names()[a] != old_self.names()[b]);
                    } else if a < old_self.names().len() {
                        assert(old_self.names().contains(self.names()[a]));
                    } else {
                        assert(old_self.names().contains(self.names()[b]));
                    }
                }
                assert forall|t: usize| t < self.terms().len() implies #[trigger] occurs_in(
                    self.docs(),
                    t,
                ) by {
                    assert(occurs_in(old_self.docs(), t));
                    let d = choose|d: int| 0 <= d < old_self.docs().len() && #[trigger] old_self.docs()[d].contains(t);
                    assert(self.docs()[d] == old_self.docs()[d]);
                }
            }
        }
        let ghost mid = *self;
        let mut body = self.intern_body(row);
        let ghost after = *self;
        assert(after.docs() == mid.docs());
        let ghost stop = self.stop();
        let ghost body_v = body@;
        let mut merged = self.documents[dn].clone();
        merged.append(&mut body);
        self.documents[dn] = merged;
        proof {
            assert(merged@ =~= mid.docs()[dn as int] + body_v);
            assert(self.docs() =~= mid.docs().update(dn as int, mid.docs()[dn as int] + body_v));
            let bt = body_terms(rv, stop);
            assert forall|d: int| 0 <= d < self.names().len() implies #[trigger] self.text_of(d) == (if d
                < old_self.names().len() {
                old_self.text_of(d)
            } else {
                seq![]
            }) + (if self.names()[d] == row@[0]@ {
                bt
            } else {
                seq![]
            }) by {
                let md = mid.docs()[d];
                assert(mid.text_of(d) =~= md.map_values(|t: usize| self.terms()[t as int])) by {
                    assert forall|i: int| 0 <= i < md.len() implies md[i] < mid.terms().len() by {
                        assert(md[i] == mid.docs()[d][i]);
                    }
                }
                if d < old_self.names().len() {
                    assert(mid.docs()[d] == old_self.docs()[d]);
                    assert(mid.text_of(d) == old_self.text_of(d));
                } else {
                    assert(mid.docs()[d] =~= seq![]);
                    assert(mid.text_of(d) =~= seq![]);
                }
                if d == dn as int {
                    assert(self.text_of(d) =~= mid.text_of(d) + bt);
                } else {
                    assert(self.names()[d] != row@[0]@);
                    assert(self.text_of(d) =~= mid.text_of(d) + seq![]);
                }
            }
            assert forall|t: usize| t < self.terms().len() implies #[trigger] occurs_in(self.docs(), t) by {
                if occurs_in(mid.docs(), t) {
                    let d = choose|d: int| 0 <= d < mid.docs().len() && #[trigger] mid.docs()[d].contains(t);
                    let i = choose|i: int| 0 <= i < mid.docs()[d].len() && mid.docs()[d][i] == t;
                    assert(self.docs()[d][i] == t);
                    assert(self.docs()[d].contains(t));
                } else {
                    assert(occurs_in(after.docs(), t) || body_v.contains(t));
                    assert(body_v.contains(t));
                    let i = choose|i: int| 0 <= i < body_v.len() && body_v[i] == t;
                    assert(self.docs()[dn as int][mid.docs()[dn as int].len() + i] == t);
                    assert(self.docs()[dn as int].contains(t));
                }
            }
            assert(terms_below(self.docs(), self.terms().len() as int)) by {
                assert forall|d: int, i: int| 0 <= d < self.docs().len() && 0 <= i < self.docs()[d].len()
                    implies #[trigger] self.docs()[d][i] < self.terms().len() by {
                    if d == dn as int && i >= mid.docs()[d].len() {
                        assert(self.docs()[d][i] == body_v[i - mid.docs()[d].len()]);
                    } else {
                        assert(self.docs()[d][i] == mid.docs()[d][i]);
                    }
                }
            }
        }
    }

    /// The term indices of the words of a query: each word is normalized;
    /// empty words, stopwords and words that are not terms are dropped.
    pub fn tokenize_words(&self, words: &Vec<String>) -> (r: Vec<usize>)
        requires
            self.wf(),
        ensures
            forall|i: int| 0 <= i < r@.len() ==> #[trigger] r@[i] < self.terms().len(),
            r@.map_values(|t: usize| self.terms()[t as int]) == known_words(
                words@.map_values(|w: String| w@),
                self.stop(),
                self.terms(),
            ),
            r@ == indices_of(
                known_words(words@.map_values(|w: String| w@), self.stop(), self.terms()),
                self.terms(),
            ),
    {
        let ghost wv = words@.map_values(|w: String| w@);
        let mut r: Vec<usize> = Vec::new();
        let mut j: usize = 0;
        while j < words.len()
            invariant
                self.wf(),
                wv == words@.map_values(|w: String| w@),
                j <= words@.len(),
                forall|i: int| 0 <= i < r@.len() ==> #[trigger] r@[i] < self.terms().len(),
                r@.map_values(|t: usize| self.terms()[t as int]) == known_words(
                    wv.subrange(0, j as int),
                    self.stop(),
                    self.terms(),
                ),
            decreases words@.len() - j,
        {
            let w = normalize_word(words[j].as_str());
            proof {
                assert(wv.subrange(0, j + 1).drop_last() =~= wv.subrange(0, j as int));
                assert(wv.subrange(0, j + 1).last() == wv[j as int]);
            }
            if !w.as_str().is_empty() && !word_set_contains(&self.stopwords, w.as_str()) {
                let found = self.term_index_of(w.as_str());
                if let Some(t) = found {
                    let ghost r0 = r@;
                    r.push(t);
                    assert(r@.map_values(|t: usize| self.terms()[t as int]) =~= r0.map_values(
                        |t: usize| self.terms()[t as int],
                    ).push(w@));
                }
            }
            j = j + 1;
        }
        assert(wv.subrange(0, words@.len() as int) =~= wv);
        proof {
            let kw = known_words(wv, self.stop(), self.terms());
            assert forall|i: int| 0 <= i < r@.len() implies #[trigger] r@[i] == position_of(
                self.terms(),
                kw[i],
            ) by {
                let ti = r@[i] as int;
                assert(self.terms()[ti] == kw[i]);
                let p = position_of(self.terms(), kw[i]);
            }
            assert(r@ =~= indices_of(kw, self.terms()));
        }
        r
    }

    /// The term indices of a query text, split at ASCII whitespace; see
    /// `tokenize_words`.
    pub fn tokenize(&self, query: &str) -> (r: Vec<usize>)
        requires
            self.wf(),
        ensures
            forall|i: int| 0 <= i < r@.len() ==> #[trigger] r@[i] < self.terms().len(),
            r@.map_values(|t: usize| self.terms()[t as int]) == known_words(
                ascii_words(query@),
                self.stop(),
                self.terms(),
            ),
            r@ == self.query_terms(query@),
    {
        let words = split_words(query);
        self.tokenize_words(&words)
    }

    /// The frequency table of a query's term indices: each distinct term
    /// once, in order of first occurrence, with its count.
    pub fn embed(&self, query: &str) -> (r: Vec<(usize, usize)>)
        requires
            self.wf(),
        ensures
            r@ == occurrence_table(self.query_terms(query@)),
    {
        let q = self.tokenize(query);
        count_occurrences(q.as_slice())
    }

    /// Builds the store from a corpus; see `create_indices`.
    pub fn new(summaries: Vec<Vec<String>>, stopwords: FxHashSet<String>) -> (r: Self)
        ensures
            r.wf(),
            r.stop() == word_set(stopwords),
            r.names() == names_upto(rows_view(summaries@), summaries@.len() as int),
            r.terms() == vocab_upto(
                rows_view(summaries@),
                summaries@.len() as int,
                word_set(stopwords),
            ),
            forall|d: int|
                0 <= d < r.names().len() ==> #[trigger] r.text_of(d) == text_upto(
                    rows_view(summaries@),
                    summaries@.len() as int,
                    r.names()[d],
                    word_set(stopwords),
                ),
    {
        create_indices(summaries, stopwords)
    }

    /// The number of terms.
    pub fn num_terms(&self) -> (r: usize)
        ensures
            r == self.terms().len(),
    {
        index_set_len(&self.term_index)
    }

    /// The number of documents.
    pub fn num_documents(&self) -> (r: usize)
        ensures
            r == self.names().len(),
    {
        index_set_len(&self.document_index)
    }

    /// The term with index `i`, if there is one.
    pub fn term_at(&self, i: usize) -> (r: Option<&String>)
        ensures
            (r is Some) == (i < self.terms().len()),
            r matches Some(w) ==> w@ == self.terms()[i as int],
    {
        index_set_get_index(&self.term_index, i)
    }

    /// The name of the document in row `i`, if there is one.
    pub fn document_at(&self, i: usize) -> (r: Option<&String>)
        ensures
            (r is Some) == (i < self.names().len()),
            r matches Some(w) ==> w@ == self.names()[i as int],
    {
        index_set_get_index(&self.document_index, i)
    }

    /// The index of a term, if it is one.
    pub fn term_index_of(&self, word: &str) -> (r: Option<usize>)
        requires
            self.wf(),
        ensures
            (r is Some) == self.terms().contains(word@),
            r matches Some(i) ==> i == position_of(self.terms(), word@) && i < self.terms().len()
                && self.terms()[i as int] == word@,
    {
        let r = index_set_get_index_of(&self.term_index, word);
        proof {
            if let Some(i) = r {
                let p = position_of(self.terms(), word@);
                assert(self.terms()[i as int] == word@);
            }
        }
        r
    }
}

proof fn lemma_names_grow_to(rows: Seq<Seq<Seq<char>>>, k: int, j: int, name: Seq<char>)
    requires
        0 <= k <= j,
        names_upto(rows, k).contains(name),
    ensures
        names_upto(rows, j).contains(name),
    decreases j - k,
{
    if j > k {
        lemma_names_grow_to(rows, k, j - 1, name);
        let p = names_upto(rows, j - 1);
        if rows[j - 1].len() > 0 && !p.contains(rows[j - 1][0]) {
            let i = choose|i: int| 0 <= i < p.len() && p[i] == name;
            assert(p.push(rows[j - 1][0])[i] == name);
        }
    }
}

/// A name that no row so far has carried has no terms yet.
proof fn lemma_text_absent(rows: Seq<Seq<Seq<char>>>, k: int, name: Seq<char>, stop: Set<Seq<char>>)
    requires
        0 <= k,
        !names_upto(rows, k).contains(name),
    ensures
        text_upto(rows, k, name, stop) == Seq::<Seq<char>>::empty(),
    decreases k,
{
    if k > 0 {
        let p = names_upto(rows, k - 1);
        if p.contains(name) {
            lemma_names_grow_to(rows, k - 1, k, name);
        }
        lemma_text_absent(rows, k - 1, name, stop);
        if rows[k - 1].len() > 0 && rows[k - 1][0] == name {
            if !p.contains(name) {
                assert(p.push(name)[p.len() as int] == name);
            }
        }
        assert(text_upto(rows, k, name, stop) =~= seq![]);
    }
}

/// Builds the store from a corpus: each row's first word names its
/// document, its other words are normalized, stopwords and empty words are
/// dropped, and the rest are interned as terms. Rows that share a name make
/// one document; rows without words are skipped.
pub fn create_indices(summaries: Vec<Vec<String>>, stopwords: FxHashSet<String>) -> (r:
    DocumentStore)
    ensures
        r.wf(),
        r.stop() == word_set(stopwords),
        r.names() == names_upto(rows_view(summaries@), summaries@.len() as int),
        r.terms() == vocab_upto(rows_view(summaries@), summaries@.len() as int, word_set(stopwords)),
        forall|d: int|
            0 <= d < r.names().len() ==> #[trigger] r.text_of(d) == text_upto(
                rows_view(summaries@),
                summaries@.len() as int,
                r.names()[d],
                word_set(stopwords),
            ),
{
    let ghost rows = rows_view(summaries@);
    let ghost stop = word_set(stopwords);
    let mut store = DocumentStore {
        stopwords,
        documents: Vec::new(),
        document_index: index_set_new(),
        term_index: index_set_new(),
    };
    let mut k: usize = 0;
    while k < summaries.len()
        invariant
            rows == rows_view(summaries@),
            stop == store.stop(),
            k <= summaries@.len(),
            store.wf(),
            store.names() == names_upto(rows, k as int),
            store.terms() == vocab_upto(rows, k as int, stop),
            forall|d: int|
                0 <= d < store.names().len() ==> #[trigger] store.text_of(d) == text_upto(
                    rows,
                    k as int,
                    store.names()[d],
                    stop,
                ),
        decreases summaries@.len() - k,
    {
        let ghost before = store;
        store.add_row(&summaries[k]);
        proof {
            let row = summaries@[k as int];
            assert(rows[k as int] == row@.map_values(|w: String| w@));
            if row@.len() > 0 {
                assert(rows[k as int][0] == row@[0]@);
            }
            assert forall|d: int| 0 <= d < store.names().len() implies #[trigger] store.text_of(d)
                == text_upto(rows, k + 1, store.names()[d], stop) by {
                let nm = store.names()[d];
                if d >= before.names().len() {
                    if names_upto(rows, k as int).contains(nm) {
                        let i = choose|i: int| 0 <= i < before.names().len() && before.names()[i] == nm;
                        assert(store.names()[i] == nm);
                    }
                    lemma_text_absent(rows, k as int, nm, stop);
                }
                assert(text_upto(rows, k + 1, nm, stop) == text_upto(rows, k as int, nm, stop) + if rows[k as int].len() > 0
                    && rows[k as int][0] == nm {
                    body_terms(rows[k as int], stop)
                } else {
                    seq![]
                });
            }
        }
        k = k + 1;
    }
    store
}

} // verus!
