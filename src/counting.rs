//! Per-document frequency tables and the raw count triplets of the
//! document-by-term matrix.

use vstd::prelude::*;
use sprs::TriMat;
use crate::outside::{
    count_map_get, count_map_insert, count_map_new, count_map_remove, tri_add, tri_shape,
    triplets,
};

verus! {

/// How many elements of `s` lie in `a`.
pub open spec fn count_in(s: Seq<usize>, a: Set<usize>) -> nat
    decreases s.len(),
{
    if s.len() == 0 {
        0
    } else {
        count_in(s.drop_last(), a) + if a.contains(s.last()) {
            1nat
        } else {
            0nat
        }
    }
}

/// How many times `x` occurs in `s`.
pub open spec fn occurrences(s: Seq<usize>, x: usize) -> nat {
    count_in(s, set![x])
}

/// The frequency table of the first `k` positions of `s`: one entry per
/// distinct value, in order of first occurrence, with its count over all of `s`.
pub open spec fn table_upto(s: Seq<usize>, k: int) -> Seq<(usize, usize)>
    decreases k,
{
    if k <= 0 {
        seq![]
    } else {
        let t = table_upto(s, k - 1);
        if s.subrange(0, k - 1).contains(s[k - 1]) {
            t
        } else {
            t.push((s[k - 1], occurrences(s, s[k - 1]) as usize))
        }
    }
}

/// The frequency table of `s`: each distinct value once, in order of first
/// occurrence, with the number of times it occurs.
pub open spec fn occurrence_table(s: Seq<usize>) -> Seq<(usize, usize)> {
    table_upto(s, s.len() as int)
}

/// The sum of the counts of a frequency table.
pub open spec fn table_total(t: Seq<(usize, usize)>) -> nat
    decreases t.len(),
{
    if t.len() == 0 {
        0
    } else {
        table_total(t.drop_last()) + t.last().1 as nat
    }
}

/// The triplets of one matrix row, from that row's frequency table.
pub open spec fn row_triplets(row: usize, t: Seq<(usize, usize)>) -> Seq<(usize, usize, usize)> {
    t.map_values(|p: (usize, usize)| (row, p.0, p.1))
}

/// The triplets of the first `k` documents, row by row.
pub open spec fn all_triplets(docs: Seq<Seq<usize>>, k: int) -> Seq<(usize, usize, usize)>
    decreases k,
{
    if k <= 0 {
        seq![]
    } else {
        all_triplets(docs, k - 1) + row_triplets((k - 1) as usize, occurrence_table(docs[k - 1]))
    }
}

pub proof fn lemma_contains_push(s: Seq<usize>, v: usize, x: usize)
    ensures
        s.push(v).contains(x) <==> (s.contains(x) || x == v),
{
    if s.contains(x) {
        let i = choose|i: int| 0 <= i < s.len() && s[i] == x;
        assert(s.push(v)[i] == x);
    }
    if x == v {
        assert(s.push(v)[s.len() as int] == x);
    }
    if s.push(v).contains(x) {
        let i = choose|i: int| 0 <= i < s.len() + 1 && s.push(v)[i] == x;
        if i < s.len() {
            assert(s[i] == x);
        }
    }
}

pub proof fn lemma_count_bound(s: Seq<usize>, a: Set<usize>)
    ensures
        count_in(s, a) <= s.len(),
    decreases s.len(),
{
    if s.len() > 0 {
        lemma_count_bound(s.drop_last(), a);
    }
}

pub proof fn lemma_count_push(s: Seq<usize>, v: usize, a: Set<usize>)
    ensures
        count_in(s.push(v), a) == count_in(s, a) + if a.contains(v) {
            1nat
        } else {
            0nat
        },
{
    assert(s.push(v).drop_last() =~= s);
}

proof fn lemma_count_union(s: Seq<usize>, a: Set<usize>, b: Set<usize>)
    requires
        a.disjoint(b),
    ensures
        count_in(s, a.union(b)) == count_in(s, a) + count_in(s, b),
    decreases s.len(),
{
    if s.len() > 0 {
        lemma_count_union(s.drop_last(), a, b);
    }
}

proof fn lemma_count_all(s: Seq<usize>, a: Set<usize>)
    requires
        forall|i: int| 0 <= i < s.len() ==> a.contains(#[trigger] s[i]),
    ensures
        count_in(s, a) == s.len(),
    decreases s.len(),
{
    if s.len() > 0 {
        lemma_count_all(s.drop_last(), a);
    }
}

proof fn lemma_count_none(s: Seq<usize>)
    ensures
        count_in(s, Set::<usize>::empty()) == 0,
    decreases s.len(),
{
    if s.len() > 0 {
        lemma_count_none(s.drop_last());
    }
}

/// The keys of a partial frequency table are the distinct values of the
/// prefix it covers, each once.
pub proof fn lemma_table_keys(s: Seq<usize>, k: int)
    requires
        0 <= k <= s.len(),
    ensures
        forall|j: int|
            0 <= j < table_upto(s, k).len() ==> s.subrange(0, k).contains(
                #[trigger] table_upto(s, k)[j].0,
            ),
        forall|x: usize|
            s.subrange(0, k).contains(x) ==> exists|j: int|
                0 <= j < table_upto(s, k).len() && #[trigger] table_upto(s, k)[j].0 == x,
        forall|j1: int, j2: int|
            0 <= j1 < j2 < table_upto(s, k).len() ==> #[trigger] table_upto(s, k)[j1].0
                != #[trigger] table_upto(s, k)[j2].0,
    decreases k,
{
    if k > 0 {
        lemma_table_keys(s, k - 1);
        let p = s.subrange(0, k - 1);
        let t = table_upto(s, k - 1);
        assert(s.subrange(0, k) =~= p.push(s[k - 1]));
        assert forall|x: usize| #![auto] s.subrange(0, k).contains(x) <==> (p.contains(x) || x == s[k - 1]) by {
            lemma_contains_push(p, s[k - 1], x);
        }
        let t2 = table_upto(s, k);
        assert forall|x: usize| s.subrange(0, k).contains(x) implies exists|j: int|
            0 <= j < t2.len() && #[trigger] t2[j].0 == x by {
            if p.contains(x) {
                let j = choose|j: int| 0 <= j < t.len() && #[trigger] t[j].0 == x;
                assert(t2[j].0 == x);
            } else {
                assert(t2[t.len() as int].0 == x);
            }
        }
    }
}

/// The counts of a partial frequency table add up to the number of
/// positions whose value occurs in the prefix it covers.
proof fn lemma_table_total_upto(s: Seq<usize>, k: int)
    requires
        0 <= k <= s.len(),
        s.len() <= usize::MAX,
    ensures
        table_total(table_upto(s, k)) == count_in(
            s,
            Set::new(|x: usize| s.subrange(0, k).contains(x)),
        ),
    decreases k,
{
    let a = Set::new(|x: usize| s.subrange(0, k).contains(x));
    if k == 0 {
        assert(a =~= Set::<usize>::empty());
        lemma_count_none(s);
    } else {
        lemma_table_total_upto(s, k - 1);
        let p = s.subrange(0, k - 1);
        let b = Set::new(|x: usize| p.contains(x));
        assert(s.subrange(0, k) =~= p.push(s[k - 1]));
        assert forall|x: usize| #![auto] s.subrange(0, k).contains(x) <==> (p.contains(x) || x == s[k - 1]) by {
            lemma_contains_push(p, s[k - 1], x);
        }
        if p.contains(s[k - 1]) {
            assert(a =~= b);
        } else {
            assert(a =~= b.union(set![s[k - 1]]));
            lemma_count_union(s, b, set![s[k - 1]]);
            lemma_count_bound(s, set![s[k - 1]]);
            let t = table_upto(s, k - 1);
            let t2 = t.push((s[k - 1], occurrences(s, s[k - 1]) as usize));
            assert(t2.drop_last() =~= t);
        }
    }
}

/// The counts of a document's frequency table add up to its length.
pub proof fn lemma_table_total(s: Seq<usize>)
    requires
        s.len() <= usize::MAX,
    ensures
        table_total(occurrence_table(s)) == s.len(),
{
    lemma_table_total_upto(s, s.len() as int);
    let a = Set::new(|x: usize| s.subrange(0, s.len() as int).contains(x));
    assert(s.subrange(0, s.len() as int) =~= s);
    assert forall|i: int| 0 <= i < s.len() implies a.contains(#[trigger] s[i]) by {
        assert(s.subrange(0, s.len() as int)[i] == s[i]);
    }
    lemma_count_all(s, a);
}

/// The frequency table of a document: each distinct term index once, in
/// order of first occurrence, with the number of times it occurs.
pub fn count_occurrences(document: &[usize]) -> (r: Vec<(usize, usize)>)
    ensures
        r@ == occurrence_table(document@),
        forall|i: int| 0 <= i < r@.len() ==> #[trigger] r@[i].1 >= 1,
{
    let n = document.len();
    let mut counts = count_map_new();
    let mut i: usize = 0;
    while i < n
        invariant
            n == document@.len(),
            i <= n,
            forall|x: usize| #[trigger]
                counts@.contains_key(x) <==> document@.subrange(0, i as int).contains(x),
            forall|x: usize| #[trigger]
                counts@.contains_key(x) ==> counts@[x] == occurrences(
                    document@.subrange(0, i as int),
                    x,
                ),
        decreases n - i,
    {
        let t = document[i];
        let p = Ghost(document@.subrange(0, i as int));
        proof {
            assert(document@.subrange(0, i + 1) =~= p@.push(t));
            assert forall|x: usize| #![auto] document@.subrange(0, i + 1).contains(x) <==> (p@.contains(x) || x == t) by {
                lemma_contains_push(p@, t, x);
            }
            assert forall|x: usize| #![auto] occurrences(document@.subrange(0, i + 1), x)
                == occurrences(p@, x) + if x == t { 1nat } else { 0nat } by {
                lemma_count_push(p@, t, set![x]);
            }
            lemma_count_bound(p@, set![t]);
            if !p@.contains(t) {
                lemma_occurrences_absent(p@, t);
            }
        }
        match count_map_get(&counts, t) {
            Some(c) => count_map_insert(&mut counts, t, c + 1),
            None => count_map_insert(&mut counts, t, 1),
        }
        i = i + 1;
    }
    proof {
        assert(document@.subrange(0, n as int) =~= document@);
    }
    let mut out: Vec<(usize, usize)> = Vec::new();
    let mut i: usize = 0;
    while i < n
        invariant
            n == document@.len(),
            i <= n,
            out@ == table_upto(document@, i as int),
            forall|j: int| 0 <= j < out@.len() ==> #[trigger] out@[j].1 >= 1,
            forall|x: usize| #[trigger]
                counts@.contains_key(x) <==> (document@.contains(x) && !document@.subrange(
                    0,
                    i as int,
                ).contains(x)),
            forall|x: usize| #[trigger]
                counts@.contains_key(x) ==> counts@[x] == occurrences(document@, x),
        decreases n - i,
    {
        let t = document[i];
        let p = Ghost(document@.subrange(0, i as int));
        proof {
            assert(document@.subrange(0, i + 1) =~= p@.push(t));
            assert forall|x: usize| #![auto] document@.subrange(0, i + 1).contains(x) <==> (p@.contains(x) || x == t) by {
                lemma_contains_push(p@, t, x);
            }
            assert(document@.contains(t)) by {
                assert(document@[i as int] == t);
            }
            lemma_occurrences_present(document@, t);
        }
        match count_map_get(&counts, t) {
            Some(c) => {
                out.push((t, c));
                count_map_remove(&mut counts, t);
            },
            None => {},
        }
        i = i + 1;
    }
    out
}

proof fn lemma_occurrences_present(s: Seq<usize>, x: usize)
    requires
        s.contains(x),
    ensures
        occurrences(s, x) >= 1,
    decreases s.len(),
{
    if s.last() != x {
        assert(s.drop_last().contains(x)) by {
            let i = choose|i: int| 0 <= i < s.len() && s[i] == x;
            assert(s.drop_last()[i] == x);
        }
        lemma_occurrences_present(s.drop_last(), x);
    }
}

proof fn lemma_occurrences_absent(s: Seq<usize>, x: usize)
    requires
        !s.contains(x),
    ensures
        occurrences(s, x) == 0,
    decreases s.len(),
{
    if s.len() > 0 {
        assert(!s.drop_last().contains(x)) by {
            if s.drop_last().contains(x) {
                let i = choose|i: int| 0 <= i < s.drop_last().len() && s.drop_last()[i] == x;
                assert(s[i] == x);
            }
        }
        lemma_occurrences_absent(s.drop_last(), x);
        assert(s[s.len() - 1] != x);
    }
}

/// The term sequences of the documents.
pub open spec fn doc_views(docs: Seq<Vec<usize>>) -> Seq<Seq<usize>> {
    docs.map_values(|d: Vec<usize>| d@)
}

/// Every term index of every document lies below `cols`.
pub open spec fn terms_below(docs: Seq<Seq<usize>>, cols: int) -> bool {
    forall|d: int, i: int| 0 <= d < docs.len() && 0 <= i < docs[d].len() ==> #[trigger] docs[d][i] < cols
}

/// Adds to `matrix` one triplet (row, term, count) per distinct term of each
/// document, the row being the document's position.
pub fn fit_counts(documents: &[Vec<usize>], matrix: TriMat<usize>) -> (r: TriMat<usize>)
    requires
        documents@.len() <= tri_shape(matrix).0,
        terms_below(doc_views(documents@), tri_shape(matrix).1 as int),
    ensures
        tri_shape(r) == tri_shape(matrix),
        triplets(r) == triplets(matrix) + all_triplets(
            doc_views(documents@),
            documents@.len() as int,
        ),
        forall|i: int|
            triplets(matrix).len() <= i < triplets(r).len() ==> #[trigger] triplets(r)[i].2 >= 1,
{
    let ghost docs = doc_views(documents@);
    let mut matrix = matrix;
    let ghost start = triplets(matrix);
    let ghost shape = tri_shape(matrix);
    let mut d: usize = 0;
    while d < documents.len()
        invariant
            docs == doc_views(documents@),
            shape == tri_shape(matrix),
            d <= documents@.len(),
            documents@.len() <= tri_shape(matrix).0,
            terms_below(docs, tri_shape(matrix).1 as int),
            triplets(matrix) == start + all_triplets(docs, d as int),
            forall|i: int| start.len() <= i < triplets(matrix).len() ==> #[trigger] triplets(matrix)[i].2 >= 1,
        decreases documents@.len() - d,
    {
        let table = count_occurrences(documents[d].as_slice());
        proof {
            lemma_table_keys(docs[d as int], docs[d as int].len() as int);
            assert(docs[d as int].subrange(0, docs[d as int].len() as int) =~= docs[d as int]);
        }
        let mut j: usize = 0;
        while j < table.len()
            invariant
                docs == doc_views(documents@),
                shape == tri_shape(matrix),
                d < documents@.len(),
                documents@.len() <= tri_shape(matrix).0,
                terms_below(docs, tri_shape(matrix).1 as int),
                table@ == occurrence_table(docs[d as int]),
                forall|k: int| 0 <= k < table@.len() ==> docs[d as int].contains(#[trigger] table@[k].0),
                forall|k: int| 0 <= k < table@.len() ==> #[trigger] table@[k].1 >= 1,
                forall|i: int| start.len() <= i < triplets(matrix).len() ==> #[trigger] triplets(matrix)[i].2 >= 1,
                j <= table@.len(),
                triplets(matrix) == start + all_triplets(docs, d as int) + row_triplets(
                    d,
                    table@.subrange(0, j as int),
                ),
            decreases table@.len() - j,
        {
            let (t, c) = table[j];
            proof {
                let i = choose|i: int| 0 <= i < docs[d as int].len() && docs[d as int][i] == t;
                assert(docs[d as int][i] < tri_shape(matrix).1);
                assert(row_triplets(d, table@.subrange(0, j + 1)) =~= row_triplets(
                    d,
                    table@.subrange(0, j as int),
                ).push((d, t, c)));
            }
            tri_add(&mut matrix, d, t, c);
            j = j + 1;
        }
        proof {
            assert(table@.subrange(0, table@.len() as int) =~= table@);
            assert(all_triplets(docs, d + 1) =~= all_triplets(docs, d as int) + row_triplets(
                d,
                table@,
            ));
        }
        d = d + 1;
    }
    matrix
}

} // verus!
