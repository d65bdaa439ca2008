use indexmap::IndexSet;
use rustc_hash::FxHashSet;
use sprs::TriMat;
use tfidf::{
    count_occurrences, create_indices, fit_counts, intern, normalize_word, DocumentStore,
    FitState, Scaling, TFIDFModel, TfidfError,
};

fn words(line: &str) -> Vec<String> {
    line.split_whitespace().map(|w| w.to_string()).collect()
}

fn corpus(lines: &[&str]) -> Vec<Vec<String>> {
    lines.iter().map(|l| words(l)).collect()
}

fn stops(list: &[&str]) -> FxHashSet<String> {
    let mut s = FxHashSet::default();
    for w in list {
        s.insert(w.to_string());
    }
    s
}

fn term_names(store: &DocumentStore, doc: usize) -> Vec<String> {
    store.documents[doc]
        .iter()
        .map(|&t| store.term_at(t).unwrap().clone())
        .collect()
}

/// Cosine similarity of each weighted row with the query's counts; the
/// first row with the strictly greatest value wins.
fn best_match(model: &TFIDFModel, scaling: &Scaling, query: &[(usize, usize)]) -> String {
    let n = scaling.n as f64;
    let mut rows: Vec<Vec<(usize, f64)>> = vec![Vec::new(); scaling.n];
    for ((&d, &t), &c) in model
        .matrix
        .row_inds()
        .iter()
        .zip(model.matrix.col_inds().iter())
        .zip(model.matrix.data().iter())
    {
        let tf = c as f64 / scaling.row_lengths[d] as f64;
        let idf = (n / scaling.doc_freqs[t] as f64).log2();
        rows[d].push((t, tf * idf));
    }
    let qnorm = query.iter().map(|&(_, c)| (c * c) as f64).sum::<f64>().sqrt();
    let mut best = 0usize;
    let mut best_cos = f64::NEG_INFINITY;
    for (d, row) in rows.iter().enumerate() {
        let dot: f64 = row
            .iter()
            .map(|&(t, w)| {
                query.iter().filter(|&&(q, _)| q == t).map(|&(_, c)| w * c as f64).sum::<f64>()
            })
            .sum();
        let norm = row.iter().map(|&(_, w)| w * w).sum::<f64>().sqrt();
        let cos = dot / (norm * qnorm);
        if cos > best_cos {
            best_cos = cos;
            best = d;
        }
    }
    model.index.document_at(best).unwrap().clone()
}

#[test]
fn normalize_lowercases_and_strips_punctuation() {
    assert_eq!(normalize_word("Hello,World!"), "helloworld");
    assert_eq!(normalize_word("don't"), "dont");
    assert_eq!(normalize_word("..."), "");
    assert_eq!(normalize_word("Zebra-42"), "zebra42");
    assert_eq!(normalize_word("été"), "été");
}

#[test]
fn intern_twice_gives_same_index() {
    let mut set: IndexSet<String> = IndexSet::new();
    let a = intern(&mut set, "cat".to_string());
    let b = intern(&mut set, "dog".to_string());
    let a2 = intern(&mut set, "cat".to_string());
    assert_eq!(a, 0);
    assert_eq!(b, 1);
    assert_eq!(a2, a);
    assert_eq!(set.len(), 2);
}

#[test]
fn intern_round_trip() {
    let mut set: IndexSet<String> = IndexSet::new();
    for w in ["the", "cat", "sat", "on", "the", "mat"] {
        let i = intern(&mut set, w.to_string());
        assert_eq!(set.get_index(i).unwrap(), w);
    }
    assert_eq!(set.len(), 5);
}

#[test]
fn count_occurrences_first_seen_order() {
    assert_eq!(count_occurrences(&[3, 1, 3, 2, 1, 3]), vec![(3, 3), (1, 2), (2, 1)]);
    assert_eq!(count_occurrences(&[]), Vec::<(usize, usize)>::new());
    assert_eq!(count_occurrences(&[7]), vec![(7, 1)]);
}

#[test]
fn fit_counts_one_triplet_per_distinct_term() {
    let docs = vec![vec![0, 1, 0], vec![], vec![2, 2, 2, 1]];
    let m = fit_counts(&docs, TriMat::new((3, 3)));
    assert_eq!(m.row_inds(), &[0, 0, 2, 2]);
    assert_eq!(m.col_inds(), &[0, 1, 2, 1]);
    assert_eq!(m.data(), &[2, 1, 3, 1]);
    assert_eq!(m.shape(), (3, 3));
}

#[test]
fn create_indices_builds_terms_and_documents() {
    let store = create_indices(
        corpus(&["doc1 The cat, sat", "doc2 the dog ran", "", "doc1 Cat!"]),
        stops(&["the"]),
    );
    assert_eq!(store.num_documents(), 2);
    assert_eq!(store.document_at(0).unwrap(), "doc1");
    assert_eq!(store.document_at(1).unwrap(), "doc2");
    assert!(store.document_at(2).is_none());
    assert_eq!(store.num_terms(), 4);
    assert_eq!(term_names(&store, 0), vec!["cat", "sat", "cat"]);
    assert_eq!(term_names(&store, 1), vec!["dog", "ran"]);
    assert!(store.term_at(4).is_none());
    assert_eq!(store.term_index_of("dog"), Some(2));
    assert_eq!(store.term_index_of("the"), None);
}

#[test]
fn document_with_only_a_name_is_recorded() {
    let store = DocumentStore::new(corpus(&["lonely", "doc2 the"]), stops(&["the"]));
    assert_eq!(store.num_documents(), 2);
    assert!(store.documents[0].is_empty());
    assert!(store.documents[1].is_empty());
    assert_eq!(store.num_terms(), 0);
}

#[test]
fn tokenize_keeps_known_non_stopwords() {
    let store = create_indices(corpus(&["d1 red green blue", "d2 green"]), stops(&["the"]));
    assert_eq!(store.tokenize("  The GREEN\tpurple red, green "), vec![1, 0, 1]);
    assert_eq!(store.tokenize(""), Vec::<usize>::new());
    assert_eq!(store.embed("green red green"), vec![(1, 2), (0, 1)]);
}

#[test]
fn empty_corpus_is_refused() {
    assert!(matches!(TFIDFModel::new(vec![], None), Err(TfidfError::EmptyCorpus)));
    assert!(matches!(
        TFIDFModel::new(vec![vec![], vec![]], Some(stops(&["x"]))),
        Err(TfidfError::EmptyCorpus)
    ));
}

#[test]
fn fit_twice_is_refused() {
    let mut model = TFIDFModel::new(corpus(&["a x y", "b y z"]), None).unwrap();
    assert_eq!(model.state, FitState::Raw);
    assert!(model.fit().is_ok());
    assert_eq!(model.state, FitState::Weighted);
    assert!(matches!(model.fit(), Err(TfidfError::DoubleFit)));
    assert_eq!(model.state, FitState::Weighted);
}

#[test]
fn query_before_fit_is_refused() {
    let model = TFIDFModel::new(corpus(&["a x y"]), None).unwrap();
    assert!(matches!(model.query("x"), Err(TfidfError::IndexNotFit)));
}

#[test]
fn fit_hands_back_lengths_and_document_frequencies() {
    let mut model =
        TFIDFModel::new(corpus(&["a x y x", "b y z", "c y"]), Some(stops(&["q"]))).unwrap();
    let s = model.fit().unwrap();
    assert_eq!(s.n, 3);
    assert_eq!(s.row_lengths, vec![3, 2, 1]);
    // terms: x, y, z
    assert_eq!(s.doc_freqs, vec![1, 3, 1]);
    assert_eq!(model.find_across_documents(1), 3);
    assert_eq!(model.find_across_documents(2), 1);
    assert_eq!(model.document_lengths(), vec![3, 2, 1]);
    assert_eq!(model.document_frequencies(), vec![1, 3, 1]);
}

#[test]
fn raw_row_counts_sum_to_document_length() {
    let model =
        TFIDFModel::new(corpus(&["a x y x x", "b", "c z z y"]), Some(stops(&["y"]))).unwrap();
    let mut sums = vec![0usize; 3];
    for (&d, &c) in model.matrix.row_inds().iter().zip(model.matrix.data().iter()) {
        sums[d] += c;
    }
    assert_eq!(sums, vec![3, 0, 2]);
    assert_eq!(model.document_lengths(), vec![3, 0, 2]);
}

#[test]
fn document_frequencies_lie_between_one_and_n() {
    let mut model = TFIDFModel::new(corpus(&["a k x", "b k y", "c k x z"]), None).unwrap();
    let s = model.fit().unwrap();
    for &df in &s.doc_freqs {
        assert!(df >= 1 && df <= s.n);
    }
    let k = model.index.term_index_of("k").unwrap();
    assert_eq!(s.doc_freqs[k], 3);
    assert_eq!((s.n as f64 / s.doc_freqs[k] as f64).log2(), 0.0);
}

#[test]
fn scenario_cat_and_dog() {
    let mut model = TFIDFModel::new(
        corpus(&["doc1 the cat sat", "doc2 the dog ran"]),
        Some(stops(&["the"])),
    )
    .unwrap();
    let s = model.fit().unwrap();
    let q = model.query("cat").unwrap();
    assert_eq!(best_match(&model, &s, &q), "doc1");
    let q = model.query("dog").unwrap();
    assert_eq!(best_match(&model, &s, &q), "doc2");
    assert!(matches!(model.query("the"), Err(TfidfError::EmptyQuery)));
    assert!(matches!(model.query("unicorn"), Err(TfidfError::EmptyQuery)));
}

#[test]
fn scenario_repeated_document_and_unique_term() {
    let mut model = TFIDFModel::new(
        corpus(&[
            "first apples and pears",
            "second apples and pears",
            "third apples and plums",
        ]),
        None,
    )
    .unwrap();
    let s = model.fit().unwrap();
    let q = model.query("apples plums").unwrap();
    assert_eq!(best_match(&model, &s, &q), "third");
}

#[test]
fn repeated_queries_agree() {
    let mut model =
        TFIDFModel::new(corpus(&["d1 red green", "d2 green blue", "d3 blue"]), None).unwrap();
    let s = model.fit().unwrap();
    let a = model.query("green blue").unwrap();
    let b = model.query("green blue").unwrap();
    assert_eq!(a, b);
    assert_eq!(best_match(&model, &s, &a), best_match(&model, &s, &b));
}
