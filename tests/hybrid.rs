use coderag::{
    hybrid_rank, search_documents, tokenize, BM25Index, ContentType, Document, DocumentMetadata,
    SearchOptions, VectorStorage,
};

fn doc(id: &str, content: &str, url: &str) -> Document {
    Document {
        id: id.to_string(),
        content: content.to_string(),
        url: url.to_string(),
        title: None,
        section: None,
        metadata: DocumentMetadata { content_type: ContentType::Documentation, language: None, last_updated: None, tags: vec![] },
    }
}

fn cosine(a: &[f32], b: &[f32]) -> f32 {
    let dot: f32 = a.iter().zip(b).map(|(x, y)| x * y).sum();
    let na: f32 = a.iter().map(|x| x * x).sum::<f32>().sqrt();
    let nb: f32 = b.iter().map(|x| x * x).sum::<f32>().sqrt();
    if na == 0.0 || nb == 0.0 { 0.0 } else { dot / (na * nb) }
}

/// BM25 with k1 = 1.2 and b = 0.75 over the index's counts.
fn bm25_scores(index: &BM25Index, query: &str) -> Vec<f32> {
    let (k1, b) = (1.2f32, 0.75f32);
    let n = index.doc_count();
    let avgdl = (0..n).map(|i| index.doc_length(i)).sum::<usize>() as f32 / n as f32;
    let terms = tokenize(query);
    (0..n)
        .map(|i| {
            let dl = index.doc_length(i) as f32;
            let mut score = 0.0f32;
            for t in &terms {
                let tf = index.term_frequency(i, t) as f32;
                if tf > 0.0 {
                    let df = index.document_frequency(t) as f32;
                    let idf = ((n as f32 - df + 0.5) / (df + 0.5)).ln();
                    score += idf * (tf * (k1 + 1.0)) / (tf + k1 * (1.0 - b + b * dl / avgdl));
                }
            }
            score
        })
        .collect()
}

fn seeded_store() -> VectorStorage {
    let docs: [(&str, &str, &str, [f32; 3]); 4] = [
        ("1", "Rust is a systems programming language focused on safety and performance", "https://example.com/rust", [1.0, 0.1, 0.1]),
        ("2", "Python is a high-level programming language known for its readability", "https://example.com/python", [0.1, 1.0, 0.1]),
        ("3", "JavaScript is a web programming language used for frontend development", "https://example.com/js", [0.1, 0.1, 1.0]),
        ("4", "Rust and C++ are both systems programming languages with different approaches to memory safety", "https://example.com/compare", [0.8, 0.0, 0.2]),
    ];
    let mut store = VectorStorage::new(3);
    for (id, content, url, v) in docs {
        store.add_document(doc(id, content, url), v.iter().map(|x| x.to_bits()).collect(), 0).unwrap();
    }
    store
}

/// Ids with vector, normalised keyword and combined scores.
fn hybrid_scored(store: &VectorStorage, q: &[f32], text: &str, wv: f32, wk: f32, limit: usize) -> Vec<(String, f32, f32, f32)> {
    let mut index = BM25Index::new();
    for e in store.get_entries() {
        index.add_document(&e.id, &e.document.content);
    }
    let kw = bm25_scores(&index, text);
    let vs: Vec<f32> = store
        .get_entries()
        .iter()
        .map(|e| cosine(q, &e.vector.bits.iter().map(|b| f32::from_bits(*b)).collect::<Vec<f32>>()))
        .collect();
    let combined: Vec<u32> = vs
        .iter()
        .zip(&kw)
        .map(|(v, k)| {
            let norm = k / (1.0 + k);
            (wv * v + wk * norm).to_bits()
        })
        .collect();
    let mut options = SearchOptions::new();
    options.limit = limit;
    let picked = hybrid_rank(
        store,
        &vs.iter().map(|x| x.to_bits()).collect(),
        &kw.iter().map(|x| x.to_bits()).collect(),
        &combined,
        &options,
    );
    picked
        .iter()
        .map(|i| {
            let k = kw[*i];
            (store.get_entries()[*i].id.clone(), vs[*i], k / (1.0 + k), f32::from_bits(combined[*i]))
        })
        .collect()
}

#[test]
fn test_bm25_index() {
    let mut index = BM25Index::new();
    index.add_document("1", "rust systems programming safety performance");
    index.add_document("2", "python high level programming readability");
    index.add_document("3", "javascript web programming frontend");

    let scores = bm25_scores(&index, "rust programming");
    let best = (0..3).max_by(|a, b| scores[*a].partial_cmp(&scores[*b]).unwrap()).unwrap();
    assert_eq!(index.doc_id(best), "1");
    assert_eq!(index.doc_count(), 3);
}

#[test]
fn test_hybrid_search() {
    let store = seeded_store();
    let results = hybrid_scored(&store, &[0.9, 0.2, 0.1], "memory safety programming", 0.6, 0.4, 2);
    assert_eq!(results.len(), 2);
    assert_eq!(results[0].0, "4");
    assert!(results[0].1 > 0.0);
    assert!(results[0].2 > 0.0);
    assert!(results[0].3 > 0.0);
}

#[test]
fn test_vector_only_search() {
    let store = seeded_store();
    let q = [0.9f32, 0.2, 0.1];
    let scores: Vec<u32> = store
        .get_entries()
        .iter()
        .map(|e| cosine(&q, &e.vector.bits.iter().map(|b| f32::from_bits(*b)).collect::<Vec<f32>>()).to_bits())
        .collect();
    let mut options = SearchOptions::new();
    options.limit = 2;
    let hits = search_documents(&store, &scores, &options);
    assert_eq!(hits.len(), 2);
    assert_eq!(hits[0].id, "1");
}

#[test]
fn keyword_counts_follow_tokenization() {
    let mut index = BM25Index::new();
    index.add_document("a", "Memory-safety, memory SAFETY!");
    index.add_document("b", "nothing here");
    assert_eq!(tokenize("  Memory-safety, memory SAFETY! "), vec!["memory-safety", "memory", "safety"]);
    assert_eq!(index.doc_length(0), 3);
    assert_eq!(index.term_frequency(0, &"memory".to_string()), 1);
    assert_eq!(index.document_frequency(&"safety".to_string()), 1);
    assert_eq!(index.document_frequency(&"absent".to_string()), 0);
    assert_eq!(index.term_frequency(1, &"absent".to_string()), 0);
    assert!(tokenize("... !!! ").is_empty());
}

#[test]
fn token_in_every_document_has_negative_idf() {
    let mut index = BM25Index::new();
    index.add_document("1", "common alpha");
    index.add_document("2", "common beta");
    let n = index.doc_count() as f32;
    let df = index.document_frequency(&"common".to_string()) as f32;
    assert_eq!(df, n);
    assert!(((n - df + 0.5) / (df + 0.5)).ln() < 0.0);
    let scores = bm25_scores(&index, "common");
    assert!(scores.iter().all(|s| *s < 0.0));
    let absent = bm25_scores(&index, "zeta");
    assert!(absent.iter().all(|s| *s == 0.0));
}

#[test]
fn hybrid_applies_filters_to_keyword_candidates() {
    let store = seeded_store();
    let vs: Vec<u32> = vec![0.9f32, 0.1, 0.1, 0.8].iter().map(|x| x.to_bits()).collect();
    let kw: Vec<u32> = vec![0.0f32, 0.0, 0.0, 2.0].iter().map(|x| x.to_bits()).collect();
    let combined: Vec<u32> = vec![0.54f32, 0.06, 0.06, 0.75].iter().map(|x| x.to_bits()).collect();
    let mut options = SearchOptions::new();
    options.limit = 1;
    assert_eq!(hybrid_rank(&store, &vs, &kw, &combined, &options), vec![3]);
    options.source_filter = Some("/rust".to_string());
    assert_eq!(hybrid_rank(&store, &vs, &kw, &combined, &options), vec![0]);
    options.limit = 0;
    assert!(hybrid_rank(&store, &vs, &kw, &combined, &options).is_empty());
}
