use coderag::{
    score_rank, search_documents, top_k, ContentType, Document, DocumentMetadata, SearchOptions,
    VectorStorage,
};

fn doc(id: &str, url: &str, kind: ContentType) -> Document {
    Document {
        id: id.to_string(),
        content: format!("content {}", id),
        url: url.to_string(),
        title: None,
        section: None,
        metadata: DocumentMetadata { content_type: kind, language: None, last_updated: None, tags: vec![] },
    }
}

fn cosine(a: &[f32], b: &[f32]) -> f32 {
    let dot: f32 = a.iter().zip(b).map(|(x, y)| x * y).sum();
    let na: f32 = a.iter().map(|x| x * x).sum::<f32>().sqrt();
    let nb: f32 = b.iter().map(|x| x * x).sum::<f32>().sqrt();
    if na == 0.0 || nb == 0.0 { 0.0 } else { dot / (na * nb) }
}

fn scores(store: &VectorStorage, q: &[f32]) -> Vec<u32> {
    store
        .get_entries()
        .iter()
        .map(|e| {
            let v: Vec<f32> = e.vector.bits.iter().map(|b| f32::from_bits(*b)).collect();
            cosine(q, &v).to_bits()
        })
        .collect()
}

#[test]
fn three_way_distinct_query() {
    let mut store = VectorStorage::new(3);
    for (id, v) in [("a", [1.0f32, 0.0, 0.0]), ("b", [0.0, 1.0, 0.0]), ("c", [0.0, 0.0, 1.0])] {
        store.add_document(doc(id, "u", ContentType::Documentation), v.iter().map(|x| x.to_bits()).collect(), 0).unwrap();
    }
    let s = scores(&store, &[0.9, 0.1, 0.0]);
    let mut options = SearchOptions::new();
    options.limit = 2;
    let hits = search_documents(&store, &s, &options);
    let ids: Vec<&str> = hits.iter().map(|h| h.id.as_str()).collect();
    assert_eq!(ids, vec!["a", "b"]);
    assert!(f32::from_bits(hits[0].score) > 0.99);
    assert!(f32::from_bits(hits[1].score) > 0.0);
}

#[test]
fn empty_store_search_is_empty() {
    let store = VectorStorage::new(3);
    let hits = search_documents(&store, &vec![], &SearchOptions::new());
    assert!(hits.is_empty());
}

#[test]
fn result_count_is_limit_or_what_passes_filters() {
    let mut store = VectorStorage::new(1);
    for i in 0..6u32 {
        let kind = if i < 2 { ContentType::Tutorial } else { ContentType::Reference };
        store.add_document(doc(&i.to_string(), "https://x/docs", kind), vec![i], 0).unwrap();
    }
    let s: Vec<u32> = (0..6).map(|i| (i as f32 / 10.0).to_bits()).collect();
    let mut options = SearchOptions::new();
    options.limit = 3;
    let hits = search_documents(&store, &s, &options);
    assert_eq!(hits.len(), 3);
    let ids: Vec<&str> = hits.iter().map(|h| h.id.as_str()).collect();
    assert_eq!(ids, vec!["5", "4", "3"]);

    options.content_type_filter = Some(ContentType::Tutorial);
    let hits = search_documents(&store, &s, &options);
    let ids: Vec<&str> = hits.iter().map(|h| h.id.as_str()).collect();
    assert_eq!(ids, vec!["1", "0"]);

    options.content_type_filter = None;
    options.min_score = Some(0.35f32.to_bits());
    let hits = search_documents(&store, &s, &options);
    let ids: Vec<&str> = hits.iter().map(|h| h.id.as_str()).collect();
    assert_eq!(ids, vec!["5", "4"]);

    options.min_score = None;
    options.source_filter = Some("elsewhere".to_string());
    assert!(search_documents(&store, &s, &options).is_empty());
    options.source_filter = Some("/docs".to_string());
    assert_eq!(search_documents(&store, &s, &options).len(), 3);
}

#[test]
fn equal_scores_keep_insertion_order_and_negatives_rank_low() {
    let ranks: Vec<u64> = [0.5f32, -0.25, 0.5, -1.0, 0.75].iter().map(|x| score_rank(x.to_bits()) as u64).collect();
    let eligible = vec![true; 5];
    assert_eq!(top_k(&ranks, &eligible, 10), vec![4, 0, 2, 1, 3]);
    assert_eq!(top_k(&ranks, &eligible, 2), vec![4, 0]);
    assert_eq!(top_k(&ranks, &vec![false, true, false, true, false], 5), vec![1, 3]);
    assert!(top_k(&ranks, &eligible, 0).is_empty());
}

#[test]
fn score_rank_orders_like_floats() {
    let xs = [-2.0f32, -0.5, 0.0, 0.25, 1.0];
    for w in xs.windows(2) {
        assert!(score_rank(w[0].to_bits()) < score_rank(w[1].to_bits()));
    }
    assert_eq!(score_rank(0.0f32.to_bits()), 0x8000_0000);
}
