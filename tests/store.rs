use coderag::{ContentType, Document, DocumentMetadata, StoreError, VectorStorage};

fn doc(id: &str, content: &str, url: &str, last_updated: Option<u64>) -> Document {
    Document {
        id: id.to_string(),
        content: content.to_string(),
        url: url.to_string(),
        title: Some("Test".to_string()),
        section: None,
        metadata: DocumentMetadata {
            content_type: ContentType::Documentation,
            language: Some("en".to_string()),
            last_updated,
            tags: vec!["test".to_string()],
        },
    }
}

fn bits(v: &[f32]) -> Vec<u32> {
    v.iter().map(|x| x.to_bits()).collect()
}

#[test]
fn add_and_get_document() {
    let mut store = VectorStorage::new(3);
    let id = store.add_document(doc("test1", "Test content", "https://example.com", None), bits(&[0.1, 0.2, 0.3]), 10);
    assert_eq!(id, Ok("test1".to_string()));
    assert_eq!(store.document_count(), 1);
    assert!(store.is_modified());
    let d = store.get_document(&"test1".to_string()).unwrap();
    assert_eq!(d.content, "Test content");
    assert!(store.get_document(&"nope".to_string()).is_none());
    assert_eq!(store.get_entries()[0].vector.bits, bits(&[0.1, 0.2, 0.3]));
    assert_eq!(store.get_entries()[0].indexed_at, 10);
}

#[test]
fn dimension_mismatch_is_refused_and_store_unchanged() {
    let mut store = VectorStorage::new(3);
    store.add_document(doc("a", "x", "u", None), bits(&[1.0, 0.0, 0.0]), 0).unwrap();
    let r = store.add_document(doc("b", "y", "u", None), bits(&[1.0, 0.0]), 0);
    assert_eq!(r, Err(StoreError::DimensionMismatch { expected: 3, found: 2 }));
    assert_eq!(store.document_count(), 1);
    assert_eq!(store.get_entries()[0].id, "a");
}

#[test]
fn duplicate_id_is_refused_and_store_unchanged() {
    let mut store = VectorStorage::new(2);
    store.add_document(doc("a", "first", "u", None), bits(&[1.0, 0.0]), 0).unwrap();
    let r = store.add_document(doc("a", "second", "u", None), bits(&[0.0, 1.0]), 0);
    assert_eq!(r, Err(StoreError::DuplicateId));
    assert_eq!(store.document_count(), 1);
    assert_eq!(store.get_document(&"a".to_string()).unwrap().content, "first");
}

#[test]
fn remove_by_source_keeps_the_other_source_in_order() {
    let mut store = VectorStorage::new(1);
    for i in 0..50u32 {
        let url = if i % 2 == 0 { "https://a.example/docs" } else { "https://b.example/docs" };
        store.add_document(doc(&i.to_string(), "c", url, None), vec![i], 0).unwrap();
    }
    let removed = store.remove_documents_by_source(&"https://a.example/docs".to_string());
    assert_eq!(removed, 25);
    assert_eq!(store.document_count(), 25);
    for (k, e) in store.get_entries().iter().enumerate() {
        assert_eq!(e.document.url, "https://b.example/docs");
        assert_eq!(e.id, (2 * k + 1).to_string());
    }
}

#[test]
fn remove_by_age_drops_stale_documents() {
    let day = 86_400u64;
    let now = 1_000 * day;
    let mut store = VectorStorage::new(1);
    store.add_document(doc("old1", "a", "u", Some(now - 200 * day)), vec![1], now).unwrap();
    store.add_document(doc("old2", "b", "u", Some(now - 200 * day)), vec![2], now).unwrap();
    store.add_document(doc("fresh", "c", "u", Some(now - 10 * day)), vec![3], now).unwrap();
    let removed = store.remove_documents_by_age(now, 90);
    assert_eq!(removed, 2);
    assert_eq!(store.document_count(), 1);
    assert_eq!(store.get_entries()[0].id, "fresh");
}

#[test]
fn remove_by_age_uses_indexing_time_and_epoch_cutoff() {
    let mut store = VectorStorage::new(1);
    store.add_document(doc("x", "a", "u", None), vec![1], 5).unwrap();
    // the cutoff falls before the epoch: nothing is older than the epoch
    assert_eq!(store.remove_documents_by_age(100, 365), 0);
    assert_eq!(store.remove_documents_by_age(u64::MAX, u64::MAX), 0);
    // indexed at 5, cutoff at 5: expired
    assert_eq!(store.remove_documents_by_age(5 + 86_400, 1), 1);
    assert_eq!(store.document_count(), 0);
}

#[test]
fn empty_store_lists_no_sources() {
    let store = VectorStorage::new(4);
    let listing = store.list_sources();
    assert_eq!(listing.total_documents, 0);
    assert!(listing.sources.is_empty());
}

#[test]
fn sources_are_counted_once_each() {
    let mut store = VectorStorage::new(1);
    store.add_document(doc("1", "a", "https://a", None), vec![1], 0).unwrap();
    store.add_document(doc("2", "b", "https://b", None), vec![1], 0).unwrap();
    store.add_document(doc("3", "c", "https://a", None), vec![1], 0).unwrap();
    store.add_document(doc("4", "d", "", None), vec![1], 0).unwrap();
    let listing = store.list_sources();
    assert_eq!(listing.total_documents, 4);
    let pairs: Vec<(String, usize)> = listing.sources.iter().map(|s| (s.url.clone(), s.document_count)).collect();
    assert_eq!(
        pairs,
        vec![("https://a".to_string(), 2), ("https://b".to_string(), 1), ("local".to_string(), 1)]
    );
}

#[test]
fn clear_empties_the_store() {
    let mut store = VectorStorage::new(1);
    store.add_document(doc("1", "a", "u", None), vec![1], 0).unwrap();
    store.clear();
    assert_eq!(store.document_count(), 0);
    assert_eq!(store.dimension(), 1);
    assert!(store.add_document(doc("1", "a", "u", None), vec![1], 0).is_ok());
}

#[test]
fn preview_takes_the_first_two_hundred_characters() {
    let long = "é".repeat(250);
    let d = doc("p", &long, "u", None);
    assert_eq!(d.preview().chars().count(), 200);
    let short = doc("q", "short", "u", None);
    assert_eq!(short.preview(), "short");
}
