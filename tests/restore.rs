use coderag::{
    ancestors, file_name, join_path, project_markers, quantized_size, ContentType, Document,
    DocumentMetadata, HnswIndex, HnswParams, ProjectManager, QuantizationMethod, StoreError,
    VectorEntry, VectorStorage, STORAGE_VERSION,
};

fn doc(id: &str, url: &str) -> Document {
    Document {
        id: id.to_string(),
        content: "Test content".to_string(),
        url: url.to_string(),
        title: Some("Test".to_string()),
        section: None,
        metadata: DocumentMetadata {
            content_type: ContentType::Documentation,
            language: Some("en".to_string()),
            last_updated: None,
            tags: vec!["test".to_string()],
        },
    }
}

fn entries_of(store: &VectorStorage) -> Vec<VectorEntry> {
    store.get_entries().to_vec()
}

#[test]
fn test_storage_operations() {
    let mut storage = VectorStorage::new(3);
    let embedding: Vec<u32> = [0.1f32, 0.2, 0.3].iter().map(|x| x.to_bits()).collect();
    storage.add_document(doc("test1", "https://example.com"), embedding, 0).unwrap();
    assert_eq!(storage.document_count(), 1);

    let storage2 = VectorStorage::restore(STORAGE_VERSION, 3, entries_of(&storage)).unwrap();
    assert_eq!(storage2.document_count(), 1);
    assert!(!storage2.is_modified());
}

#[test]
fn ten_documents_read_back_in_order_with_exact_vectors() {
    let mut store = VectorStorage::new(2);
    for i in 0..10u32 {
        store.add_document(doc(&format!("d{}", i), "u"), vec![(i as f32 * 0.1).to_bits(), 7], i as u64).unwrap();
    }
    let back = VectorStorage::restore(STORAGE_VERSION, 2, entries_of(&store)).unwrap();
    assert_eq!(back.document_count(), 10);
    for (a, b) in store.get_entries().iter().zip(back.get_entries()) {
        assert_eq!(a.id, b.id);
        assert_eq!(a.vector.bits, b.vector.bits);
        assert_eq!(a.document.content, b.document.content);
    }
}

#[test]
fn restore_refuses_bad_data() {
    let mut store = VectorStorage::new(1);
    store.add_document(doc("a", "u"), vec![1], 0).unwrap();
    store.add_document(doc("b", "u"), vec![2], 0).unwrap();
    let entries = entries_of(&store);
    assert_eq!(
        VectorStorage::restore(2, 1, entries.clone()).err(),
        Some(StoreError::VersionMismatch { expected: 1, found: 2 })
    );
    assert_eq!(
        VectorStorage::restore(STORAGE_VERSION, 2, entries.clone()).err(),
        Some(StoreError::DimensionMismatch { expected: 2, found: 1 })
    );
    let mut dup = entries.clone();
    dup.push(entries[0].clone());
    assert_eq!(VectorStorage::restore(STORAGE_VERSION, 1, dup).err(), Some(StoreError::DuplicateId));
    let mut odd = entries.clone();
    odd[1].id = "other".to_string();
    assert_eq!(VectorStorage::restore(STORAGE_VERSION, 1, odd).err(), Some(StoreError::InconsistentId));
}

#[test]
fn index_is_rebuilt_from_surviving_entries() {
    let mut store = VectorStorage::new(2);
    for i in 0..50u32 {
        let url = if i < 25 { "https://a.example" } else { "https://b.example" };
        let a = i as f32 * 0.1;
        store.add_document(doc(&i.to_string(), url), vec![a.cos().to_bits(), a.sin().to_bits()], 0).unwrap();
    }
    store.remove_documents_by_source(&"https://a.example".to_string());
    let vectors: Vec<Vec<f32>> = store
        .get_entries()
        .iter()
        .map(|e| e.vector.bits.iter().map(|b| f32::from_bits(*b)).collect())
        .collect();
    let levels = vec![0usize; store.document_count()];
    let index = HnswIndex::build(&store, HnswParams::default(), &levels, &|a: usize, b: usize| {
        let d: f32 = 1.0 - vectors[a].iter().zip(&vectors[b]).map(|(x, y)| x * y).sum::<f32>();
        coderag::score_rank(d.to_bits())
    });
    assert_eq!(store.document_count(), 25);
    assert_eq!(index.stats().node_count, 25);
    assert_eq!(index.node_ids()[0], "25");
}

#[test]
fn quantized_sizes() {
    assert_eq!(quantized_size(QuantizationMethod::Raw, 3), Some(12));
    assert_eq!(quantized_size(QuantizationMethod::Scalar8Bit, 3), Some(3));
    assert_eq!(quantized_size(QuantizationMethod::ProductQuantization, 3), None);
}

#[test]
fn project_paths() {
    let pm = ProjectManager::new("/home/me/.cache/coderag".to_string());
    let info = pm.get_project_info(Some("/work/myproj".to_string()));
    assert!(info.is_project);
    assert_eq!(info.database_path, "/work/myproj/.coderag/vectordb.json");
    assert_eq!(info.project_name.as_deref(), Some("myproj"));
    let info = pm.get_project_info(None);
    assert!(!info.is_project);
    assert_eq!(info.database_path, "/home/me/.cache/coderag/coderag_vectordb.json");
    assert_eq!(join_path("/a/", "b"), "/a/b");
    assert_eq!(file_name("/a/b/"), Some("b".to_string()));
    assert_eq!(file_name("/"), None);
    assert_eq!(ancestors("/a/b"), vec!["/a/b".to_string(), "/a".to_string(), "/".to_string()]);
    assert_eq!(ancestors("a/b"), vec!["a/b".to_string(), "a".to_string()]);
    assert_eq!(project_markers().len(), 10);
}

#[test]
fn file_name_edge_cases() {
    assert_eq!(file_name("a/.."), None);
    assert_eq!(file_name("a//"), Some("a".to_string()));
    assert_eq!(file_name(""), None);
    assert_eq!(file_name("name"), Some("name".to_string()));
}

#[test]
fn store_directory_is_ignored_once() {
    assert_eq!(
        coderag::gitignore_with_store("node_modules/"),
        Some("node_modules/\n\n# CodeRAG vector database\n.coderag/\n".to_string())
    );
    assert_eq!(coderag::gitignore_with_store("a\n  .coderag/  \n"), None);
    assert_eq!(coderag::gitignore_with_store(".coderag"), None);
    assert_eq!(coderag::gitignore_with_store(""), Some("\n# CodeRAG vector database\n.coderag/\n".to_string()));
}
