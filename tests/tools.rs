use coderag::{
    manage_docs, parse_content_type, parse_manage_operation, ContentType, Document,
    DocumentMetadata, ManageOperation, McpError, VectorStorage,
};

fn doc(id: &str, url: &str, last_updated: Option<u64>) -> Document {
    Document {
        id: id.to_string(),
        content: "c".to_string(),
        url: url.to_string(),
        title: None,
        section: None,
        metadata: DocumentMetadata { content_type: ContentType::Documentation, language: None, last_updated, tags: vec![] },
    }
}

const DAY: u64 = 86_400;

fn store() -> VectorStorage {
    let now = 1_000 * DAY;
    let mut s = VectorStorage::new(1);
    s.add_document(doc("1", "https://a", Some(now - 200 * DAY)), vec![1], now).unwrap();
    s.add_document(doc("2", "https://a", Some(now - 10 * DAY)), vec![1], now).unwrap();
    s.add_document(doc("3", "https://b", Some(now - 100 * DAY)), vec![1], now).unwrap();
    s
}

#[test]
fn delete_counts_on_dry_run_and_removes_otherwise() {
    let mut s = store();
    let target = "https://a".to_string();
    let r = manage_docs(&mut s, ManageOperation::Delete, &target, None, true, 1_000 * DAY);
    assert_eq!((r.affected, r.remaining, r.dry_run), (2, 3, true));
    let r = manage_docs(&mut s, ManageOperation::Delete, &target, None, false, 1_000 * DAY);
    assert_eq!((r.affected, r.remaining), (2, 1));
    assert_eq!(s.get_entries()[0].id, "3");
}

#[test]
fn expire_defaults_to_ninety_days() {
    let mut s = store();
    let r = manage_docs(&mut s, ManageOperation::Expire, &String::new(), None, true, 1_000 * DAY);
    assert_eq!(r.max_age_days, Some(90));
    assert_eq!(r.affected, 2);
    assert_eq!(s.document_count(), 3);
    let r = manage_docs(&mut s, ManageOperation::Expire, &String::new(), Some(150), false, 1_000 * DAY);
    assert_eq!((r.affected, r.remaining), (1, 2));
}

#[test]
fn refresh_removes_the_source() {
    let mut s = store();
    let r = manage_docs(&mut s, ManageOperation::Refresh, &"https://b".to_string(), None, false, 0);
    assert_eq!((r.affected, r.remaining), (1, 2));
    assert_eq!(r.operation, ManageOperation::Refresh);
}

#[test]
fn request_names_are_parsed() {
    assert_eq!(parse_manage_operation("delete").ok(), Some(ManageOperation::Delete));
    assert_eq!(parse_manage_operation("expire").ok(), Some(ManageOperation::Expire));
    assert_eq!(parse_manage_operation("refresh").ok(), Some(ManageOperation::Refresh));
    assert!(matches!(parse_manage_operation("purge"), Err(McpError::InvalidParams(_))));
    assert_eq!(parse_content_type("documentation"), Some(ContentType::Documentation));
    assert_eq!(parse_content_type("code"), Some(ContentType::CodeExample));
    assert_eq!(parse_content_type("tutorial"), Some(ContentType::Tutorial));
    assert_eq!(parse_content_type("api"), Some(ContentType::Reference));
    assert_eq!(parse_content_type("reference"), Some(ContentType::Reference));
    assert_eq!(parse_content_type("blog"), None);
}
