use coderag::{
    parse_crawl_mode, parse_focus, should_crawl_url, should_follow_links, CrawlConfig, CrawlFrontier,
    CrawlMode, DocumentationFocus,
};

#[test]
fn test_crawler_config_defaults() {
    let config = CrawlConfig::default();

    assert_eq!(config.max_pages, 100);
    assert_eq!(config.max_depth, 5);
    assert_eq!(config.concurrent_requests, 2);
    assert_eq!(config.delay_ms, 500);
    assert_eq!(config.user_agent, "CodeRAG/0.1.0 (AI Documentation Assistant)");
}

#[test]
fn test_url_pattern_defaults() {
    let config = CrawlConfig::default();
    let patterns = &config.url_patterns;

    assert!(patterns.accept.contains(&"/docs/".to_string()));
    assert!(patterns.accept.contains(&"/api/".to_string()));
    assert!(patterns.accept.contains(&"/guide/".to_string()));

    assert!(patterns.exclude.contains(&"/blog/".to_string()));
    assert!(patterns.exclude.contains(&"/forum/".to_string()));
}

#[test]
fn follow_policy_by_mode() {
    assert!(!should_follow_links(CrawlMode::SinglePage, 0, 5));
    assert!(should_follow_links(CrawlMode::Section, 0, 5));
    assert!(!should_follow_links(CrawlMode::Section, 1, 5));
    assert!(should_follow_links(CrawlMode::FullDocs, 4, 5));
    assert!(!should_follow_links(CrawlMode::FullDocs, 5, 5));
}

#[test]
fn url_filter_applies_patterns_and_domains() {
    let mut config = CrawlConfig::default();
    assert!(should_crawl_url(&config, "https://example.com/docs/intro"));
    assert!(!should_crawl_url(&config, "https://example.com/blog/docs/post"));
    assert!(!should_crawl_url(&config, "https://example.com/about"));
    assert!(!should_crawl_url(&config, "not a url /docs/"));
    config.allowed_domains = vec!["example.com".to_string()];
    assert!(should_crawl_url(&config, "https://example.com/docs/intro"));
    assert!(!should_crawl_url(&config, "https://other.org/docs/intro"));
    config.url_patterns.accept.clear();
    assert!(should_crawl_url(&config, "https://example.com/about"));
}

#[test]
fn mode_and_focus_names() {
    assert_eq!(parse_crawl_mode("single").ok(), Some(CrawlMode::SinglePage));
    assert_eq!(parse_crawl_mode("section").ok(), Some(CrawlMode::Section));
    assert_eq!(parse_crawl_mode("full").ok(), Some(CrawlMode::FullDocs));
    assert!(matches!(parse_crawl_mode("other"), Err(coderag::McpError::InvalidParams(_))));
    assert_eq!(parse_focus("api").ok(), Some(DocumentationFocus::ApiReference));
    assert_eq!(parse_focus("examples").ok(), Some(DocumentationFocus::Examples));
    assert_eq!(parse_focus("changelog").ok(), Some(DocumentationFocus::Changelog));
    assert_eq!(parse_focus("quickstart").ok(), Some(DocumentationFocus::QuickStart));
    assert_eq!(parse_focus("all").ok(), Some(DocumentationFocus::All));
    assert!(matches!(parse_focus("x"), Err(coderag::McpError::InvalidParams(_))));
}

#[test]
fn unreachable_start_url_gives_no_pages_and_one_failure() {
    let mut config = CrawlConfig::default();
    config.start_url = "https://unreachable.invalid/docs/".to_string();
    let mut frontier = CrawlFrontier::new(config);
    let (url, depth) = frontier.next_url().unwrap();
    assert_eq!(url, "https://unreachable.invalid/docs/");
    assert_eq!(depth, 0);
    frontier.record_failure();
    assert!(frontier.next_url().is_none());
    assert!(frontier.crawled_urls().is_empty());
    assert_eq!(frontier.progress().pages_failed, 1);
    assert_eq!(frontier.progress().pages_crawled, 0);
}

/// A ten-page site where page i links to pages i+1 and i+2 and back to 0.
fn links_of(url: &str) -> Vec<String> {
    let i: usize = url.trim_end_matches('/').rsplit('/').next().unwrap().parse().unwrap();
    vec![format!("/docs/{}", (i + 1) % 10), format!("/docs/{}", (i + 2) % 10), "/docs/0".to_string()]
}

#[test]
fn crawl_stops_at_max_pages_without_repeats() {
    let mut config = CrawlConfig::default();
    config.start_url = "https://site.test/docs/0".to_string();
    config.mode = CrawlMode::FullDocs;
    config.max_pages = 3;
    config.max_depth = 5;
    let mut frontier = CrawlFrontier::new(config);
    let mut fetched = Vec::new();
    while let Some((url, _depth)) = frontier.next_url() {
        fetched.push(url.clone());
        frontier.record_success(&links_of(&url));
    }
    assert_eq!(frontier.crawled_urls().len(), 3);
    assert_eq!(
        frontier.crawled_urls().clone(),
        vec![
            "https://site.test/docs/0".to_string(),
            "https://site.test/docs/1".to_string(),
            "https://site.test/docs/2".to_string()
        ]
    );
    assert_eq!(fetched.len(), 3);
}

#[test]
fn single_page_mode_queues_nothing() {
    let mut config = CrawlConfig::default();
    config.start_url = "https://site.test/docs/0".to_string();
    let mut frontier = CrawlFrontier::new(config);
    let (url, _) = frontier.next_url().unwrap();
    frontier.record_success(&links_of(&url));
    assert_eq!(frontier.progress().pages_queued, 0);
    assert!(frontier.next_url().is_none());
    assert_eq!(frontier.crawled_urls().len(), 1);
}

#[test]
fn section_mode_follows_only_from_the_start_page() {
    let mut config = CrawlConfig::default();
    config.start_url = "https://site.test/docs/0".to_string();
    config.mode = CrawlMode::Section;
    let mut frontier = CrawlFrontier::new(config);
    let mut n = 0;
    while let Some((url, depth)) = frontier.next_url() {
        assert!(depth <= 1);
        frontier.record_success(&links_of(&url));
        n += 1;
    }
    // page 0, then its links 1 and 2 (the link back to 0 was visited)
    assert_eq!(n, 3);
}

#[test]
fn pacer_spaces_requests() {
    let mut pacer = coderag::Pacer::new(500, 2);
    assert_eq!(pacer.wait_before_start(0), 0);
    pacer.record_start(1000);
    assert_eq!(pacer.wait_before_start(1100), 400);
    pacer.record_finish(1200);
    assert_eq!(pacer.wait_before_start(1300), 400);
    assert_eq!(pacer.wait_before_start(1800), 0);
    let mut fast = coderag::Pacer::new(0, 4);
    fast.record_start(10);
    fast.record_finish(11);
    assert_eq!(fast.wait_before_start(11), 249);
    let mut edge = coderag::Pacer::new(u64::MAX, 1);
    edge.record_finish(5);
    assert_eq!(edge.wait_before_start(5), u64::MAX);
}

#[test]
fn pages_beyond_the_depth_limit_are_passed_over() {
    let mut config = CrawlConfig::default();
    config.start_url = "https://site.test/docs/0".to_string();
    config.mode = CrawlMode::FullDocs;
    config.max_depth = 1;
    let mut frontier = CrawlFrontier::new(config);
    let mut depths = Vec::new();
    while let Some((url, depth)) = frontier.next_url() {
        depths.push(depth);
        frontier.record_success(&links_of(&url));
    }
    assert!(depths.iter().all(|d| *d <= 1));
    assert_eq!(depths, vec![0, 1, 1]);
}

#[test]
fn passages_become_documents() {
    let chunk = coderag::DocumentChunk {
        content: "let x = 1;".to_string(),
        start_char: 0,
        end_char: 10,
        has_code: true,
        heading_context: Some("Guide > Start".to_string()),
    };
    let d = coderag::chunk_document("https://a.test/docs", 11, 12, &chunk, &"Title".to_string(), &Some("Rust".to_string()), 77);
    assert_eq!(d.id, "https://a.test/docs_chunk_11");
    assert_eq!(d.metadata.tags, vec!["has-code".to_string(), "chunk-12-of-12".to_string()]);
    assert_eq!(d.section.as_deref(), Some("Guide > Start"));
    assert_eq!(d.metadata.last_updated, Some(77));
    assert_eq!(d.metadata.content_type, coderag::ContentType::Documentation);
    let docs = coderag::page_documents("u", &vec![chunk.clone(), chunk], &"T".to_string(), &None, 1);
    assert_eq!(docs[0].id, "u_chunk_0");
    assert_eq!(docs[1].metadata.tags[1], "chunk-2-of-2");
}
