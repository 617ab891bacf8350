use coderag::{ChunkingStrategy, EnhancedChunker};

#[test]
fn test_fixed_size_chunking() {
    let text = "This is a test paragraph. It contains multiple sentences.\n\nThis is another paragraph. It also has multiple sentences. This paragraph is longer than the first one.";

    let mut chunker = EnhancedChunker::new(ChunkingStrategy::FixedSizeOverlap {
        chunk_size: 50,
        overlap: 10,
    });

    let chunks = chunker.chunk_text(text);

    assert!(chunks.len() > 1);
    assert!(chunks[0].content.starts_with("This is a test paragraph"));
}

#[test]
fn test_semantic_boundaries_chunking() {
    let text = "# Heading 1\n\nThis is paragraph 1.\n\n## Heading 2\n\nThis is paragraph 2.\n\nThis is paragraph 3.";

    let mut chunker = EnhancedChunker::new(ChunkingStrategy::SemanticBoundaries {
        max_size: 50,
        min_size: 10,
    });

    let chunks = chunker.chunk_text(text);

    assert!(chunks.len() >= 2);
}

#[test]
fn test_heading_based_chunking() {
    let text = "# Heading 1\n\nThis is paragraph 1.\n\n## Heading 2\n\nThis is paragraph 2.\n\nThis is paragraph 3.\n\n# Heading 3\n\nFinal paragraph.";

    let mut chunker = EnhancedChunker::new(ChunkingStrategy::HeadingBased {
        max_size: 200,
        min_size: 10,
    });

    let chunks = chunker.chunk_text(text);

    assert!(chunks.len() >= 2);
    assert_eq!(chunks[0].heading, Some("Heading 1".to_string()));
}

#[test]
fn test_deduplication() {
    let text = "This is a test paragraph.\n\nThis is a test paragraph.";

    let mut chunker = EnhancedChunker::new(ChunkingStrategy::default());

    let chunks = chunker.chunk_text(text);

    assert_eq!(chunks.len(), 1);
}

#[test]
fn test_code_detection() {
    let text = "This is a paragraph.\n\n```rust\nfn main() {\n    println!(\"Hello, world!\");\n}\n```";

    let mut chunker = EnhancedChunker::new(ChunkingStrategy::default());

    let chunks = chunker.chunk_text(text);

    assert!(chunks[0].has_code);
}

#[test]
fn test_enhanced_chunking() {
    let text = "# Heading 1\n\nThis is paragraph 1.\n\n## Heading 2\n\nThis is paragraph 2.\n\nThis is paragraph 3.\n\n# Heading 3\n\nFinal paragraph.";

    let mut chunker = EnhancedChunker::new(ChunkingStrategy::HeadingBased {
        max_size: 200,
        min_size: 10,
    });
    let chunks = chunker.chunk_text(text);
    assert!(chunks.len() >= 2);
    assert_eq!(chunks[0].heading, Some("Heading 1".to_string()));

    let mut chunker = EnhancedChunker::new(ChunkingStrategy::SemanticBoundaries {
        max_size: 50,
        min_size: 10,
    });
    let chunks = chunker.chunk_text(text);
    assert!(chunks.len() > 2);
}

#[test]
fn empty_text_gives_no_chunks_in_every_strategy() {
    for strategy in [
        ChunkingStrategy::default(),
        ChunkingStrategy::SemanticBoundaries { max_size: 50, min_size: 10 },
        ChunkingStrategy::HeadingBased { max_size: 200, min_size: 10 },
    ] {
        let mut chunker = EnhancedChunker::new(strategy);
        assert!(chunker.chunk_text("").is_empty());
        assert!(chunker.chunk_text("   \n\n  ").is_empty());
    }
}

#[test]
fn heading_path_is_carried_by_nested_sections() {
    let text = "# Guide\n\nIntro text here.\n\n## Install\n\nRun the installer now.\n\n### Linux\n\nUse the package manager.";
    let mut chunker = EnhancedChunker::new(ChunkingStrategy::HeadingBased { max_size: 200, min_size: 5 });
    let chunks = chunker.chunk_text(text);
    assert_eq!(chunks.len(), 3);
    assert_eq!(chunks[0].heading_context.as_deref(), Some("Guide"));
    assert_eq!(chunks[1].heading_context.as_deref(), Some("Guide > Install"));
    assert_eq!(chunks[2].heading_context.as_deref(), Some("Guide > Install > Linux"));
    assert_eq!(chunks[2].heading.as_deref(), Some("Linux"));
    for (i, c) in chunks.iter().enumerate() {
        assert_eq!(c.position, i);
    }
}

#[test]
fn duplicates_across_calls_and_case_are_skipped() {
    let mut chunker = EnhancedChunker::new(ChunkingStrategy::default());
    let first = chunker.chunk_text("Some   Text about Rust.");
    assert_eq!(first.len(), 1);
    assert_eq!(first[0].content, "Some   Text about Rust.");
    // same words, other case and spacing: same fingerprint
    let second = chunker.chunk_text("some text   ABOUT rust.");
    assert!(second.is_empty());
    chunker.clear_deduplication_cache();
    let third = chunker.chunk_text("some text   ABOUT rust.");
    assert_eq!(third.len(), 1);
    assert_eq!(third[0].content_hash, first[0].content_hash);
}

#[test]
fn fingerprints_are_distinct_within_and_across_calls() {
    let mut chunker = EnhancedChunker::new(ChunkingStrategy::SemanticBoundaries { max_size: 30, min_size: 1 });
    let a = chunker.chunk_text("Alpha paragraph here.\n\nBeta paragraph here.\n\nAlpha paragraph here.");
    let b = chunker.chunk_text("Beta paragraph here.\n\nGamma paragraph here.");
    let mut hashes: Vec<u64> = a.iter().chain(b.iter()).map(|c| c.content_hash).collect();
    let n = hashes.len();
    hashes.sort();
    hashes.dedup();
    assert_eq!(hashes.len(), n);
    assert_eq!(a.len(), 2);
    assert_eq!(b.len(), 1);
    assert_eq!(b[0].content, "Gamma paragraph here.");
}

#[test]
fn chunks_are_trimmed_and_code_is_flagged() {
    let mut chunker = EnhancedChunker::new(ChunkingStrategy::SemanticBoundaries { max_size: 10, min_size: 1 });
    let chunks = chunker.chunk_text("  plain words only  \n\nlet x = 1;");
    assert_eq!(chunks.len(), 2);
    assert_eq!(chunks[0].content, "plain words only");
    assert!(!chunks[0].has_code);
    assert!(chunks[1].has_code);
}

#[test]
fn fixed_size_slices_end_at_sentence_ends() {
    let mut chunker = EnhancedChunker::new(ChunkingStrategy::FixedSizeOverlap { chunk_size: 12, overlap: 0 });
    let chunks = chunker.chunk_text("One two. Three four. Five");
    let contents: Vec<&str> = chunks.iter().map(|c| c.content.as_str()).collect();
    assert_eq!(contents, vec!["One two.", "Three four.", "Five"]);
}

#[test]
fn strategy_can_be_changed() {
    let chunker = EnhancedChunker::new(ChunkingStrategy::default());
    assert_eq!(chunker.strategy(), ChunkingStrategy::FixedSizeOverlap { chunk_size: 1000, overlap: 200 });
    let mut chunker = chunker.with_strategy(ChunkingStrategy::HeadingBased { max_size: 5, min_size: 1 });
    assert_eq!(chunker.strategy(), ChunkingStrategy::HeadingBased { max_size: 5, min_size: 1 });
    chunker.set_strategy(ChunkingStrategy::SemanticBoundaries { max_size: 5, min_size: 1 });
    assert_eq!(chunker.strategy(), ChunkingStrategy::SemanticBoundaries { max_size: 5, min_size: 1 });
}
