use coderag::TextChunker;
use std::collections::HashSet;

#[test]
fn test_basic_chunking() {
    let mut chunker = TextChunker::new();
    let text = "# Header\n\nThis is a substantial paragraph with enough content to pass the quality filtering. It contains meaningful text that would be useful for AI assistance and documentation purposes.\n\n## Subheader\n\nAnother paragraph with sufficient content to demonstrate the chunking functionality. This paragraph also contains enough text to be considered quality content by the filtering system.";
    let chunks = chunker.chunk_text(text);

    assert!(!chunks.is_empty(), "Chunks should not be empty");
    if !chunks.is_empty() {
        assert!(chunks[0].heading_context.is_some(), "First chunk should have heading context");
    }
}

#[test]
fn test_code_block_detection() {
    let mut chunker = TextChunker::new();
    let text = "This is a comprehensive example showing how to use Rust code in documentation. The following code demonstrates a simple main function that is commonly used in Rust applications.\n\n```rust\nfn main() {\n    println!(\"Hello, world!\");\n    let x = 42;\n    println!(\"The answer is: {}\", x);\n}\n```\n\nThis code example shows the basic structure of a Rust program with variable declaration and printing functionality.";
    let chunks = chunker.chunk_text(text);

    assert!(!chunks.is_empty(), "Chunks should not be empty");
    assert!(chunks.iter().any(|c| c.has_code), "At least one chunk should contain code");
}

const PROSE: &str = "Rust programs are built from crates, and every crate has a root module that the compiler starts from when it builds the program.";

#[test]
fn quality_filter_rejects_short_navigation_and_punctuation() {
    let chunker = TextChunker::new();
    assert!(chunker.is_quality_content(PROSE));
    assert!(chunker.is_quality_content(&format!("  \n{}\n  ", PROSE)));
    assert!(!chunker.is_quality_content("Too short to keep."));
    assert!(!chunker.is_quality_content(&format!("{} Skip To the main content.", PROSE)));
    assert!(!chunker.is_quality_content(&format!("{} {}", PROSE, "!?.,;:".repeat(40))));
    assert!(!chunker.is_quality_content(&"1234567890 ".repeat(20)));
}

#[test]
fn quality_filter_rejects_repeated_lines() {
    let chunker = TextChunker::new();
    let repeated = "Home page of the documentation site\n".repeat(6);
    assert!(!chunker.is_quality_content(&repeated));
    let varied: String = (0..6).map(|i| format!("Line number {} of the documentation site\n", i)).collect();
    assert!(chunker.is_quality_content(&varied));
}

#[test]
fn empty_text_gives_no_passages() {
    let mut chunker = TextChunker::new();
    assert!(chunker.chunk_text("").is_empty());
    assert!(chunker.get_seen_hashes().is_empty());
}

#[test]
fn seen_fingerprints_carry_across_sessions() {
    let mut first = TextChunker::new();
    let chunks = first.chunk_text(PROSE);
    assert_eq!(chunks.len(), 1);
    assert_eq!(first.get_seen_hashes().len(), 1);
    // the same words, in other case and spacing, are skipped
    assert!(first.chunk_text(&PROSE.to_uppercase().replace(' ', "   ")).is_empty());

    let carried: HashSet<u64> = first.get_seen_hashes().clone();
    let mut second = TextChunker::with_persistent_deduplication(carried);
    assert!(second.chunk_text(PROSE).is_empty());
    let mut fresh = TextChunker::new();
    assert_eq!(fresh.chunk_text(PROSE).len(), 1);
}

#[test]
fn later_passages_carry_context_from_the_one_before() {
    let mut chunker = TextChunker::new();
    let text = "# Install\n\nInstalling the toolchain takes a few minutes on most machines and needs a network connection.\n\n# Configure\n\nConfiguration lives in a file at the root of the project and is read once at startup time.";
    let chunks = chunker.chunk_text(text);
    assert_eq!(chunks.len(), 2);
    assert!(!chunks[0].content.starts_with("..."));
    assert!(chunks[1].content.starts_with("..."));
    assert!(chunks[1].content.contains("Configuration lives"));
    assert_eq!(chunks[1].heading_context.as_deref(), Some("Configure"));
}
