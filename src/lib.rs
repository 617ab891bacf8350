//! Retrieval engine for project documentation: a keyed vector store, a
//! heading-aware chunker with cross-document deduplication, ranking of scored
//! candidates, and the decision logic of a polite breadth-first crawler.
//!
//! Embedding vectors are carried as the raw bit patterns of their 32-bit
//! float components; arithmetic on them is left to the caller.

pub mod ann;
pub mod bm25;
pub mod chunker;
pub mod chunking;
pub mod crawler;
pub mod project;
pub mod protocol;
pub mod search;
pub mod store;
pub mod text;
pub mod tools;
pub mod types;

pub use types::{
    quantized_size, CodeBlock, ContentMetadata, ContentType, Document, DocumentMetadata,
    ExtractedContent, QuantizationMethod, Vector, VectorEntry,
};
pub use store::{StoreError, VectorStorage, STORAGE_VERSION};
pub use protocol::{
    default_crawl_mode, default_focus, default_limit, default_max_pages, CrawlDocsResponse,
    DocSource, ListDocsResponse, McpError, McpErrorResponse, ReloadDocsResponse,
};
pub use chunking::{Chunk, ChunkingStrategy, EnhancedChunker};
pub use search::{hybrid_rank, search_documents, score_rank, top_k, SearchHit, SearchOptions};
pub use crawler::{
    chunk_document, page_documents, parse_crawl_mode, parse_focus, should_crawl_url, should_follow_links, CrawlConfig,
    CrawlFrontier, CrawlMetadata, CrawlMode, CrawlProgress, CrawlResult, DocumentationFocus, Pacer,
    UrlPatterns,
};
pub use chunker::{DocumentChunk, TextChunker};
pub use ann::{HnswConnections, HnswIndex, HnswParams, HnswStats, IndexError};
pub use bm25::{tokenize, BM25Index};
pub use project::{ancestors, file_name, gitignore_with_store, join_path, project_markers, ProjectInfo, ProjectManager};
pub use tools::{manage_docs, parse_content_type, parse_manage_operation, ManageOperation, ManageReport};
