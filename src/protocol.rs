use vstd::prelude::*;
use vstd::string::StringExecFns;

verus! {

/// Failure of a tool request, with a short reason.
#[derive(Debug, Clone)]
pub enum McpError {
    Parse(String),
    InvalidRequest(String),
    MethodNotFound(String),
    InvalidParams(String),
    Internal(String),
}

/// The error object of a failed request: a JSON-RPC code and a message.
#[derive(Debug, Clone)]
pub struct McpErrorResponse {
    pub code: i32,
    pub message: String,
}

impl McpError {
    /// The JSON-RPC code of this kind of failure.
    pub open spec fn spec_code(&self) -> int {
        match self {
            McpError::Parse(_) => -32700,
            McpError::InvalidRequest(_) => -32600,
            McpError::MethodNotFound(_) => -32601,
            McpError::InvalidParams(_) => -32602,
            McpError::Internal(_) => -32603,
        }
    }

    pub open spec fn spec_message(&self) -> Seq<char> {
        match self {
            McpError::Parse(m) => m@,
            McpError::InvalidRequest(m) => m@,
            McpError::MethodNotFound(m) => m@,
            McpError::InvalidParams(m) => m@,
            McpError::Internal(m) => m@,
        }
    }

    pub fn to_error_response(&self) -> (r: McpErrorResponse)
        ensures
            r.code == self.spec_code(),
            r.message@ == self.spec_message(),
    {
        match self {
            McpError::Parse(m) => McpErrorResponse { code: -32700, message: m.clone() },
            McpError::InvalidRequest(m) => McpErrorResponse { code: -32600, message: m.clone() },
            McpError::MethodNotFound(m) => McpErrorResponse { code: -32601, message: m.clone() },
            McpError::InvalidParams(m) => McpErrorResponse { code: -32602, message: m.clone() },
            McpError::Internal(m) => McpErrorResponse { code: -32603, message: m.clone() },
        }
    }
}

/// One documentation source and how many stored documents come from it.
#[derive(Debug, Clone)]
pub struct DocSource {
    pub url: String,
    pub document_count: usize,
    pub last_crawled: Option<String>,
}

/// The stored sources with their document counts.
#[derive(Debug, Clone)]
pub struct ListDocsResponse {
    pub sources: Vec<DocSource>,
    pub total_documents: usize,
    pub last_updated: Option<String>,
}

/// Outcome of an ingest request.
#[derive(Debug, Clone)]
pub struct CrawlDocsResponse {
    pub status: String,
    pub message: String,
}

/// Outcome of a reload request.
#[derive(Debug, Clone)]
pub struct ReloadDocsResponse {
    pub status: String,
    pub documents_loaded: usize,
    pub message: String,
}

/// Number of results a search returns when the request names none.
pub fn default_limit() -> (r: usize)
    ensures
        r == 5,
{
    5
}

/// Crawl mode of an ingest request that names none.
pub fn default_crawl_mode() -> (r: String)
    ensures
        r@ == "single"@,
{
    String::from_str("single")
}

/// Focus of an ingest request that names none.
pub fn default_focus() -> (r: String)
    ensures
        r@ == "all"@,
{
    String::from_str("all")
}

/// Page budget of an ingest request that names none.
pub fn default_max_pages() -> (r: usize)
    ensures
        r == 100,
{
    100
}

} // verus!
