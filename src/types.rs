use vstd::prelude::*;
use vstd::string::StrSliceExecFns;

verus! {

/// Kind of content a document holds.
#[derive(Debug, Clone, Copy, PartialEq, Eq, Structural)]
pub enum ContentType {
    Documentation,
    CodeExample,
    Tutorial,
    Reference,
    BlogPost,
    Other,
}

/// Descriptive fields of a document.
#[derive(Debug, Clone)]
pub struct DocumentMetadata {
    pub content_type: ContentType,
    pub language: Option<String>,
    /// When the content was last updated, in seconds since the Unix epoch.
    pub last_updated: Option<u64>,
    pub tags: Vec<String>,
}

/// A content-bearing record identified by an opaque id.
#[derive(Debug, Clone)]
pub struct Document {
    pub id: String,
    pub content: String,
    pub url: String,
    pub title: Option<String>,
    pub section: Option<String>,
    pub metadata: DocumentMetadata,
}

/// Number of characters shown by `Document::preview`.
pub const PREVIEW_CHARS: usize = 200;

pub open spec fn min_nat(a: nat, b: nat) -> nat {
    if a <= b { a } else { b }
}

impl Document {
    /// The first characters of the content, at most `PREVIEW_CHARS` of them.
    pub fn preview(&self) -> (r: &str)
        ensures
            r@ == self.content@.take(min_nat(self.content@.len(), PREVIEW_CHARS as nat) as int),
    {
        let s = self.content.as_str();
        let n = s.unicode_len();
        let end = if n < PREVIEW_CHARS { n } else { PREVIEW_CHARS };
        s.substring_char(0, end)
    }
}

/// An embedding vector, held as the bit patterns of its 32-bit float
/// components (`f32::to_bits`), so that it is stored and compared exactly.
#[derive(Debug, Clone)]
pub struct Vector {
    pub bits: Vec<u32>,
}

impl Vector {
    pub fn new(bits: Vec<u32>) -> (r: Vector)
        ensures
            r.bits@ == bits@,
    {
        Vector { bits }
    }

    pub fn dimension(&self) -> (r: usize)
        ensures
            r == self.bits@.len(),
    {
        self.bits.len()
    }
}

/// One stored document together with its embedding.
#[derive(Debug, Clone)]
pub struct VectorEntry {
    pub id: String,
    pub document: Document,
    pub vector: Vector,
    /// When the entry was stored, in seconds since the Unix epoch.
    pub indexed_at: u64,
}

impl VectorEntry {
    /// The moment the entry counts as last updated: the document's own
    /// timestamp when it has one, else the moment it was stored.
    pub open spec fn updated_at(&self) -> u64 {
        match self.document.metadata.last_updated {
            Some(t) => t,
            None => self.indexed_at,
        }
    }
}

/// How stored vectors are encoded.
#[derive(Debug, Clone, Copy, PartialEq, Eq, Structural)]
pub enum QuantizationMethod {
    /// Raw 32-bit floats.
    Raw,
    /// One byte per component, scaled between per-component bounds.
    Scalar8Bit,
    /// Product quantization; not available.
    ProductQuantization,
}

/// Bytes one encoded vector of `dimension` components takes, when known.
pub open spec fn spec_quantized_size(method: QuantizationMethod, dimension: nat) -> Option<nat> {
    match method {
        QuantizationMethod::Raw => Some(4 * dimension),
        QuantizationMethod::Scalar8Bit => Some(dimension),
        QuantizationMethod::ProductQuantization => None,
    }
}

pub fn quantized_size(method: QuantizationMethod, dimension: usize) -> (r: Option<usize>)
    ensures
        dimension <= usize::MAX / 4 ==> match r {
            Some(n) => spec_quantized_size(method, dimension as nat) == Some(n as nat),
            None => spec_quantized_size(method, dimension as nat) is None,
        },
        dimension > usize::MAX / 4 && method == QuantizationMethod::Raw ==> r is None,
{
    match method {
        QuantizationMethod::Raw => if dimension <= usize::MAX / 4 { Some(4 * dimension) } else { None },
        QuantizationMethod::Scalar8Bit => Some(dimension),
        QuantizationMethod::ProductQuantization => None,
    }
}

/// A code block found on a page.
#[derive(Debug, Clone)]
pub struct CodeBlock {
    pub code: String,
    pub language: Option<String>,
    /// Text around the block that explains it.
    pub context: Option<String>,
    pub usage_example: bool,
    pub api_reference: bool,
}

/// Descriptive fields found on a page.
#[derive(Debug, Clone)]
pub struct ContentMetadata {
    pub url: String,
    pub description: Option<String>,
    pub keywords: Option<String>,
    pub author: Option<String>,
    pub language: Option<String>,
    pub framework: Option<String>,
    pub version: Option<String>,
}

/// What the extractor makes of a page.
#[derive(Debug, Clone)]
pub struct ExtractedContent {
    pub title: String,
    pub markdown: String,
    pub code_blocks: Vec<CodeBlock>,
    pub metadata: ContentMetadata,
}

} // verus!
