//! Plain data types shared by the extraction pipeline.

use vstd::prelude::*;

verus! {

/// An image pulled out of a document, with what the pipeline reads of it.
pub struct ExtractedImage {
    /// Encoded image bytes.
    pub data: Vec<u8>,
    /// Format name reported by the extractor (`"png"`, `"jpeg"`, `"raw"`, ...).
    pub format: String,
    /// Index of the image within its document.
    pub image_index: usize,
    /// 1-based page the image was found on, when known.
    pub page_number: Option<usize>,
    /// OCR output for the image, when OCR ran and succeeded.
    pub ocr_result: Option<Box<ExtractionResult>>,
}

/// A non-fatal problem recorded while processing a document.
pub struct ProcessingWarning {
    /// The pipeline stage that raised it.
    pub source: String,
    /// What went wrong.
    pub message: String,
}

/// The rendered content of one page.
pub struct PageContent {
    /// 1-based page number.
    pub page_number: usize,
    /// The page's text.
    pub content: String,
}

/// Byte range of one page within a document's content.
#[derive(Clone, Copy, Debug, PartialEq, Eq, Structural)]
pub struct PageBoundary {
    pub page_number: usize,
    pub byte_start: usize,
    pub byte_end: usize,
}

/// The parts of an extraction result that the pipeline stages read and write.
pub struct ExtractionResult {
    /// Plain-text content.
    pub content: String,
    /// Content in the requested output format, when it differs from plain text.
    pub formatted_content: Option<String>,
    /// MIME type of the source.
    pub mime_type: String,
    /// Per-page content, when page extraction ran.
    pub pages: Option<Vec<PageContent>>,
    /// Page byte ranges recorded in the document metadata, when known.
    pub page_boundaries: Option<Vec<PageBoundary>>,
    /// Languages detected in the content, most likely first.
    pub detected_languages: Option<Vec<String>>,
    /// Non-fatal problems met along the way.
    pub processing_warnings: Vec<ProcessingWarning>,
    /// Chunks found by code intelligence, when the source is program code.
    pub code_chunks: Option<Vec<CodeChunk>>,
    /// The content cut into chunks, when chunking ran.
    pub chunks: Option<Vec<Chunk>>,
}

/// A piece of source code that code intelligence cut at a semantic
/// boundary (a function, a class, ...).
pub struct CodeChunk {
    /// The chunk's text.
    pub content: String,
    /// Byte offset of its start in the source.
    pub start_byte: usize,
    /// Byte offset just past its end in the source.
    pub end_byte: usize,
    /// Names of the enclosing scopes, outermost first.
    pub context_path: Vec<String>,
}

/// The semantic kind of a chunk.
#[derive(Clone, Copy, Debug, PartialEq, Eq, Structural)]
pub enum ChunkType {
    Paragraph,
    Heading,
    ListItem,
    TableCell,
    CodeBlock,
}

/// One heading above a chunk.
pub struct HeadingLevel {
    /// Markdown heading level (1 to 6).
    pub level: u8,
    /// The heading's text.
    pub text: String,
}

/// The headings a chunk sits under, outermost first.
pub struct HeadingContext {
    pub headings: Vec<HeadingLevel>,
}

/// Where a chunk lies and how it relates to the others.
pub struct ChunkMetadata {
    pub byte_start: usize,
    pub byte_end: usize,
    pub token_count: Option<usize>,
    /// Position of the chunk among all chunks.
    pub chunk_index: usize,
    /// Number of chunks of the document.
    pub total_chunks: usize,
    pub first_page: Option<usize>,
    pub last_page: Option<usize>,
    pub heading_context: Option<HeadingContext>,
}

/// A chunk of document content ready for indexing.
pub struct Chunk {
    pub content: String,
    pub chunk_type: ChunkType,
    pub metadata: ChunkMetadata,
}


/// Standard entity categories produced by named-entity recognition; the
/// `Custom` variant carries a caller-supplied category name.
#[derive(Debug, Clone, PartialEq, Eq, Hash)]
pub enum EntityCategory {
    Person,
    Organization,
    Location,
    Date,
    Time,
    Money,
    Percent,
    Email,
    Phone,
    Url,
    Custom(String),
}

/// Audit report describing what the redaction processor found and how it
/// replaced it.
#[derive(Debug, Clone, PartialEq)]
pub struct RedactionReport {
    /// Individual redaction findings, in byte order of the source text.
    pub findings: Vec<RedactionFinding>,
    /// Total number of redactions applied across the document.
    pub total_redacted: u32,
}

/// One redaction event: which span was rewritten, why, and with what.
#[derive(Debug, Clone, PartialEq)]
pub struct RedactionFinding {
    /// Byte offset of the start in the unredacted content.
    pub start: u32,
    /// Byte offset just past the end in the unredacted content.
    pub end: u32,
    /// PII category that fired this redaction.
    pub category: PiiCategory,
    /// Strategy applied to this finding.
    pub strategy: RedactionStrategy,
    /// String that replaced the mention (empty for `Drop`).
    pub replacement_token: String,
}

/// Strategy applied when a PII match is rewritten.
#[derive(Debug, Clone, Copy, PartialEq, Eq, Structural)]
pub enum RedactionStrategy {
    /// Replace the matched span with a fixed mask token.
    Mask,
    /// Replace with a truncated hash of the matched value.
    Hash,
    /// Replace with a per-category running token (`"[PERSON_1]"`, ...).
    TokenReplace,
    /// Delete the matched span entirely.
    Drop,
}

/// PII categories the pattern engine recognises.
#[derive(Debug, Clone, PartialEq, Eq, Hash)]
pub enum PiiCategory {
    Email,
    Phone,
    Ssn,
    CreditCard,
    PostalCode,
    IpAddress,
    Iban,
    SwiftBic,
    DateOfBirth,
    /// Person name, surfaced by the optional NER backend.
    Person,
    /// Organization name, surfaced by the optional NER backend.
    Organization,
    /// Location, surfaced by the optional NER backend.
    Location,
    /// Caller-supplied custom category.
    Custom(String),
}


/// Whether a warning came from `source` and says `message`.
pub open spec fn warning_is(w: ProcessingWarning, source: Seq<char>, message: Seq<char>) -> bool {
    w.source@ == source && w.message@ == message
}

} // verus!
