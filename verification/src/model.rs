//! The result types of the extraction pipeline.
//!
//! All values are produced once per invocation and never mutated afterwards;
//! the engine has no mutation API.  Text is carried as raw bytes so that every
//! offset in the result is a byte offset into the original input.

use vstd::prelude::*;

verus! {

/// Classification of an extracted link target.
#[derive(Debug, Clone, Copy, PartialEq, Eq, Structural)]
pub enum LinkKind {
    /// The target carries a URI scheme (one or more ASCII letters then `:`).
    External,
    /// The target names another document, to be resolved against an index.
    Internal,
    /// The target starts with `#`: an in-page anchor.
    Anchor,
    /// The link construct opened but never closed before its block ended.
    Malformed,
}

/// One extracted link.
#[derive(Debug, Clone, PartialEq, Eq)]
pub struct Link {
    pub kind: LinkKind,
    /// The raw reference string between `(` and `)`, or the declared target
    /// of a reference-style link; empty for a malformed construct.
    pub target: Vec<u8>,
    pub display_text: Vec<u8>,
    /// Byte offset of the opening `[` in the input.
    pub start_offset: usize,
}

/// One heading with its hierarchy level and anchor slug.
#[derive(Debug, Clone, PartialEq, Eq)]
pub struct Heading {
    /// 1 to 6, the number of `#` markers.
    pub level: usize,
    /// The heading content after the markers, surrounding blanks trimmed,
    /// inline markup kept as written.
    pub text: Vec<u8>,
    /// Lowercased, whitespace turned to hyphens, punctuation dropped, made
    /// unique within the document.
    pub slug: Vec<u8>,
    /// Byte offset of the heading line in the input.
    pub start_offset: usize,
}

/// One code block, fenced or indented.
#[derive(Debug, Clone, PartialEq, Eq)]
pub struct CodeBlock {
    /// The token after the opening fence; empty if none was declared or the
    /// block is an indented one.
    pub language: Vec<u8>,
    /// The block content, fence lines stripped, otherwise verbatim.
    pub content: Vec<u8>,
    pub start_offset: usize,
    pub end_offset: usize,
}

/// One checkbox item of a list block.
#[derive(Debug, Clone, PartialEq, Eq)]
pub struct Task {
    pub checked: bool,
    /// Nesting depth, 0-based, two indent columns per level.
    pub depth: usize,
    /// The item text after the checkbox, surrounding blanks trimmed.
    pub text: Vec<u8>,
    /// Byte offset of the item line in the input.
    pub start_offset: usize,
}

/// A scalar or array value of a frontmatter entry.
#[derive(Debug, Clone, PartialEq, Eq)]
pub enum FmValue {
    Str(Vec<u8>),
    Int(u64),
    Bool(bool),
    Arr(Vec<Vec<u8>>),
    Null,
}

/// One `key: value` entry of the frontmatter block, in source order.
#[derive(Debug, Clone, PartialEq, Eq)]
pub struct FmEntry {
    pub key: Vec<u8>,
    pub value: FmValue,
}

/// A recorded fact that the source document links to a known document.
#[derive(Debug, Clone, PartialEq, Eq)]
pub struct BacklinkEdge {
    pub source: u64,
    pub target: u64,
    /// The raw link target that resolved to `target`.
    pub link_target: Vec<u8>,
}

/// One node of the table of contents: a heading and its subordinate headings.
#[derive(Debug, PartialEq, Eq)]
pub struct TocNode {
    /// Index into the document's heading sequence.
    pub heading: usize,
    pub children: Vec<TocNode>,
}

/// A read-only lookup from link targets to known document identifiers,
/// supplied by the caller; the engine never writes through it.
#[derive(Debug, Clone, PartialEq, Eq)]
pub struct DocIndex {
    pub entries: Vec<(Vec<u8>, u64)>,
}

/// The top-level immutable result of one invocation.
///
/// Every sequence mirrors the byte order of the source text; `backlinks`
/// carries no duplicate edges and is the one field without a source order.
#[derive(Debug, PartialEq, Eq)]
pub struct Document {
    pub frontmatter: Option<Vec<FmEntry>>,
    pub headings: Vec<Heading>,
    pub table_of_contents: Vec<TocNode>,
    pub links: Vec<Link>,
    pub code_blocks: Vec<CodeBlock>,
    pub tasks: Vec<Task>,
    pub backlinks: Vec<BacklinkEdge>,
    pub word_count: usize,
    pub reading_time_minutes: usize,
}

} // verus!
