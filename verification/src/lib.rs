//! Annotation pipeline for documentation that embeds runnable code blocks.
//!
//! The library locates fenced code blocks inside free-form documentation
//! text, maps block-local byte offsets back to document-global offsets,
//! accepts per-identifier type facts from an external analysis engine,
//! merges them with an independent syntax-highlighting stream into a
//! non-overlapping decoration set, and emits a token stream that a
//! renderer can turn into hover annotations.
//!
//! Every span is a half-open byte range, tagged by its coordinate space:
//! snippet-local within one block's text, or document-global. The merge
//! result is characterized purely by span boundaries and fact coverage,
//! so it does not depend on the order in which facts arrive; emission
//! reproduces each block's text byte for byte; and each block is
//! processed from its own inputs alone, so an engine failure degrades
//! one block to highlight-only rendering without touching its siblings.

pub mod annotate;
pub mod config;
pub mod emit;
pub mod extract;
pub mod merge;
pub mod pipeline;
pub mod span;
pub mod store;
pub mod textops;
