//! Heading-aware, token-budgeted semantic chunker for Markdown.
//!
//! Splits a Markdown document by heading hierarchy and merges/splits chunks
//! to stay within a character budget. Designed for RAG pipelines and embedding
//! workflows where section context matters.
//!
//! ## Supported Markdown
//!
//! - **Headers:** ATX only (`# H1` through `###### H6`). Setext headers
//!   (`=====`/`-----` underlines) and headings with 7+ `#` are not recognized.
//! - **Code blocks:** backtick-fenced (` ``` `) and inline (`` ` `` … `` ` ``).
//!   Tilde fences (`~~~`) and 4-space-indented code are **not** protected —
//!   `#` lines inside them are parsed as headers.
//!
//! ## Algorithm
//!
//! Three-phase pipeline:
//! - **Phase 1**: Split at header boundaries, one chunk per paragraph.
//! - **Phase 2**: Merge adjacent chunks with identical breadcrumbs that are
//!   below `min_length` (linear pass).
//! - **Phase 3**: Absorb child sections into parent headers (bottom-up, h6→h1).
use vstd::prelude::*;

pub mod chars;
pub mod merge;
pub mod node;
pub mod properties;
pub mod scan;
pub mod split;
pub mod tokens;
pub mod types;
pub mod utils;

pub use merge::{merge_phase2, merge_phase3};
pub use split::split_by_headers;
pub use tokens::default_length_counter;
pub use types::{Chunk, ChunkOptions};
pub use utils::{
    derive_t, header_is_superset_of, merge_text_len, restore_code_placeholders, set_length,
    update_length_after_absorb, update_length_after_merge,
};

verus! {

/// `o`'s value, or `d` when it has none.
pub open spec fn or_default(o: Option<u32>, d: int) -> int {
    match o {
        Some(x) => x as int,
        None => d,
    }
}

/// The minimum length that `options` ask for (default 512).
pub open spec fn min_length_of(options: Option<ChunkOptions>) -> int {
    match options {
        Some(o) => or_default(o.min_length, 512),
        None => 512,
    }
}

/// The maximum length that `options` ask for (default 3072).
pub open spec fn max_length_of(options: Option<ChunkOptions>) -> int {
    match options {
        Some(o) => or_default(o.max_length, 3072),
        None => 3072,
    }
}

/// The last phase that `options` ask for (default 3).
pub open spec fn phase_of(options: Option<ChunkOptions>) -> int {
    match options {
        Some(o) => or_default(o.phase, 3),
        None => 3,
    }
}

/// The fallback title that `options` give, if any.
pub open spec fn title_of(options: Option<ChunkOptions>) -> Option<Seq<char>> {
    match options {
        Some(o) => match o.title {
            Some(t) => Some(t@),
            None => None,
        },
        None => None,
    }
}

/// The chunks of `text`: phase 1, then phase 2 when `phase >= 2`, then
/// phase 3 when `phase >= 3`.
pub open spec fn chunk_spec(
    text: Seq<char>,
    title: Option<Seq<char>>,
    min_length: int,
    max_length: int,
    phase: int,
) -> Seq<types::ChunkView> {
    let p1 = split::split_spec(text, title);
    let p2 = if phase >= 2 {
        merge::phase2_spec(p1, min_length, max_length)
    } else {
        p1
    };
    if phase >= 3 {
        merge::phase3_spec(p2, min_length, max_length)
    } else {
        p2
    }
}

/// Chunk markdown text into semantically meaningful pieces.
///
/// Runs up to three phases depending on `options.phase` (default: 3).
pub fn chunk(text: &str, options: Option<ChunkOptions>) -> (chunks: Vec<Chunk>)
    ensures
        types::chunk_views(chunks@) == chunk_spec(
            text@,
            title_of(options),
            min_length_of(options),
            max_length_of(options),
            phase_of(options),
        ),
{
    let ghost given = options;
    let opts = match options {
        Some(o) => o,
        None => ChunkOptions::default(),
    };
    let min_length: usize = match opts.min_length {
        Some(x) => x as usize,
        None => 512,
    };
    let max_length: usize = match opts.max_length {
        Some(x) => x as usize,
        None => 3072,
    };
    let phase: u32 = match opts.phase {
        Some(x) => x,
        None => 3,
    };
    let title: Option<&str> = match &opts.title {
        Some(t) => Some(t.as_str()),
        None => None,
    };
    assert(split::title_view(title) == title_of(given));
    let mut chunks = split::split_by_headers(text, title);
    if phase >= 2 {
        chunks = merge::merge_phase2(chunks, min_length, max_length);
    }
    if phase >= 3 {
        chunks = merge::merge_phase3(chunks, min_length, max_length);
    }
    chunks
}

} // verus!
