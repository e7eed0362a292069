# breadchunks

Heading-aware, length-budgeted semantic chunker for Markdown, verified with
Verus.

A document is split at its ATX headings, one chunk per paragraph, each chunk
tagged with its heading breadcrumb (`H1 > H2 > H3`). Phase 2 merges adjacent
chunks with the same breadcrumb while they are short; phase 3 absorbs child
sections into their parents, from h6 up to h1. Code spans (fenced and inline)
are opaque: a `# line` inside one is never a heading.

## Layout

- `src/scan.rs`: the grammar — code spans, ATX headings and paragraph
  breaks — as spec functions over the characters of the document, with the
  scanners that compute them.
- `src/split.rs`: phase 1; `src/merge.rs`: phases 2 and 3; `src/lib.rs`:
  `chunk`, which runs them. Each public function's `ensures` gives its
  result exactly, as a spec function of its arguments.
- `src/tokens.rs`: the whitespace-collapsed character count.
- `src/utils.rs`: length bookkeeping, heading-path comparison and
  placeholder restoration.
- `src/properties.rs`: what holds of every chunk for every document and
  every set of options (lengths, non-blank texts, breadcrumbs, code spans,
  chunk counts, the `max_length` limit on merges, text kept by phase 2,
  idempotence of phase 2, the title as a fallback only).
- `src/node.rs`: the records and the batch work of the Node.js binding;
  `app/lib.rs` is the binding itself (N-API glue only).
