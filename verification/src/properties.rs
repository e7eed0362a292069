//! What holds of every chunk the pipeline produces, whatever the document
//! and the options.
use vstd::prelude::*;

use crate::chunk_spec;
use crate::merge::{absorbed, merged_pair, pass_from, passes, pending, phase2_from, phase2_spec, phase3_spec};
use crate::scan::{
    code_match, header_at, header_spans, is_hash, is_nl, lemma_code_match, lemma_header_spans,
    lemma_line_match_some, lemma_para_sep, lemma_ws_end, line_match, masked, para_sep, pieces,
    restore_toks, rtrim, tok_text, tok_ws, ws_end, Tok,
};
use crate::split::{
    breadcrumb_of, heading_level, heading_text, initial_stack, line_start, piece_chunk,
    piece_chunks, section_paragraphs, sections, set_slot, split_spec,
};
use crate::tokens::{has_nonws, is_ws, lemma_has_nonws_all_ws};
use crate::types::ChunkView;
use crate::utils::{blank_line, embed_len};

verus! {

/// The heading slot that holds a chunk's own heading: the slot of its level,
/// or the first slot for the preface (level 0), which holds the title.
pub open spec fn own_slot(level: u32) -> int {
    if level == 0 {
        0
    } else {
        level - 1
    }
}

/// The shape of every chunk the pipeline produces: its length is the
/// embedding length of its breadcrumb and text, its text is not blank, it
/// has a six-slot heading stack whose present headings make up its
/// breadcrumb, its level is at most 6, and its header is the heading in the
/// slot of its level.
pub open spec fn chunk_wf(c: ChunkView) -> bool {
    &&& c.length == embed_len(c.breadcrumb, c.text)
    &&& has_nonws(c.text)
    &&& c.headers.len() == 6
    &&& c.breadcrumb == breadcrumb_of(c.headers)
    &&& c.level <= 6
    &&& c.header == c.headers[own_slot(c.level)]
}

/// Every chunk of `s` has the shape of [`chunk_wf`].
pub open spec fn all_wf(s: Seq<ChunkView>) -> bool {
    forall|k: int| 0 <= k < s.len() ==> chunk_wf(#[trigger] s[k])
}

/// Every code token of `t` is a non-empty range of `s` that starts and ends
/// with a backtick.
pub open spec fn code_toks_tick(s: Seq<char>, t: Seq<Tok>) -> bool {
    forall|k: int|
        0 <= k < t.len() ==> (#[trigger] t[k] matches Tok::Code(a, b) ==> a < b <= s.len()
            && s[a as int] == '`' && s[b - 1] == '`')
}

/// `x` is a contiguous piece of `s`.
pub open spec fn is_slice(x: Seq<char>, s: Seq<char>) -> bool {
    exists|a: int, b: int| 0 <= a <= b <= s.len() && x == s.subrange(a, b)
}

/// A phase-1 chunk of the document `s`: of the shape of [`chunk_wf`], its
/// text a contiguous piece of `s` that neither starts nor ends with
/// whitespace.
pub open spec fn split_chunk_ok(c: ChunkView, s: Seq<char>) -> bool {
    chunk_wf(c) && is_slice(c.text, s) && trimmed(c.text)
}

pub open spec fn all_split_ok(v: Seq<ChunkView>, s: Seq<char>) -> bool {
    forall|k: int| 0 <= k < v.len() ==> split_chunk_ok(#[trigger] v[k], s)
}

/// Where the text a token stands for starts in the document.
pub open spec fn tok_start(x: Tok) -> int {
    match x {
        Tok::Ch(i) => i as int,
        Tok::Code(a, _) => a as int,
    }
}

/// Where the text a token stands for ends in the document.
pub open spec fn tok_end(x: Tok) -> int {
    match x {
        Tok::Ch(i) => i + 1,
        Tok::Code(_, b) => b as int,
    }
}

/// The tokens of `t` stand for non-empty ranges of `s`, each starting where
/// the one before it ends.
pub open spec fn toks_contig(s: Seq<char>, t: Seq<Tok>) -> bool {
    &&& forall|k: int|
        0 <= k < t.len() ==> 0 <= tok_start(#[trigger] t[k]) < tok_end(t[k]) <= s.len()
    &&& forall|k: int| 0 <= k < t.len() - 1 ==> tok_end(#[trigger] t[k]) == tok_start(t[k + 1])
}

proof fn lemma_all_split_ok_concat(a: Seq<ChunkView>, b: Seq<ChunkView>, s: Seq<char>)
    requires
        all_split_ok(a, s),
        all_split_ok(b, s),
    ensures
        all_split_ok(a + b, s),
{
    assert forall|k: int| 0 <= k < (a + b).len() implies split_chunk_ok(#[trigger] (a + b)[k], s) by {
        if k < a.len() {
            assert((a + b)[k] == a[k]);
        } else {
            assert((a + b)[k] == b[k - a.len()]);
        }
    }
}

proof fn lemma_masked_contig(s: Seq<char>, p: int)
    requires
        0 <= p <= s.len() <= usize::MAX,
    ensures
        toks_contig(s, masked(s, p)),
        masked(s, p).len() > 0 ==> tok_start(masked(s, p)[0]) == p,
    decreases s.len() - p,
{
    if p < s.len() {
        lemma_code_match(s, p);
        let m = masked(s, p);
        let (x, q) = match code_match(s, p) {
            Some(e) => (Tok::Code(p as usize, e as usize), e),
            None => (Tok::Ch(p as usize), p + 1),
        };
        lemma_masked_contig(s, q);
        let rest = masked(s, q);
        assert(m =~= seq![x] + rest);
        assert(tok_end(x) == q);
        assert forall|k: int| 0 <= k < m.len() implies 0 <= tok_start(#[trigger] m[k]) < tok_end(
            m[k],
        ) <= s.len() by {
            if k > 0 {
                assert(m[k] == rest[k - 1]);
            }
        }
        assert forall|k: int| 0 <= k < m.len() - 1 implies tok_end(#[trigger] m[k]) == tok_start(
            m[k + 1],
        ) by {
            assert(m[k + 1] == rest[k]);
            if k > 0 {
                assert(m[k] == rest[k - 1]);
            }
        }
    } else {
        assert(masked(s, p) =~= Seq::<Tok>::empty());
    }
}

/// The text of `t[lo..hi]` is the piece of the document its tokens cover.
proof fn lemma_restore_slice(s: Seq<char>, t: Seq<Tok>, lo: int, hi: int)
    requires
        0 <= lo < hi <= t.len(),
        toks_contig(s, t),
    ensures
        restore_toks(t, lo, hi, s) == s.subrange(tok_start(t[lo]), tok_end(t[hi - 1])),
    decreases hi - lo,
{
    let x = t[hi - 1];
    assert(0 <= tok_start(x) < tok_end(x) <= s.len());
    assert(tok_text(x, s) =~= s.subrange(tok_start(x), tok_end(x)));
    if hi == lo + 1 {
        assert(restore_toks(t, lo, lo, s) =~= Seq::<char>::empty());
        assert(restore_toks(t, lo, hi, s) =~= tok_text(t[lo], s));
    } else {
        lemma_restore_slice(s, t, lo, hi - 1);
        assert(tok_end(t[hi - 2]) == tok_start(t[hi - 1]));
        assert(0 <= tok_start(t[lo]) < tok_end(t[lo]));
        assert(tok_start(t[lo]) <= tok_end(t[hi - 2])) by {
            lemma_contig_mono(s, t, lo, hi - 2);
        }
        assert(restore_toks(t, lo, hi, s) =~= s.subrange(tok_start(t[lo]), tok_end(t[hi - 1])));
    }
}

proof fn lemma_contig_mono(s: Seq<char>, t: Seq<Tok>, i: int, j: int)
    requires
        0 <= i <= j < t.len(),
        toks_contig(s, t),
    ensures
        tok_start(t[i]) < tok_end(t[j]),
    decreases j - i,
{
    assert(tok_start(t[j]) < tok_end(t[j]));
    if i < j {
        lemma_contig_mono(s, t, i, j - 1);
        assert(tok_end(t[j - 1]) == tok_start(t[j]));
    }
}

proof fn lemma_all_wf_concat(a: Seq<ChunkView>, b: Seq<ChunkView>)
    requires
        all_wf(a),
        all_wf(b),
    ensures
        all_wf(a + b),
{
    assert forall|k: int| 0 <= k < (a + b).len() implies chunk_wf(#[trigger] (a + b)[k]) by {
        if k < a.len() {
            assert((a + b)[k] == a[k]);
        } else {
            assert((a + b)[k] == b[k - a.len()]);
        }
    }
}

proof fn lemma_has_nonws_prefix(a: Seq<char>, b: Seq<char>)
    requires
        has_nonws(a),
    ensures
        has_nonws(a + b),
    decreases b.len(),
{
    if b.len() == 0 {
        assert(a + b =~= a);
    } else {
        assert((a + b).drop_last() =~= a + b.drop_last());
        lemma_has_nonws_prefix(a, b.drop_last());
    }
}

proof fn lemma_has_nonws_at(x: Seq<char>, k: int)
    requires
        0 <= k < x.len(),
        !is_ws(x[k]),
    ensures
        has_nonws(x),
{
    lemma_has_nonws_all_ws(x);
}

proof fn lemma_masked_code_tick(s: Seq<char>, p: int)
    requires
        0 <= p <= s.len() <= usize::MAX,
    ensures
        code_toks_tick(s, masked(s, p)),
    decreases s.len() - p,
{
    if p < s.len() {
        lemma_code_match(s, p);
        let m = masked(s, p);
        match code_match(s, p) {
            Some(e) => {
                lemma_masked_code_tick(s, e);
                if crate::scan::fence_at(s, p) && crate::scan::next_fence(s, p + 3) < s.len() {
                    crate::scan::lemma_next_fence(s, p + 3);
                } else {
                    crate::scan::lemma_next_tick(s, p + 1);
                }
                assert(s[e - 1] == '`');
                let rest = masked(s, e);
                assert(m =~= seq![Tok::Code(p as usize, e as usize)] + rest);
                assert forall|k: int| 0 <= k < m.len() implies (#[trigger] m[k] matches Tok::Code(
                    a,
                    b,
                ) ==> a < b <= s.len() && s[a as int] == '`' && s[b - 1] == '`') by {
                    if k > 0 {
                        assert(m[k] == rest[k - 1]);
                    }
                }
            },
            None => {
                lemma_masked_code_tick(s, p + 1);
                let rest = masked(s, p + 1);
                assert(m =~= seq![Tok::Ch(p as usize)] + rest);
                assert forall|k: int| 0 <= k < m.len() implies (#[trigger] m[k] matches Tok::Code(
                    a,
                    b,
                ) ==> a < b <= s.len() && s[a as int] == '`' && s[b - 1] == '`') by {
                    if k > 0 {
                        assert(m[k] == rest[k - 1]);
                    }
                }
            },
        }
    } else {
        assert(masked(s, p) =~= Seq::<Tok>::empty());
    }
}

/// A token that is not whitespace stands for text that is not blank.
proof fn lemma_tok_text_nonblank(s: Seq<char>, t: Seq<Tok>, k: int)
    requires
        0 <= k < t.len(),
        code_toks_tick(s, t),
        !tok_ws(s, t[k]),
    ensures
        has_nonws(tok_text(t[k], s)),
{
    match t[k] {
        Tok::Ch(i) => {
            lemma_has_nonws_at(tok_text(t[k], s), 0);
        },
        Tok::Code(a, b) => {
            assert(a < b <= s.len() && s[a as int] == '`');
            assert(tok_text(t[k], s)[0] == '`');
            lemma_has_nonws_at(tok_text(t[k], s), 0);
        },
    }
}

/// The text of `t[lo..hi]` is not blank when its first token is not
/// whitespace.
proof fn lemma_restore_nonblank(s: Seq<char>, t: Seq<Tok>, lo: int, hi: int)
    requires
        0 <= lo < hi <= t.len(),
        code_toks_tick(s, t),
        !tok_ws(s, t[lo]),
    ensures
        has_nonws(restore_toks(t, lo, hi, s)),
    decreases hi - lo,
{
    if hi == lo + 1 {
        lemma_tok_text_nonblank(s, t, lo);
        assert(restore_toks(t, lo, lo, s) =~= Seq::<char>::empty());
        assert(restore_toks(t, lo, hi, s) =~= tok_text(t[lo], s));
    } else {
        lemma_restore_nonblank(s, t, lo, hi - 1);
        lemma_has_nonws_prefix(restore_toks(t, lo, hi - 1, s), tok_text(t[hi - 1], s));
    }
}

/// Trimming trailing whitespace keeps a first token that is not whitespace.
proof fn lemma_rtrim_above(s: Seq<char>, t: Seq<Tok>, lo: int, hi: int)
    requires
        0 <= lo < hi <= t.len(),
        !tok_ws(s, t[lo]),
    ensures
        lo < rtrim(s, t, lo, hi) <= hi,
    decreases hi - lo,
{
    if tok_ws(s, t[hi - 1]) {
        lemma_rtrim_above(s, t, lo, hi - 1);
    }
}

proof fn lemma_pieces_range(s: Seq<char>, t: Seq<Tok>, hi: int, start: int, p: int)
    requires
        0 <= start <= p <= hi <= t.len(),
    ensures
        forall|k: int|
            0 <= k < pieces(s, t, hi, start, p).len() ==> start <= (#[trigger] pieces(
                s,
                t,
                hi,
                start,
                p,
            )[k]).0 && pieces(s, t, hi, start, p)[k].1 <= hi,
    decreases hi - p,
{
    let ps = pieces(s, t, hi, start, p);
    if p < hi {
        lemma_para_sep(s, t, p, hi);
        match para_sep(s, t, p, hi) {
            Some(e) => {
                lemma_pieces_range(s, t, hi, e, e);
                let rest = pieces(s, t, hi, e, e);
                assert(ps =~= seq![(start, p)] + rest);
                assert forall|k: int| 0 <= k < ps.len() implies start <= (#[trigger] ps[k]).0
                    && ps[k].1 <= hi by {
                    if k > 0 {
                        assert(ps[k] == rest[k - 1]);
                    }
                }
            },
            None => {
                lemma_pieces_range(s, t, hi, start, p + 1);
                let rest = pieces(s, t, hi, start, p + 1);
                assert(ps == rest);
                assert forall|k: int| 0 <= k < ps.len() implies start <= (#[trigger] ps[k]).0
                    && ps[k].1 <= hi by {
                    assert(ps[k] == rest[k]);
                }
            },
        }
    } else {
        assert(ps =~= seq![(start, hi)]);
        assert(ps[0] == (start, hi));
    }
}

/// The stack, level and header of chunks of one section fit together.
pub open spec fn section_ok(level: u32, header: Option<Seq<char>>, stack: Seq<Option<Seq<char>>>) -> bool {
    &&& stack.len() == 6
    &&& level <= 6
    &&& header == stack[own_slot(level)]
}

proof fn lemma_piece_chunk_wf(
    s: Seq<char>,
    t: Seq<Tok>,
    a: int,
    b: int,
    level: u32,
    header: Option<Seq<char>>,
    stack: Seq<Option<Seq<char>>>,
)
    requires
        0 <= a,
        b <= t.len(),
        code_toks_tick(s, t),
        toks_contig(s, t),
        section_ok(level, header, stack),
    ensures
        all_split_ok(piece_chunk(s, t, a, b, level, header, stack), s),
{
    let lo = ws_end(s, t, a, b);
    let pc = piece_chunk(s, t, a, b, level, header, stack);
    if a <= b {
        lemma_ws_end(s, t, a, b);
    }
    if lo < b {
        lemma_rtrim_above(s, t, lo, b);
        let r = rtrim(s, t, lo, b);
        lemma_restore_nonblank(s, t, lo, r);
        lemma_restore_slice(s, t, lo, r);
        lemma_contig_mono(s, t, lo, r - 1);
        let x = tok_start(t[lo]);
        let y = tok_end(t[r - 1]);
        assert(pc[0].text == s.subrange(x, y));
        assert(is_slice(pc[0].text, s));
        lemma_trimmed_range(s, t, lo, b);
        assert(split_chunk_ok(pc[0], s));
    }
}

proof fn lemma_piece_chunks_wf(
    s: Seq<char>,
    t: Seq<Tok>,
    ps: Seq<(int, int)>,
    level: u32,
    header: Option<Seq<char>>,
    stack: Seq<Option<Seq<char>>>,
)
    requires
        forall|k: int| 0 <= k < ps.len() ==> 0 <= (#[trigger] ps[k]).0 && ps[k].1 <= t.len(),
        code_toks_tick(s, t),
        toks_contig(s, t),
        section_ok(level, header, stack),
    ensures
        all_split_ok(piece_chunks(s, t, ps, level, header, stack), s),
    decreases ps.len(),
{
    if ps.len() > 0 {
        let last = ps.last();
        assert(ps[ps.len() - 1] == last);
        let init = ps.drop_last();
        assert forall|k: int| 0 <= k < init.len() implies 0 <= (#[trigger] init[k]).0
            && init[k].1 <= t.len() by {
            assert(init[k] == ps[k]);
        }
        lemma_piece_chunks_wf(s, t, init, level, header, stack);
        lemma_piece_chunk_wf(s, t, last.0, last.1, level, header, stack);
        lemma_all_split_ok_concat(
            piece_chunks(s, t, init, level, header, stack),
            piece_chunk(s, t, last.0, last.1, level, header, stack),
            s,
        );
    }
}

proof fn lemma_section_paragraphs_wf(
    s: Seq<char>,
    t: Seq<Tok>,
    lo: int,
    hi: int,
    level: u32,
    header: Option<Seq<char>>,
    stack: Seq<Option<Seq<char>>>,
)
    requires
        0 <= lo <= hi <= t.len(),
        code_toks_tick(s, t),
        toks_contig(s, t),
        section_ok(level, header, stack),
    ensures
        all_split_ok(section_paragraphs(s, t, lo, hi, level, header, stack), s),
{
    lemma_pieces_range(s, t, hi, lo, lo);
    lemma_piece_chunks_wf(s, t, pieces(s, t, hi, lo, lo), level, header, stack);
}

/// A heading match has one to six `#`.
proof fn lemma_heading_level(s: Seq<char>, t: Seq<Tok>, a: int)
    requires
        0 <= a < t.len(),
        header_at(s, t, a) is Some,
    ensures
        1 <= heading_level(s, t, a) <= 6,
{
    if a == 0 && line_match(s, t, 0) is Some {
        lemma_line_match_some(s, t, 0);
        assert(is_hash(s, t[0]));
        assert(!is_nl(s, t[0]));
        assert(line_start(s, t, 0) == 0);
    } else {
        lemma_line_match_some(s, t, a + 1);
    }
}

/// The heading matches `hs` are ordered, within `t`, and each one is a
/// heading match.
pub open spec fn spans_ok(s: Seq<char>, t: Seq<Tok>, hs: Seq<(int, int)>) -> bool {
    &&& forall|k: int|
        0 <= k < hs.len() ==> 0 <= (#[trigger] hs[k]).0 < hs[k].1 <= t.len() && header_at(
            s,
            t,
            hs[k].0,
        ) == Some(hs[k].1)
    &&& forall|k: int| 0 <= k < hs.len() - 1 ==> (#[trigger] hs[k]).1 <= hs[k + 1].0
}

proof fn lemma_sections_wf(
    s: Seq<char>,
    t: Seq<Tok>,
    hs: Seq<(int, int)>,
    i: int,
    stack: Seq<Option<Seq<char>>>,
)
    requires
        0 <= i,
        spans_ok(s, t, hs),
        code_toks_tick(s, t),
        toks_contig(s, t),
        stack.len() == 6,
    ensures
        all_split_ok(sections(s, t, hs, i, stack), s),
    decreases hs.len() - i,
{
    if i < hs.len() {
        let (a, e) = hs[i];
        lemma_heading_level(s, t, a);
        let level = heading_level(s, t, a);
        let h = heading_text(s, t, a, e);
        let st = set_slot(stack, level as int, h);
        let end = if i + 1 < hs.len() {
            hs[i + 1].0
        } else {
            t.len() as int
        };
        if i + 1 < hs.len() {
            assert(hs[i].1 <= hs[i + 1].0);
            assert(hs[i + 1].0 < hs[i + 1].1 <= t.len());
        }
        assert(st.len() == 6);
        assert(st[own_slot(level as u32)] == Some(h));
        lemma_section_paragraphs_wf(s, t, e, end, level as u32, Some(h), st);
        lemma_sections_wf(s, t, hs, i + 1, st);
        lemma_all_split_ok_concat(
            section_paragraphs(s, t, e, end, level as u32, Some(h), st),
            sections(s, t, hs, i + 1, st),
            s,
        );
    }
}

/// Phase 1 produces only chunks of the shape of [`chunk_wf`], each with a
/// text that is a contiguous piece of the document.
proof fn lemma_split_wf(s: Seq<char>, title: Option<Seq<char>>)
    requires
        s.len() <= usize::MAX,
    ensures
        all_split_ok(split_spec(s, title), s),
        all_wf(split_spec(s, title)),
{
    let t = masked(s, 0);
    let hs = header_spans(s, t, 0);
    let st = initial_stack(title);
    lemma_masked_code_tick(s, 0);
    lemma_masked_contig(s, 0);
    lemma_header_spans(s, t, 0);
    assert(section_ok(0, title, st));
    if hs.len() == 0 {
        lemma_section_paragraphs_wf(s, t, 0, t.len() as int, 0, title, st);
    } else {
        lemma_section_paragraphs_wf(s, t, 0, hs[0].0, 0, title, st);
        lemma_sections_wf(s, t, hs, 0, st);
        lemma_all_split_ok_concat(
            section_paragraphs(s, t, 0, hs[0].0, 0, title, st),
            sections(s, t, hs, 0, st),
            s,
        );
    }
    let v = split_spec(s, title);
    assert forall|k: int| 0 <= k < v.len() implies chunk_wf(#[trigger] v[k]) by {
        assert(split_chunk_ok(v[k], s));
    }
}

proof fn lemma_merged_pair_wf(c: ChunkView, n: ChunkView)
    requires
        chunk_wf(c),
    ensures
        chunk_wf(merged_pair(c, n)),
{
    lemma_has_nonws_prefix(c.text, blank_line());
    lemma_has_nonws_prefix(c.text + blank_line(), n.text);
}

proof fn lemma_absorbed_wf(parent: ChunkView, child: ChunkView)
    requires
        chunk_wf(parent),
    ensures
        chunk_wf(absorbed(parent, child)),
{
    let line = crate::merge::child_heading_line(child);
    lemma_has_nonws_prefix(parent.text, blank_line());
    lemma_has_nonws_prefix(parent.text + blank_line(), line);
    lemma_has_nonws_prefix(parent.text + blank_line() + line, blank_line());
    lemma_has_nonws_prefix(parent.text + blank_line() + line + blank_line(), child.text);
}

/// The chunk being built, if any, has the shape of [`chunk_wf`].
pub open spec fn opt_wf(cur: Option<ChunkView>) -> bool {
    cur matches Some(c) ==> chunk_wf(c)
}

proof fn lemma_phase2_from_wf(
    s: Seq<ChunkView>,
    i: int,
    cur: Option<ChunkView>,
    min_length: int,
    max_length: int,
)
    requires
        all_wf(s),
        opt_wf(cur),
    ensures
        all_wf(phase2_from(s, i, cur, min_length, max_length)),
    decreases s.len() - i,
{
    if 0 <= i < s.len() {
        assert(chunk_wf(s[i]));
        match cur {
            None => {
                lemma_phase2_from_wf(s, i + 1, Some(s[i]), min_length, max_length);
            },
            Some(c) => {
                lemma_merged_pair_wf(c, s[i]);
                lemma_phase2_from_wf(s, i + 1, Some(merged_pair(c, s[i])), min_length, max_length);
                lemma_phase2_from_wf(s, i + 1, Some(s[i]), min_length, max_length);
                lemma_all_wf_concat(seq![c], phase2_from(s, i + 1, Some(s[i]), min_length, max_length));
            },
        }
    }
}

proof fn lemma_phase2_from_len(
    s: Seq<ChunkView>,
    i: int,
    cur: Option<ChunkView>,
    min_length: int,
    max_length: int,
)
    requires
        0 <= i <= s.len(),
    ensures
        phase2_from(s, i, cur, min_length, max_length).len() <= s.len() - i + pending(cur).len(),
    decreases s.len() - i,
{
    if i < s.len() {
        lemma_phase2_from_len(s, i + 1, Some(s[i]), min_length, max_length);
        if let Some(c) = cur {
            lemma_phase2_from_len(s, i + 1, Some(merged_pair(c, s[i])), min_length, max_length);
        }
    }
}

proof fn lemma_pass_from_wf(
    s: Seq<ChunkView>,
    i: int,
    cur: Option<ChunkView>,
    level: u32,
    min_length: int,
    max_length: int,
)
    requires
        all_wf(s),
        opt_wf(cur),
    ensures
        all_wf(pass_from(s, i, cur, level, min_length, max_length)),
    decreases s.len() - i,
{
    if 0 <= i < s.len() {
        assert(chunk_wf(s[i]));
        if cur matches Some(c) && crate::merge::absorbs(c, s[i], level, min_length, max_length) {
            let c = cur->0;
            lemma_absorbed_wf(c, s[i]);
            lemma_pass_from_wf(s, i + 1, Some(absorbed(c, s[i])), level, min_length, max_length);
        } else if s[i].level == level && s[i].length < max_length {
            lemma_pass_from_wf(s, i + 1, Some(s[i]), level, min_length, max_length);
            lemma_all_wf_concat(
                pending(cur),
                pass_from(s, i + 1, Some(s[i]), level, min_length, max_length),
            );
        } else {
            lemma_pass_from_wf(s, i + 1, None, level, min_length, max_length);
            lemma_all_wf_concat(pending(cur), seq![s[i]]);
            lemma_all_wf_concat(
                pending(cur) + seq![s[i]],
                pass_from(s, i + 1, None, level, min_length, max_length),
            );
        }
    }
}

proof fn lemma_pass_from_len(
    s: Seq<ChunkView>,
    i: int,
    cur: Option<ChunkView>,
    level: u32,
    min_length: int,
    max_length: int,
)
    requires
        0 <= i <= s.len(),
    ensures
        pass_from(s, i, cur, level, min_length, max_length).len() <= s.len() - i + pending(
            cur,
        ).len(),
    decreases s.len() - i,
{
    if i < s.len() {
        lemma_pass_from_len(s, i + 1, Some(s[i]), level, min_length, max_length);
        lemma_pass_from_len(s, i + 1, None, level, min_length, max_length);
        if let Some(c) = cur {
            lemma_pass_from_len(s, i + 1, Some(absorbed(c, s[i])), level, min_length, max_length);
        }
    }
}

proof fn lemma_passes(s: Seq<ChunkView>, level: nat, min_length: int, max_length: int)
    ensures
        passes(s, level, min_length, max_length).len() <= s.len(),
        all_wf(s) ==> all_wf(passes(s, level, min_length, max_length)),
    decreases level,
{
    if level > 0 {
        let p = pass_from(s, 0, None, level as u32, min_length, max_length);
        lemma_pass_from_len(s, 0, None, level as u32, min_length, max_length);
        if all_wf(s) {
            lemma_pass_from_wf(s, 0, None, level as u32, min_length, max_length);
        }
        lemma_passes(p, (level - 1) as nat, min_length, max_length);
    }
}

/// Phase 2 and phase 3 keep the shape of [`chunk_wf`] and never add chunks.
proof fn lemma_merges(s: Seq<ChunkView>, min_length: int, max_length: int)
    ensures
        phase2_spec(s, min_length, max_length).len() <= s.len(),
        phase3_spec(s, min_length, max_length).len() <= s.len(),
        all_wf(s) ==> all_wf(phase2_spec(s, min_length, max_length)),
        all_wf(s) ==> all_wf(phase3_spec(s, min_length, max_length)),
{
    lemma_phase2_from_len(s, 0, None, min_length, max_length);
    if all_wf(s) {
        lemma_phase2_from_wf(s, 0, None, min_length, max_length);
    }
    lemma_passes(s, 6, min_length, max_length);
}

proof fn lemma_chunk_spec(
    text: Seq<char>,
    title: Option<Seq<char>>,
    min_length: int,
    max_length: int,
    phase: int,
)
    requires
        text.len() <= usize::MAX,
    ensures
        all_wf(chunk_spec(text, title, min_length, max_length, phase)),
        chunk_spec(text, title, min_length, max_length, phase).len() <= split_spec(text, title).len(),
{
    let p1 = split_spec(text, title);
    lemma_split_wf(text, title);
    lemma_merges(p1, min_length, max_length);
    let p2 = if phase >= 2 {
        phase2_spec(p1, min_length, max_length)
    } else {
        p1
    };
    lemma_merges(p2, min_length, max_length);
}

/// Every chunk's `length` is the whitespace-collapsed character count of
/// `breadcrumb + "\n\n" + text`, the string an embedding model sees.
pub proof fn law_chunk_length_is_embedding_length(
    text: Seq<char>,
    title: Option<Seq<char>>,
    min_length: int,
    max_length: int,
    phase: int,
)
    requires
        text.len() <= usize::MAX,
    ensures
        forall|k: int|
            0 <= k < chunk_spec(text, title, min_length, max_length, phase).len() ==> (
            #[trigger] chunk_spec(text, title, min_length, max_length, phase)[k]).length
                == embed_len(
                chunk_spec(text, title, min_length, max_length, phase)[k].breadcrumb,
                chunk_spec(text, title, min_length, max_length, phase)[k].text,
            ),
{
    lemma_chunk_spec(text, title, min_length, max_length, phase);
}

/// No chunk is empty or whitespace-only: every chunk's text holds a
/// character that is not whitespace.
pub proof fn law_chunk_text_never_blank(
    text: Seq<char>,
    title: Option<Seq<char>>,
    min_length: int,
    max_length: int,
    phase: int,
)
    requires
        text.len() <= usize::MAX,
    ensures
        forall|k: int|
            0 <= k < chunk_spec(text, title, min_length, max_length, phase).len() ==> has_nonws(
                (#[trigger] chunk_spec(text, title, min_length, max_length, phase)[k]).text,
            ),
{
    lemma_chunk_spec(text, title, min_length, max_length, phase);
}

/// Every chunk carries a six-slot heading stack; its breadcrumb is the
/// headings present in that stack joined by `" > "`; its level is 0 (the
/// preface) to 6; and its header is the heading in its own level's slot
/// (the first slot, the title, for the preface).
pub proof fn law_breadcrumb_follows_heading_stack(
    text: Seq<char>,
    title: Option<Seq<char>>,
    min_length: int,
    max_length: int,
    phase: int,
)
    requires
        text.len() <= usize::MAX,
    ensures
        forall|k: int|
            0 <= k < chunk_spec(text, title, min_length, max_length, phase).len() ==> {
                let c = #[trigger] chunk_spec(text, title, min_length, max_length, phase)[k];
                &&& c.headers.len() == 6
                &&& c.breadcrumb == breadcrumb_of(c.headers)
                &&& c.level <= 6
                &&& c.header == c.headers[own_slot(c.level)]
            },
{
    lemma_chunk_spec(text, title, min_length, max_length, phase);
}

/// Phase 1 copies: the text of every phase-1 chunk is a contiguous piece of
/// the document, code spans included, so nothing in the document (such as
/// text that looks like a placeholder) is ever expanded or rewritten.
pub proof fn law_split_text_is_piece_of_document(text: Seq<char>, title: Option<Seq<char>>)
    requires
        text.len() <= usize::MAX,
    ensures
        forall|k: int|
            0 <= k < split_spec(text, title).len() ==> exists|a: int, b: int|
                0 <= a <= b <= text.len() && (#[trigger] split_spec(text, title)[k]).text
                    == text.subrange(a, b),
{
    lemma_split_wf(text, title);
    let v = split_spec(text, title);
    assert forall|k: int| 0 <= k < v.len() implies exists|a: int, b: int|
        0 <= a <= b <= text.len() && (#[trigger] v[k]).text == text.subrange(a, b) by {
        assert(split_chunk_ok(v[k], text));
    }
}

/// Merging never adds chunks: phases 2 and 3 each give at most as many
/// chunks as they are given, so the pipeline gives at most as many chunks as
/// phase 1.
pub proof fn law_merging_never_adds_chunks(
    text: Seq<char>,
    title: Option<Seq<char>>,
    min_length: int,
    max_length: int,
    phase: int,
    s: Seq<ChunkView>,
)
    ensures
        phase2_spec(s, min_length, max_length).len() <= s.len(),
        phase3_spec(s, min_length, max_length).len() <= s.len(),
        chunk_spec(text, title, min_length, max_length, phase).len() <= split_spec(text, title).len(),
{
    lemma_merges(s, min_length, max_length);
    let p1 = split_spec(text, title);
    lemma_merges(p1, min_length, max_length);
    let p2 = if phase >= 2 {
        phase2_spec(p1, min_length, max_length)
    } else {
        p1
    };
    lemma_merges(p2, min_length, max_length);
}

proof fn lemma_contig_order(s: Seq<char>, t: Seq<Tok>, i: int, j: int)
    requires
        0 <= i < j < t.len(),
        toks_contig(s, t),
    ensures
        tok_end(t[i]) <= tok_start(t[j]),
    decreases j - i,
{
    if i + 1 < j {
        lemma_contig_order(s, t, i, j - 1);
        assert(tok_start(t[j - 1]) < tok_end(t[j - 1]));
        assert(tok_end(t[j - 1]) == tok_start(t[j]));
    } else {
        assert(tok_end(t[i]) == tok_start(t[i + 1]));
    }
}

/// The heading match that starts at token `a` of `text` opens with a `#`
/// character of the document that lies outside every code span.
pub open spec fn opens_outside_code(text: Seq<char>, a: int) -> bool {
    let t = masked(text, 0);
    let q = line_start(text, t, a);
    &&& 0 <= q < t.len()
    &&& t[q] matches Tok::Ch(p) && text[p as int] == '#' && forall|k: int|
        0 <= k < t.len() ==> (#[trigger] t[k] matches Tok::Code(x, y) ==> !(x <= p < y))
}

/// Code spans protect their content: the `#` that opens every heading is a
/// character of the document outside every code span, so a `# line` inside
/// a fenced or inline code span never becomes a heading.
pub proof fn law_headings_start_outside_code_spans(text: Seq<char>)
    requires
        text.len() <= usize::MAX,
    ensures
        forall|h: int|
            0 <= h < header_spans(text, masked(text, 0), 0).len() ==> opens_outside_code(
                text,
                (#[trigger] header_spans(text, masked(text, 0), 0)[h]).0,
            ),
{
    let t = masked(text, 0);
    let hs = header_spans(text, t, 0);
    lemma_masked_contig(text, 0);
    lemma_header_spans(text, t, 0);
    assert forall|h: int| 0 <= h < hs.len() implies opens_outside_code(text, (#[trigger] hs[h]).0) by {
        let a = hs[h].0;
        lemma_heading_level(text, t, a);
        let q = line_start(text, t, a);
        crate::scan::lemma_hash_run(text, t, q);
        assert(is_hash(text, t[q]));
        let p = tok_start(t[q]);
        assert forall|k: int| 0 <= k < t.len() implies (#[trigger] t[k] matches Tok::Code(x, y)
            ==> !(x <= p < y)) by {
            if k < q {
                lemma_contig_order(text, t, k, q);
            } else if k > q {
                lemma_contig_order(text, t, q, k);
                assert(tok_start(t[k]) < tok_end(t[k]));
            }
        }
    }
}

/// The texts of `s`, in order, separated by blank lines.
pub open spec fn joined_texts(s: Seq<ChunkView>) -> Seq<char>
    decreases s.len(),
{
    if s.len() == 0 {
        Seq::empty()
    } else if s.len() == 1 {
        s[0].text
    } else {
        joined_texts(s.drop_last()) + blank_line() + s.last().text
    }
}

proof fn lemma_joined_texts_concat(a: Seq<ChunkView>, b: Seq<ChunkView>)
    requires
        a.len() > 0,
        b.len() > 0,
    ensures
        joined_texts(a + b) == joined_texts(a) + blank_line() + joined_texts(b),
    decreases b.len(),
{
    let ab = a + b;
    if b.len() == 1 {
        assert(ab.drop_last() =~= a);
        assert(ab.last() == b[0]);
    } else {
        assert(ab.drop_last() =~= a + b.drop_last());
        assert(ab.last() == b.last());
        lemma_joined_texts_concat(a, b.drop_last());
        assert(joined_texts(ab) =~= joined_texts(a) + blank_line() + joined_texts(b));
    }
}

proof fn lemma_phase2_from_nonempty(
    s: Seq<ChunkView>,
    i: int,
    c: ChunkView,
    min_length: int,
    max_length: int,
)
    ensures
        phase2_from(s, i, Some(c), min_length, max_length).len() > 0,
    decreases s.len() - i,
{
    if 0 <= i < s.len() {
        lemma_phase2_from_nonempty(s, i + 1, s[i], min_length, max_length);
        lemma_phase2_from_nonempty(s, i + 1, merged_pair(c, s[i]), min_length, max_length);
    }
}

proof fn lemma_phase2_from_texts(
    s: Seq<ChunkView>,
    i: int,
    cur: Option<ChunkView>,
    min_length: int,
    max_length: int,
)
    requires
        0 <= i <= s.len(),
    ensures
        joined_texts(phase2_from(s, i, cur, min_length, max_length)) == joined_texts(
            pending(cur) + s.subrange(i, s.len() as int),
        ),
    decreases s.len() - i,
{
    let rest = s.subrange(i, s.len() as int);
    if i == s.len() {
        assert(pending(cur) + rest =~= pending(cur));
    } else {
        let r1 = s.subrange(i + 1, s.len() as int);
        assert(rest =~= seq![s[i]] + r1);
        lemma_phase2_from_texts(s, i + 1, Some(s[i]), min_length, max_length);
        match cur {
            None => {
                assert(pending(cur) + rest =~= rest);
                assert(pending(Some(s[i])) + r1 =~= rest);
            },
            Some(c) => {
                let m = merged_pair(c, s[i]);
                lemma_phase2_from_texts(s, i + 1, Some(m), min_length, max_length);
                let whole = seq![c] + rest;
                assert(pending(cur) + rest =~= whole);
                assert(joined_texts(seq![c]) == c.text);
                assert(joined_texts(seq![m]) == m.text);
                assert(joined_texts(seq![s[i]]) == s[i].text);
                assert(seq![c, s[i]] =~= seq![c] + seq![s[i]]);
                lemma_joined_texts_concat(seq![c], seq![s[i]]);
                if r1.len() > 0 {
                    assert(whole =~= seq![c, s[i]] + r1);
                    lemma_joined_texts_concat(seq![c, s[i]], r1);
                    lemma_joined_texts_concat(seq![m], r1);
                    lemma_joined_texts_concat(seq![s[i]], r1);
                    lemma_joined_texts_concat(seq![c], seq![s[i]] + r1);
                } else {
                    assert(whole =~= seq![c, s[i]]);
                    assert(pending(Some(m)) + r1 =~= seq![m]);
                    assert(pending(Some(s[i])) + r1 =~= seq![s[i]]);
                }
                if !crate::merge::joins(c, s[i], min_length, max_length) {
                    let x = phase2_from(s, i + 1, Some(s[i]), min_length, max_length);
                    lemma_phase2_from_nonempty(s, i + 1, s[i], min_length, max_length);
                    lemma_joined_texts_concat(seq![c], x);
                    assert(pending(Some(s[i])) + r1 =~= seq![s[i]] + r1);
                }
            },
        }
    }
}

/// Phase 2 loses and reorders nothing: the texts of its chunks, joined by
/// blank lines, are the texts of the chunks it is given, joined by blank
/// lines.
pub proof fn law_phase2_keeps_all_text(s: Seq<ChunkView>, min_length: int, max_length: int)
    ensures
        joined_texts(phase2_spec(s, min_length, max_length)) == joined_texts(s),
{
    lemma_phase2_from_texts(s, 0, None, min_length, max_length);
    assert(pending(None) + s.subrange(0, s.len() as int) =~= s);
}

// ---------------------------------------------------------------------------
// The length limit of merges and absorptions.

/// The chunk's length is the one `set_length` gives it.
pub open spec fn length_set(c: ChunkView) -> bool {
    c.length == embed_len(c.breadcrumb, c.text)
}

/// Every chunk of `v` has the length `set_length` gives it.
pub open spec fn all_length_set(v: Seq<ChunkView>) -> bool {
    forall|k: int| 0 <= k < v.len() ==> length_set(#[trigger] v[k])
}

/// Every chunk of `v` is a chunk of `s`, or no longer than `max_length`.
pub open spec fn kept_or_within(v: Seq<ChunkView>, s: Seq<ChunkView>, max_length: int) -> bool {
    forall|k: int| 0 <= k < v.len() ==> s.contains(#[trigger] v[k]) || v[k].length <= max_length
}

proof fn lemma_kept_or_within_concat(
    a: Seq<ChunkView>,
    b: Seq<ChunkView>,
    s: Seq<ChunkView>,
    max_length: int,
)
    requires
        kept_or_within(a, s, max_length),
        kept_or_within(b, s, max_length),
        all_length_set(a),
        all_length_set(b),
    ensures
        kept_or_within(a + b, s, max_length),
        all_length_set(a + b),
{
    assert forall|k: int| 0 <= k < (a + b).len() implies (s.contains(#[trigger] (a + b)[k])
        || (a + b)[k].length <= max_length) && length_set((a + b)[k]) by {
        if k < a.len() {
            assert((a + b)[k] == a[k]);
        } else {
            assert((a + b)[k] == b[k - a.len()]);
        }
    }
}

proof fn lemma_kept_or_within_trans(
    v: Seq<ChunkView>,
    u: Seq<ChunkView>,
    s: Seq<ChunkView>,
    max_length: int,
)
    requires
        kept_or_within(v, u, max_length),
        kept_or_within(u, s, max_length),
    ensures
        kept_or_within(v, s, max_length),
{
    assert forall|k: int| 0 <= k < v.len() implies s.contains(#[trigger] v[k]) || v[k].length
        <= max_length by {
        if u.contains(v[k]) {
            let j = choose|j: int| 0 <= j < u.len() && u[j] == v[k];
            assert(s.contains(u[j]) || u[j].length <= max_length);
        }
    }
}

/// The chunk being built is a chunk of `s` or within `max_length`, and has
/// the length `set_length` gives it.
pub open spec fn cur_ok(cur: Option<ChunkView>, s: Seq<ChunkView>, max_length: int) -> bool {
    cur matches Some(c) ==> length_set(c) && (s.contains(c) || c.length <= max_length)
}

proof fn lemma_phase2_from_within(
    s: Seq<ChunkView>,
    i: int,
    cur: Option<ChunkView>,
    min_length: int,
    max_length: int,
)
    requires
        0 <= i <= s.len(),
        all_length_set(s),
        cur_ok(cur, s, max_length),
    ensures
        kept_or_within(phase2_from(s, i, cur, min_length, max_length), s, max_length),
        all_length_set(phase2_from(s, i, cur, min_length, max_length)),
    decreases s.len() - i,
{
    if i < s.len() {
        assert(length_set(s[i]));
        assert(s.contains(s[i]));
        lemma_phase2_from_within(s, i + 1, Some(s[i]), min_length, max_length);
        if let Some(c) = cur {
            if crate::merge::joins(c, s[i], min_length, max_length) {
                crate::utils::law_update_after_merge_matches_set_length(c, s[i]);
                lemma_phase2_from_within(s, i + 1, Some(merged_pair(c, s[i])), min_length, max_length);
            } else {
                lemma_kept_or_within_concat(
                    seq![c],
                    phase2_from(s, i + 1, Some(s[i]), min_length, max_length),
                    s,
                    max_length,
                );
            }
        }
    }
}

proof fn lemma_pass_from_within(
    s: Seq<ChunkView>,
    i: int,
    cur: Option<ChunkView>,
    level: u32,
    min_length: int,
    max_length: int,
)
    requires
        0 <= i <= s.len(),
        all_length_set(s),
        cur_ok(cur, s, max_length),
    ensures
        kept_or_within(pass_from(s, i, cur, level, min_length, max_length), s, max_length),
        all_length_set(pass_from(s, i, cur, level, min_length, max_length)),
    decreases s.len() - i,
{
    if i < s.len() {
        assert(length_set(s[i]));
        assert(s.contains(s[i]));
        if cur matches Some(c) && crate::merge::absorbs(c, s[i], level, min_length, max_length) {
            let c = cur->0;
            let child = s[i];
            let lv = if child.level < 6 {
                child.level as int
            } else {
                6
            };
            let hdr = crate::merge::header_or_empty(child.header);
            crate::utils::law_update_after_absorb_matches_set_length(
                c,
                child,
                crate::merge::hashes(lv),
                hdr,
            );
            assert(crate::merge::hashes(lv) + seq![' '] + hdr
                == crate::merge::child_heading_line(child));
            lemma_pass_from_within(s, i + 1, Some(absorbed(c, child)), level, min_length, max_length);
        } else if s[i].level == level && s[i].length < max_length {
            lemma_pass_from_within(s, i + 1, Some(s[i]), level, min_length, max_length);
            lemma_kept_or_within_concat(
                pending(cur),
                pass_from(s, i + 1, Some(s[i]), level, min_length, max_length),
                s,
                max_length,
            );
        } else {
            lemma_pass_from_within(s, i + 1, None, level, min_length, max_length);
            lemma_kept_or_within_concat(pending(cur), seq![s[i]], s, max_length);
            lemma_kept_or_within_concat(
                pending(cur) + seq![s[i]],
                pass_from(s, i + 1, None, level, min_length, max_length),
                s,
                max_length,
            );
        }
    } else {
        lemma_kept_or_within_concat(pending(cur), Seq::empty(), s, max_length);
        assert(pending(cur) + Seq::<ChunkView>::empty() =~= pending(cur));
    }
}

proof fn lemma_passes_within(s: Seq<ChunkView>, level: nat, min_length: int, max_length: int)
    requires
        all_length_set(s),
    ensures
        kept_or_within(passes(s, level, min_length, max_length), s, max_length),
        all_length_set(passes(s, level, min_length, max_length)),
    decreases level,
{
    if level > 0 {
        let p = pass_from(s, 0, None, level as u32, min_length, max_length);
        lemma_pass_from_within(s, 0, None, level as u32, min_length, max_length);
        lemma_passes_within(p, (level - 1) as nat, min_length, max_length);
        lemma_kept_or_within_trans(passes(p, (level - 1) as nat, min_length, max_length), p, s, max_length);
    } else {
        assert forall|k: int| 0 <= k < s.len() implies s.contains(#[trigger] s[k]) || s[k].length
            <= max_length by {
            assert(s.contains(s[k]));
        }
    }
}

/// Phase 2 keeps to `max_length`: given chunks whose lengths `set_length`
/// set, every chunk it gives is one of them, unchanged, or a merge no longer
/// than `max_length`.
pub proof fn law_phase2_merges_within_max_length(
    s: Seq<ChunkView>,
    min_length: int,
    max_length: int,
)
    requires
        all_length_set(s),
    ensures
        forall|k: int|
            0 <= k < phase2_spec(s, min_length, max_length).len() ==> s.contains(
                #[trigger] phase2_spec(s, min_length, max_length)[k],
            ) || phase2_spec(s, min_length, max_length)[k].length <= max_length,
{
    lemma_phase2_from_within(s, 0, None, min_length, max_length);
}

/// Phase 3 keeps to `max_length`: given chunks whose lengths `set_length`
/// set, every chunk it gives is one of them, unchanged, or a parent that
/// absorbed children and is no longer than `max_length`.
pub proof fn law_phase3_absorbs_within_max_length(
    s: Seq<ChunkView>,
    min_length: int,
    max_length: int,
)
    requires
        all_length_set(s),
    ensures
        forall|k: int|
            0 <= k < phase3_spec(s, min_length, max_length).len() ==> s.contains(
                #[trigger] phase3_spec(s, min_length, max_length)[k],
            ) || phase3_spec(s, min_length, max_length)[k].length <= max_length,
{
    lemma_passes_within(s, 6, min_length, max_length);
}

/// `max_length` bounds every chunk the merges build: each chunk `chunk`
/// returns is a phase-1 chunk (one paragraph), unchanged, or no longer than
/// `max_length`.
pub proof fn law_chunk_merges_within_max_length(
    text: Seq<char>,
    title: Option<Seq<char>>,
    min_length: int,
    max_length: int,
    phase: int,
)
    requires
        text.len() <= usize::MAX,
    ensures
        forall|k: int|
            0 <= k < chunk_spec(text, title, min_length, max_length, phase).len() ==> split_spec(
                text,
                title,
            ).contains(#[trigger] chunk_spec(text, title, min_length, max_length, phase)[k])
                || chunk_spec(text, title, min_length, max_length, phase)[k].length
                <= max_length,
{
    let p1 = split_spec(text, title);
    lemma_split_wf(text, title);
    assert(all_length_set(p1)) by {
        assert forall|k: int| 0 <= k < p1.len() implies length_set(#[trigger] p1[k]) by {
            assert(chunk_wf(p1[k]));
        }
    }
    lemma_passes_within(p1, 0, min_length, max_length);
    let p2 = if phase >= 2 {
        phase2_spec(p1, min_length, max_length)
    } else {
        p1
    };
    lemma_phase2_from_within(p1, 0, None, min_length, max_length);
    if phase >= 3 {
        lemma_passes_within(p2, 6, min_length, max_length);
        lemma_kept_or_within_trans(phase3_spec(p2, min_length, max_length), p2, p1, max_length);
    }
}

// ---------------------------------------------------------------------------
// Phase 2 is idempotent.

/// No chunk of `v` would phase 2 merge into the one before it.
pub open spec fn no_joins(v: Seq<ChunkView>, min_length: int, max_length: int) -> bool {
    forall|k: int|
        0 <= k < v.len() - 1 ==> !crate::merge::joins(#[trigger] v[k], v[k + 1], min_length, max_length)
}

/// Phase 2 leaves a sequence in which nothing joins as it is.
proof fn lemma_phase2_fixed(v: Seq<ChunkView>, i: int, min_length: int, max_length: int)
    requires
        1 <= i <= v.len(),
        no_joins(v, min_length, max_length),
    ensures
        phase2_from(v, i, Some(v[i - 1]), min_length, max_length) == v.subrange(i - 1, v.len() as int),
    decreases v.len() - i,
{
    if i < v.len() {
        assert(!crate::merge::joins(v[i - 1], v[i], min_length, max_length));
        lemma_phase2_fixed(v, i + 1, min_length, max_length);
        assert(v.subrange(i - 1, v.len() as int) =~= seq![v[i - 1]] + v.subrange(i, v.len() as int));
    } else {
        assert(v.subrange(i - 1, v.len() as int) =~= seq![v[i - 1]]);
    }
}

/// Merging only grows the merged length as the appended chunk grows.
proof fn lemma_merge_len_mono(p: ChunkView, x: ChunkView, y: ChunkView)
    requires
        x.breadcrumb == y.breadcrumb,
        x.length >= y.length,
    ensures
        crate::merge::merge_len(p, x) >= crate::merge::merge_len(p, y),
{
}

/// Appending to a chunk whose length `set_length` set never shortens it.
proof fn lemma_merged_pair_longer(c: ChunkView, n: ChunkView)
    requires
        length_set(c),
    ensures
        merged_pair(c, n).length >= c.length,
{
    let a = c.breadcrumb + blank_line() + c.text;
    assert(crate::tokens::is_ws('\n'));
    assert(crate::tokens::all_ws(blank_line()));
    crate::tokens::lemma_collapsed_concat(a, blank_line(), n.text);
    assert(c.breadcrumb + blank_line() + (c.text + blank_line() + n.text) =~= a + blank_line()
        + n.text);
}

/// What phase 2 builds from `c` and `s[i..]`: its first chunk has `c`'s
/// breadcrumb and is at least as long, and nothing in it joins.
proof fn lemma_phase2_from_no_joins(
    s: Seq<ChunkView>,
    i: int,
    c: ChunkView,
    min_length: int,
    max_length: int,
)
    requires
        0 <= i <= s.len(),
        all_length_set(s),
        length_set(c),
    ensures
        phase2_from(s, i, Some(c), min_length, max_length).len() > 0,
        phase2_from(s, i, Some(c), min_length, max_length)[0].breadcrumb == c.breadcrumb,
        phase2_from(s, i, Some(c), min_length, max_length)[0].length >= c.length,
        no_joins(phase2_from(s, i, Some(c), min_length, max_length), min_length, max_length),
    decreases s.len() - i,
{
    let r = phase2_from(s, i, Some(c), min_length, max_length);
    if i < s.len() {
        assert(length_set(s[i]));
        if crate::merge::joins(c, s[i], min_length, max_length) {
            let m = merged_pair(c, s[i]);
            lemma_merged_pair_longer(c, s[i]);
            lemma_phase2_from_no_joins(s, i + 1, m, min_length, max_length);
        } else {
            let r2 = phase2_from(s, i + 1, Some(s[i]), min_length, max_length);
            lemma_phase2_from_no_joins(s, i + 1, s[i], min_length, max_length);
            assert(r =~= seq![c] + r2);
            if c.breadcrumb == s[i].breadcrumb && crate::merge::below_min(
                c.length as int,
                s[i].length as int,
                min_length,
            ) {
                lemma_merge_len_mono(c, r2[0], s[i]);
            }
            assert(!crate::merge::joins(c, r2[0], min_length, max_length));
            assert forall|k: int| 0 <= k < r.len() - 1 implies !crate::merge::joins(
                #[trigger] r[k],
                r[k + 1],
                min_length,
                max_length,
            ) by {
                if k > 0 {
                    assert(r[k] == r2[k - 1]);
                    assert(r[k + 1] == r2[k]);
                }
            }
        }
    } else {
        assert(r =~= seq![c]);
    }
}

/// Phase 2 is idempotent on chunks whose lengths `set_length` set: running
/// it again on its own result changes nothing.
pub proof fn law_phase2_idempotent(s: Seq<ChunkView>, min_length: int, max_length: int)
    requires
        all_length_set(s),
    ensures
        phase2_spec(phase2_spec(s, min_length, max_length), min_length, max_length)
            == phase2_spec(s, min_length, max_length),
{
    let v = phase2_spec(s, min_length, max_length);
    if s.len() == 0 {
        assert(v =~= Seq::<ChunkView>::empty());
        assert(phase2_spec(v, min_length, max_length) =~= Seq::<ChunkView>::empty());
    } else {
        assert(length_set(s[0]));
        lemma_phase2_from_no_joins(s, 1, s[0], min_length, max_length);
        assert(v == phase2_from(s, 1, Some(s[0]), min_length, max_length));
        lemma_phase2_fixed(v, 1, min_length, max_length);
        assert(v.subrange(0, v.len() as int) =~= v);
    }
}

// ---------------------------------------------------------------------------
// The title is only a fallback.

/// The document opens with an H1 line: its first heading match starts at
/// its very beginning and has one `#`.
pub open spec fn opens_with_h1(text: Seq<char>) -> bool {
    let t = masked(text, 0);
    let hs = header_spans(text, t, 0);
    &&& hs.len() > 0
    &&& hs[0].0 == 0
    &&& heading_level(text, t, 0) == 1
}

/// A document that opens with an H1 line ignores `title`: phase 1, and so
/// the whole pipeline, give the same chunks with or without it.
pub proof fn law_leading_h1_ignores_title(
    text: Seq<char>,
    title: Option<Seq<char>>,
    min_length: int,
    max_length: int,
    phase: int,
)
    requires
        opens_with_h1(text),
    ensures
        split_spec(text, title) == split_spec(text, None),
        chunk_spec(text, title, min_length, max_length, phase) == chunk_spec(
            text,
            None,
            min_length,
            max_length,
            phase,
        ),
{
    let t = masked(text, 0);
    let hs = header_spans(text, t, 0);
    let a = hs[0].0;
    let e = hs[0].1;
    let h = heading_text(text, t, a, e);
    assert(pieces(text, t, 0, 0, 0) =~= seq![(0int, 0int)]);
    let ps = pieces(text, t, 0, 0, 0);
    assert(ps.drop_last() =~= Seq::<(int, int)>::empty());
    assert(ps.last() == (0int, 0int));
    assert(ws_end(text, t, 0, 0) == 0);
    assert(piece_chunk(text, t, 0, 0, 0, title, initial_stack(title)) =~= Seq::<ChunkView>::empty());
    assert(piece_chunk(text, t, 0, 0, 0, None, initial_stack(None)) =~= Seq::<ChunkView>::empty());
    assert(piece_chunks(text, t, ps.drop_last(), 0, title, initial_stack(title)) =~= Seq::<
        ChunkView,
    >::empty());
    assert(piece_chunks(text, t, ps.drop_last(), 0, None, initial_stack(None)) =~= Seq::<
        ChunkView,
    >::empty());
    assert(section_paragraphs(text, t, 0, 0, 0, title, initial_stack(title)) =~= Seq::<
        ChunkView,
    >::empty());
    assert(section_paragraphs(text, t, 0, 0, 0, None, initial_stack(None)) =~= Seq::<
        ChunkView,
    >::empty());
    assert(set_slot(initial_stack(title), 1, h) =~= set_slot(initial_stack(None), 1, h));
    assert(sections(text, t, hs, 0, initial_stack(title)) == sections(
        text,
        t,
        hs,
        0,
        initial_stack(None),
    ));
    assert(split_spec(text, title) =~= split_spec(text, None));
}

// ---------------------------------------------------------------------------
// The order of the phases.

/// `chunk` runs the phases in order: phase 1, then phase 2 on its result,
/// then phase 3 on that, stopping after the requested phase.
pub proof fn law_chunk_runs_phases_in_order(
    text: Seq<char>,
    title: Option<Seq<char>>,
    min_length: int,
    max_length: int,
    phase: int,
)
    ensures
        phase < 2 ==> chunk_spec(text, title, min_length, max_length, phase) == split_spec(
            text,
            title,
        ),
        phase == 2 ==> chunk_spec(text, title, min_length, max_length, phase) == phase2_spec(
            split_spec(text, title),
            min_length,
            max_length,
        ),
        phase >= 3 ==> chunk_spec(text, title, min_length, max_length, phase) == phase3_spec(
            phase2_spec(split_spec(text, title), min_length, max_length),
            min_length,
            max_length,
        ),
{
}

// ---------------------------------------------------------------------------
// Phase 2 leaves nothing it could still merge.

/// Phase 2 merges as far as it can: given chunks whose lengths `set_length`
/// set, no two neighbours of its result share a breadcrumb while one of them
/// is shorter than `min_length` and the text of both, joined by a blank line,
/// fits within `max_length`. A short chunk after a long one is merged too.
pub proof fn law_phase2_leaves_no_mergeable_neighbours(
    s: Seq<ChunkView>,
    min_length: int,
    max_length: int,
)
    requires
        all_length_set(s),
    ensures
        forall|k: int|
            0 <= k < phase2_spec(s, min_length, max_length).len() - 1 ==> {
                let a = #[trigger] phase2_spec(s, min_length, max_length)[k];
                let b = phase2_spec(s, min_length, max_length)[k + 1];
                !(a.breadcrumb == b.breadcrumb && (a.length < min_length || b.length < min_length)
                    && embed_len(a.breadcrumb, a.text + blank_line() + b.text) <= max_length)
            },
{
    let v = phase2_spec(s, min_length, max_length);
    lemma_phase2_from_within(s, 0, None, min_length, max_length);
    if s.len() > 0 {
        assert(length_set(s[0]));
        lemma_phase2_from_no_joins(s, 1, s[0], min_length, max_length);
        assert(v == phase2_from(s, 1, Some(s[0]), min_length, max_length));
        assert forall|k: int| 0 <= k < v.len() - 1 implies {
            let a = #[trigger] v[k];
            let b = v[k + 1];
            !(a.breadcrumb == b.breadcrumb && (a.length < min_length || b.length < min_length)
                && embed_len(a.breadcrumb, a.text + blank_line() + b.text) <= max_length)
        } by {
            assert(!crate::merge::joins(v[k], v[k + 1], min_length, max_length));
            assert(length_set(v[k]));
            assert(length_set(v[k + 1]));
            crate::utils::law_update_after_merge_matches_set_length(v[k], v[k + 1]);
        }
    }
}

// ---------------------------------------------------------------------------
// What a heading line looks like.

/// The heading line that starts at token `q` of `t` starts a line (at the
/// start of the document or right after a newline) and opens with one to
/// six `#` characters followed by a whitespace character.
pub open spec fn atx_opening(text: Seq<char>, t: Seq<Tok>, q: int) -> bool {
    &&& q == 0 || (1 <= q <= t.len() && is_nl(text, t[q - 1]))
    &&& exists|r: int| #[trigger] hashes_then_space(text, t, q, r)
}

/// Tokens `q..q + r` of `t` are `#` characters, `1 <= r <= 6`, and token
/// `q + r` is a whitespace character.
pub open spec fn hashes_then_space(text: Seq<char>, t: Seq<Tok>, q: int, r: int) -> bool {
    &&& 1 <= r <= 6
    &&& 0 <= q
    &&& q + r < t.len()
    &&& forall|j: int| q <= j < q + r ==> is_hash(text, #[trigger] t[j])
    &&& tok_ws(text, t[q + r])
}

/// Every heading is an ATX heading line: at the start of a line, one to six
/// `#` characters (outside code spans) and then whitespace, so a line such
/// as `##word`, or a `#` in the middle of a line, is never a heading and
/// stays in the text of its paragraph.
pub proof fn law_headings_open_with_hashes_and_space(text: Seq<char>)
    ensures
        forall|h: int|
            0 <= h < header_spans(text, masked(text, 0), 0).len() ==> atx_opening(
                text,
                masked(text, 0),
                line_start(
                    text,
                    masked(text, 0),
                    (#[trigger] header_spans(text, masked(text, 0), 0)[h]).0,
                ),
            ),
{
    let t = masked(text, 0);
    let hs = header_spans(text, t, 0);
    lemma_header_spans(text, t, 0);
    assert forall|h: int| 0 <= h < hs.len() implies atx_opening(
        text,
        t,
        line_start(text, t, (#[trigger] hs[h]).0),
    ) by {
        let a = hs[h].0;
        let q = line_start(text, t, a);
        if a == 0 && line_match(text, t, 0) is Some {
            assert(is_hash(text, t[0]));
            assert(!is_nl(text, t[0]));
        }
        assert(line_match(text, t, q) is Some);
        crate::scan::lemma_hash_run(text, t, q);
        let r = crate::scan::hash_run(text, t, q) as int;
        assert(hashes_then_space(text, t, q, r));
    }
}

// ---------------------------------------------------------------------------
// Heading texts are trimmed.

/// `h` neither starts nor ends with whitespace.
pub open spec fn trimmed(h: Seq<char>) -> bool {
    h.len() == 0 || (!is_ws(h[0]) && !is_ws(h.last()))
}

/// A heading slot is empty, holds a trimmed heading, or holds the title.
pub open spec fn slot_ok(o: Option<Seq<char>>, title: Option<Seq<char>>) -> bool {
    o matches Some(h) ==> trimmed(h) || title == Some(h)
}

/// Every slot of a heading stack is empty, trimmed, or the title.
pub open spec fn stack_ok(stack: Seq<Option<Seq<char>>>, title: Option<Seq<char>>) -> bool {
    forall|j: int| 0 <= j < stack.len() ==> slot_ok(#[trigger] stack[j], title)
}

/// Trailing whitespace trimmed off a range that starts with a non-whitespace
/// token leaves it ending in a non-whitespace token.
proof fn lemma_rtrim_end(s: Seq<char>, t: Seq<Tok>, lo: int, hi: int)
    requires
        0 <= lo < hi <= t.len(),
        !tok_ws(s, t[lo]),
    ensures
        lo < rtrim(s, t, lo, hi) <= hi,
        !tok_ws(s, t[rtrim(s, t, lo, hi) - 1]),
    decreases hi - lo,
{
    if tok_ws(s, t[hi - 1]) {
        lemma_rtrim_end(s, t, lo, hi - 1);
    }
}

/// A token that is not whitespace starts and ends with a character that is
/// not whitespace.
proof fn lemma_tok_ends(s: Seq<char>, t: Seq<Tok>, k: int)
    requires
        0 <= k < t.len(),
        !tok_ws(s, t[k]),
        code_toks_tick(s, t),
    ensures
        !is_ws(s[tok_start(t[k])]),
        !is_ws(s[tok_end(t[k]) - 1]),
{
    assert(!is_ws('`'));
    match t[k] {
        Tok::Ch(p) => {},
        Tok::Code(c0, c1) => {
            assert(s[c0 as int] == '`' && s[c1 - 1] == '`');
        },
    }
}

/// The text of `t[lo..r]` is trimmed when its first and last tokens are
/// not whitespace.
proof fn lemma_trimmed_tokens(s: Seq<char>, t: Seq<Tok>, lo: int, r: int)
    requires
        0 <= lo < r <= t.len(),
        !tok_ws(s, t[lo]),
        !tok_ws(s, t[r - 1]),
        code_toks_tick(s, t),
        toks_contig(s, t),
    ensures
        trimmed(restore_toks(t, lo, r, s)),
{
    lemma_restore_slice(s, t, lo, r);
    lemma_contig_mono(s, t, lo, r - 1);
    lemma_tok_ends(s, t, lo);
    lemma_tok_ends(s, t, r - 1);
    let x = tok_start(t[lo]);
    let y = tok_end(t[r - 1]);
    let h = restore_toks(t, lo, r, s);
    assert(h == s.subrange(x, y));
    assert(h[0] == s[x]);
    assert(h.last() == s[y - 1]);
}

/// The text of the tokens from a non-whitespace token `t[lo]` up to `e`,
/// trailing whitespace trimmed off, is trimmed.
proof fn lemma_trimmed_range(s: Seq<char>, t: Seq<Tok>, lo: int, e: int)
    requires
        0 <= lo < e <= t.len(),
        !tok_ws(s, t[lo]),
        code_toks_tick(s, t),
        toks_contig(s, t),
    ensures
        trimmed(restore_toks(t, lo, rtrim(s, t, lo, e), s)),
{
    lemma_rtrim_end(s, t, lo, e);
    lemma_trimmed_tokens(s, t, lo, rtrim(s, t, lo, e));
}

/// The `#` run of a heading match ends before the match does.
proof fn lemma_heading_bounds(s: Seq<char>, t: Seq<Tok>, a: int, e: int)
    requires
        0 <= a < t.len(),
        header_at(s, t, a) == Some(e),
    ensures
        0 <= line_start(s, t, a) + heading_level(s, t, a) < e <= t.len(),
{
    let q = line_start(s, t, a);
    if a == 0 && line_match(s, t, 0) is Some {
        assert(is_hash(s, t[0]));
        assert(!is_nl(s, t[0]));
    }
    assert(line_match(s, t, q) == Some(e));
    lemma_line_match_some(s, t, q);
}

/// The text of a heading match is trimmed.
proof fn lemma_heading_text_trimmed(s: Seq<char>, t: Seq<Tok>, a: int, e: int)
    requires
        0 <= a < t.len(),
        header_at(s, t, a) == Some(e),
        code_toks_tick(s, t),
        toks_contig(s, t),
    ensures
        trimmed(heading_text(s, t, a, e)),
{
    lemma_heading_bounds(s, t, a, e);
    let i0 = line_start(s, t, a) + heading_level(s, t, a);
    lemma_ws_end(s, t, i0, e);
    let lo = ws_end(s, t, i0, e);
    if lo < e {
        lemma_trimmed_range(s, t, lo, e);
    } else {
        assert(rtrim(s, t, lo, e) == e);
        assert(restore_toks(t, lo, e, s) =~= Seq::<char>::empty());
    }
}

proof fn lemma_piece_chunks_heading(
    s: Seq<char>,
    t: Seq<Tok>,
    ps: Seq<(int, int)>,
    level: u32,
    header: Option<Seq<char>>,
    stack: Seq<Option<Seq<char>>>,
)
    ensures
        forall|k: int|
            0 <= k < piece_chunks(s, t, ps, level, header, stack).len() ==> (#[trigger] piece_chunks(
                s,
                t,
                ps,
                level,
                header,
                stack,
            )[k]).header == header && piece_chunks(s, t, ps, level, header, stack)[k].headers
                == stack,
    decreases ps.len(),
{
    if ps.len() > 0 {
        let init = ps.drop_last();
        let last = ps.last();
        lemma_piece_chunks_heading(s, t, init, level, header, stack);
        let a = piece_chunks(s, t, init, level, header, stack);
        let b = piece_chunk(s, t, last.0, last.1, level, header, stack);
        let v = piece_chunks(s, t, ps, level, header, stack);
        assert(v == a + b);
        assert forall|k: int| 0 <= k < v.len() implies (#[trigger] v[k]).header == header
            && v[k].headers == stack by {
            if k < a.len() {
                assert(v[k] == a[k]);
            } else {
                assert(v[k] == b[k - a.len()]);
            }
        }
    }
}

/// Every chunk of `v` has a header and heading slots that are empty,
/// trimmed, or the title.
pub open spec fn heads_ok(v: Seq<ChunkView>, title: Option<Seq<char>>) -> bool {
    forall|k: int|
        0 <= k < v.len() ==> slot_ok((#[trigger] v[k]).header, title) && stack_ok(v[k].headers, title)
}

proof fn lemma_heads_ok_concat(a: Seq<ChunkView>, b: Seq<ChunkView>, title: Option<Seq<char>>)
    requires
        heads_ok(a, title),
        heads_ok(b, title),
    ensures
        heads_ok(a + b, title),
{
    assert forall|k: int| 0 <= k < (a + b).len() implies slot_ok((#[trigger] (a + b)[k]).header, title)
        && stack_ok((a + b)[k].headers, title) by {
        if k < a.len() {
            assert((a + b)[k] == a[k]);
        } else {
            assert((a + b)[k] == b[k - a.len()]);
        }
    }
}

proof fn lemma_set_slot_ok(
    stack: Seq<Option<Seq<char>>>,
    level: int,
    h: Seq<char>,
    title: Option<Seq<char>>,
)
    requires
        stack.len() == 6,
        stack_ok(stack, title),
        trimmed(h),
    ensures
        stack_ok(set_slot(stack, level, h), title),
{
    let st = set_slot(stack, level, h);
    assert forall|j: int| 0 <= j < st.len() implies slot_ok(#[trigger] st[j], title) by {
        if j < level - 1 {
            assert(slot_ok(stack[j], title));
        }
    }
}

proof fn lemma_section_paragraphs_heads(
    s: Seq<char>,
    t: Seq<Tok>,
    lo: int,
    hi: int,
    level: u32,
    header: Option<Seq<char>>,
    stack: Seq<Option<Seq<char>>>,
    title: Option<Seq<char>>,
)
    requires
        slot_ok(header, title),
        stack_ok(stack, title),
    ensures
        heads_ok(section_paragraphs(s, t, lo, hi, level, header, stack), title),
{
    lemma_piece_chunks_heading(s, t, pieces(s, t, hi, lo, lo), level, header, stack);
}

#[verifier::rlimit(30)]
proof fn lemma_sections_heading(
    s: Seq<char>,
    t: Seq<Tok>,
    hs: Seq<(int, int)>,
    i: int,
    stack: Seq<Option<Seq<char>>>,
    title: Option<Seq<char>>,
)
    requires
        0 <= i,
        spans_ok(s, t, hs),
        code_toks_tick(s, t),
        toks_contig(s, t),
        stack.len() == 6,
        stack_ok(stack, title),
    ensures
        heads_ok(sections(s, t, hs, i, stack), title),
    decreases hs.len() - i,
{
    if i < hs.len() {
        let a = hs[i].0;
        let e = hs[i].1;
        assert(0 <= a < t.len() && header_at(s, t, a) == Some(e));
        let level = heading_level(s, t, a);
        let h = heading_text(s, t, a, e);
        lemma_heading_text_trimmed(s, t, a, e);
        let st = set_slot(stack, level as int, h);
        lemma_set_slot_ok(stack, level as int, h, title);
        let end = if i + 1 < hs.len() {
            hs[i + 1].0
        } else {
            t.len() as int
        };
        lemma_section_paragraphs_heads(s, t, e, end, level as u32, Some(h), st, title);
        lemma_sections_heading(s, t, hs, i + 1, st, title);
        lemma_heads_ok_concat(
            section_paragraphs(s, t, e, end, level as u32, Some(h), st),
            sections(s, t, hs, i + 1, st),
            title,
        );
    }
}

/// Heading texts are trimmed: in every phase-1 chunk, the header and every
/// slot of the heading stack hold either the title or a heading taken from
/// the document, which neither starts nor ends with whitespace (the heading
/// line after its `#` run, with surrounding whitespace such as a trailing
/// `\r` removed).
pub proof fn law_heading_text_trimmed(text: Seq<char>, title: Option<Seq<char>>)
    requires
        text.len() <= usize::MAX,
    ensures
        heads_ok(split_spec(text, title), title),
{
    let t = masked(text, 0);
    let hs = header_spans(text, t, 0);
    let st = initial_stack(title);
    lemma_masked_code_tick(text, 0);
    lemma_masked_contig(text, 0);
    lemma_header_spans(text, t, 0);
    assert(stack_ok(st, title));
    if hs.len() == 0 {
        lemma_section_paragraphs_heads(text, t, 0, t.len() as int, 0, title, st, title);
    } else {
        lemma_section_paragraphs_heads(text, t, 0, hs[0].0, 0, title, st, title);
        lemma_sections_heading(text, t, hs, 0, st, title);
        lemma_heads_ok_concat(
            section_paragraphs(text, t, 0, hs[0].0, 0, title, st),
            sections(text, t, hs, 0, st),
            title,
        );
    }
}

// ---------------------------------------------------------------------------
// Phase 3 absorbs only descendants.

/// The groups `gs` laid end to end.
pub open spec fn flat(gs: Seq<Seq<ChunkView>>) -> Seq<ChunkView>
    decreases gs.len(),
{
    if gs.len() == 0 {
        Seq::empty()
    } else {
        flat(gs.drop_last()) + gs.last()
    }
}

/// The chunk `o` was built from the group `g` of consecutive input chunks
/// by a pass at `level`: `g[0]` is the parent, whose level, header, heading
/// stack and breadcrumb `o` keeps; a group of one is passed on unchanged;
/// a parent that absorbs is at `level`; and every absorbed chunk is deeper
/// than `level` and lies under the parent's headings (the parent's heading
/// path is a prefix of its own).
pub open spec fn group_ok(o: ChunkView, g: Seq<ChunkView>, level: u32) -> bool {
    &&& g.len() >= 1
    &&& o.level == g[0].level
    &&& o.header == g[0].header
    &&& o.headers == g[0].headers
    &&& o.breadcrumb == g[0].breadcrumb
    &&& g.len() == 1 ==> o == g[0]
    &&& g.len() > 1 ==> g[0].level == level
    &&& forall|j: int|
        1 <= j < g.len() ==> (#[trigger] g[j]).level > level && crate::utils::is_path_prefix(
            g[0].headers,
            g[j].headers,
        )
}

/// Each chunk of `r` was built from the matching group of `gs`.
pub open spec fn groups_ok(r: Seq<ChunkView>, gs: Seq<Seq<ChunkView>>, level: u32) -> bool {
    &&& r.len() == gs.len()
    &&& forall|k: int| 0 <= k < r.len() ==> group_ok(#[trigger] r[k], gs[k], level)
}

proof fn lemma_flat_concat(a: Seq<Seq<ChunkView>>, b: Seq<Seq<ChunkView>>)
    ensures
        flat(a + b) == flat(a) + flat(b),
    decreases b.len(),
{
    if b.len() == 0 {
        assert(a + b =~= a);
        assert(flat(a) + flat(b) =~= flat(a));
    } else {
        assert((a + b).drop_last() =~= a + b.drop_last());
        assert((a + b).last() == b.last());
        lemma_flat_concat(a, b.drop_last());
        assert(flat(a + b) =~= flat(a) + flat(b));
    }
}

proof fn lemma_groups_ok_concat(
    r1: Seq<ChunkView>,
    g1: Seq<Seq<ChunkView>>,
    r2: Seq<ChunkView>,
    g2: Seq<Seq<ChunkView>>,
    level: u32,
)
    requires
        groups_ok(r1, g1, level),
        groups_ok(r2, g2, level),
    ensures
        groups_ok(r1 + r2, g1 + g2, level),
{
    assert forall|k: int| 0 <= k < (r1 + r2).len() implies group_ok(
        #[trigger] (r1 + r2)[k],
        (g1 + g2)[k],
        level,
    ) by {
        if k < r1.len() {
            assert((r1 + r2)[k] == r1[k]);
            assert((g1 + g2)[k] == g1[k]);
        } else {
            assert((r1 + r2)[k] == r2[k - r1.len()]);
            assert((g1 + g2)[k] == g2[k - r1.len()]);
        }
    }
}

/// The groups of the chunk being built, as a sequence of at most one.
pub open spec fn pending_group(cur: Option<ChunkView>, cg: Seq<ChunkView>) -> Seq<Seq<ChunkView>> {
    match cur {
        Some(_) => seq![cg],
        None => Seq::empty(),
    }
}

proof fn lemma_pass_groups(
    s: Seq<ChunkView>,
    i: int,
    cur: Option<ChunkView>,
    cg: Seq<ChunkView>,
    level: u32,
    min_length: int,
    max_length: int,
) -> (gs: Seq<Seq<ChunkView>>)
    requires
        0 <= i <= s.len(),
        cur is None ==> cg.len() == 0,
        cur matches Some(c) ==> group_ok(c, cg, level) && c.level == level,
    ensures
        groups_ok(pass_from(s, i, cur, level, min_length, max_length), gs, level),
        flat(gs) == cg + s.subrange(i, s.len() as int),
    decreases s.len() - i,
{
    let pg = pending_group(cur, cg);
    assert(groups_ok(pending(cur), pg, level));
    assert(flat(pg) == cg) by {
        if cur is Some {
            assert(pg.drop_last() =~= Seq::<Seq<ChunkView>>::empty());
            assert(flat(pg.drop_last()) =~= Seq::<ChunkView>::empty());
            assert(pg.last() == cg);
            assert(flat(pg) =~= cg);
        } else {
            assert(cg =~= Seq::<ChunkView>::empty());
        }
    }
    if i >= s.len() {
        assert(cg + s.subrange(i, s.len() as int) =~= cg);
        pg
    } else {
        let rest = s.subrange(i + 1, s.len() as int);
        assert(s.subrange(i, s.len() as int) =~= seq![s[i]] + rest);
        if cur matches Some(c) && crate::merge::absorbs(c, s[i], level, min_length, max_length) {
            let c = cur->0;
            let cg2 = cg.push(s[i]);
            let c2 = absorbed(c, s[i]);
            assert(group_ok(c2, cg2, level)) by {
                assert forall|j: int| 1 <= j < cg2.len() implies (#[trigger] cg2[j]).level > level
                    && crate::utils::is_path_prefix(cg2[0].headers, cg2[j].headers) by {
                    if j < cg.len() {
                        assert(cg2[j] == cg[j]);
                    }
                }
            }
            let gs = lemma_pass_groups(s, i + 1, Some(c2), cg2, level, min_length, max_length);
            assert(cg2 + rest =~= cg + s.subrange(i, s.len() as int));
            gs
        } else if s[i].level == level && s[i].length < max_length {
            let g2 = lemma_pass_groups(s, i + 1, Some(s[i]), seq![s[i]], level, min_length, max_length);
            lemma_groups_ok_concat(
                pending(cur),
                pg,
                pass_from(s, i + 1, Some(s[i]), level, min_length, max_length),
                g2,
                level,
            );
            lemma_flat_concat(pg, g2);
            assert(flat(pg + g2) =~= cg + s.subrange(i, s.len() as int));
            pg + g2
        } else {
            let one = seq![seq![s[i]]];
            assert(groups_ok(seq![s[i]], one, level));
            assert(flat(one) =~= seq![s[i]]) by {
                assert(one.drop_last() =~= Seq::<Seq<ChunkView>>::empty());
                assert(flat(one.drop_last()) =~= Seq::<ChunkView>::empty());
                assert(one.last() == seq![s[i]]);
            }
            let g2 = lemma_pass_groups(s, i + 1, None, Seq::empty(), level, min_length, max_length);
            lemma_groups_ok_concat(pending(cur), pg, seq![s[i]], one, level);
            lemma_groups_ok_concat(
                pending(cur) + seq![s[i]],
                pg + one,
                pass_from(s, i + 1, None, level, min_length, max_length),
                g2,
                level,
            );
            lemma_flat_concat(pg, one);
            lemma_flat_concat(pg + one, g2);
            assert(flat(pg + one + g2) =~= cg + s.subrange(i, s.len() as int));
            pg + one + g2
        }
    }
}

/// A pass of phase 3 absorbs only descendants: its result splits its input
/// into consecutive groups, one per result chunk, laid end to end in order;
/// each result chunk keeps the level, header, heading stack and breadcrumb
/// of the first chunk of its group (the parent, at the pass's level when it
/// absorbs anything); and every other chunk of a group is deeper than the
/// pass's level and lies under the parent's headings.
pub proof fn law_phase3_pass_absorbs_only_descendants(
    s: Seq<ChunkView>,
    level: u32,
    min_length: int,
    max_length: int,
)
    ensures
        exists|gs: Seq<Seq<ChunkView>>|
            flat(gs) == s && #[trigger] groups_ok(
                pass_from(s, 0, None, level, min_length, max_length),
                gs,
                level,
            ),
{
    let gs = lemma_pass_groups(s, 0, None, Seq::empty(), level, min_length, max_length);
    assert(Seq::<ChunkView>::empty() + s.subrange(0, s.len() as int) =~= s);
    assert(flat(gs) == s);
}

/// The chunk `o` was built from the group `g` of consecutive input chunks:
/// it keeps the level, header, heading stack and breadcrumb of the first
/// one (the parent), a group of one is passed on unchanged, and every other
/// chunk of the group is deeper than the parent and lies under the parent's
/// headings (the parent's heading path is a prefix of its own).
pub open spec fn descends(o: ChunkView, g: Seq<ChunkView>) -> bool {
    &&& g.len() >= 1
    &&& o.level == g[0].level
    &&& o.header == g[0].header
    &&& o.headers == g[0].headers
    &&& o.breadcrumb == g[0].breadcrumb
    &&& g.len() == 1 ==> o == g[0]
    &&& forall|j: int|
        1 <= j < g.len() ==> (#[trigger] g[j]).level > g[0].level && crate::utils::is_path_prefix(
            g[0].headers,
            g[j].headers,
        )
}

/// Each chunk of `r` was built from the matching group of `gs`.
pub open spec fn all_descend(r: Seq<ChunkView>, gs: Seq<Seq<ChunkView>>) -> bool {
    &&& r.len() == gs.len()
    &&& forall|k: int| 0 <= k < r.len() ==> descends(#[trigger] r[k], gs[k])
}

proof fn lemma_prefix_trans(
    a: Seq<Option<Seq<char>>>,
    b: Seq<Option<Seq<char>>>,
    c: Seq<Option<Seq<char>>>,
)
    requires
        crate::utils::is_path_prefix(a, b),
        crate::utils::is_path_prefix(b, c),
    ensures
        crate::utils::is_path_prefix(a, c),
{
    assert forall|i: int| 0 <= i < a.len() && #[trigger] crate::utils::leading_some(a, i) implies c[i]
        == a[i] by {
        assert forall|k: int| 0 <= k <= i implies #[trigger] b[k] is Some by {
            assert(a[k] is Some);
            assert(crate::utils::leading_some(a, k));
        }
        assert(crate::utils::leading_some(b, i));
    }
}

proof fn lemma_all_descend_concat(
    r1: Seq<ChunkView>,
    g1: Seq<Seq<ChunkView>>,
    r2: Seq<ChunkView>,
    g2: Seq<Seq<ChunkView>>,
)
    requires
        all_descend(r1, g1),
        all_descend(r2, g2),
    ensures
        all_descend(r1 + r2, g1 + g2),
{
    assert forall|k: int| 0 <= k < (r1 + r2).len() implies descends(
        #[trigger] (r1 + r2)[k],
        (g1 + g2)[k],
    ) by {
        if k < r1.len() {
            assert((r1 + r2)[k] == r1[k]);
            assert((g1 + g2)[k] == g1[k]);
        } else {
            assert((r1 + r2)[k] == r2[k - r1.len()]);
            assert((g1 + g2)[k] == g2[k - r1.len()]);
        }
    }
}

proof fn lemma_flat_cons(g: Seq<ChunkView>, gs: Seq<Seq<ChunkView>>)
    ensures
        flat(seq![g] + gs) == g + flat(gs),
{
    let one = seq![g];
    assert(one.drop_last() =~= Seq::<Seq<ChunkView>>::empty());
    assert(flat(one.drop_last()) =~= Seq::<ChunkView>::empty());
    assert(one.last() == g);
    assert(flat(one) =~= g);
    lemma_flat_concat(one, gs);
}

/// A parent that absorbs a deeper child under its headings still descends
/// from the parent's group followed by the child's.
proof fn lemma_absorbed_descends(c: ChunkView, cg: Seq<ChunkView>, x: ChunkView, xg: Seq<ChunkView>)
    requires
        descends(c, cg),
        descends(x, xg),
        x.level > c.level,
        crate::utils::is_path_prefix(c.headers, x.headers),
    ensures
        descends(absorbed(c, x), cg + xg),
{
    let g = cg + xg;
    assert(g[0] == cg[0]);
    assert forall|j: int| 1 <= j < g.len() implies (#[trigger] g[j]).level > g[0].level
        && crate::utils::is_path_prefix(g[0].headers, g[j].headers) by {
        if j < cg.len() {
            assert(g[j] == cg[j]);
        } else {
            let m = j - cg.len();
            assert(g[j] == xg[m]);
            if m > 0 {
                assert(xg[m].level > xg[0].level);
                lemma_prefix_trans(c.headers, x.headers, xg[m].headers);
            }
        }
    }
}

proof fn lemma_pass_descends(
    v: Seq<ChunkView>,
    gv: Seq<Seq<ChunkView>>,
    i: int,
    cur: Option<ChunkView>,
    cg: Seq<ChunkView>,
    level: u32,
    min_length: int,
    max_length: int,
) -> (gs: Seq<Seq<ChunkView>>)
    requires
        0 <= i <= v.len(),
        all_descend(v, gv),
        cur is None ==> cg.len() == 0,
        cur matches Some(c) ==> descends(c, cg) && c.level == level,
    ensures
        all_descend(pass_from(v, i, cur, level, min_length, max_length), gs),
        flat(gs) == cg + flat(gv.subrange(i, v.len() as int)),
    decreases v.len() - i,
{
    let pg = pending_group(cur, cg);
    assert(all_descend(pending(cur), pg));
    assert(flat(pg) == cg) by {
        if cur is Some {
            lemma_flat_cons(cg, Seq::empty());
            assert(seq![cg] + Seq::<Seq<ChunkView>>::empty() =~= pg);
            assert(cg + Seq::<ChunkView>::empty() =~= cg);
        } else {
            assert(cg =~= Seq::<ChunkView>::empty());
        }
    }
    if i >= v.len() {
        assert(gv.subrange(i, v.len() as int) =~= Seq::<Seq<ChunkView>>::empty());
        assert(cg + flat(gv.subrange(i, v.len() as int)) =~= cg);
        pg
    } else {
        let rest = gv.subrange(i + 1, v.len() as int);
        assert(gv.subrange(i, v.len() as int) =~= seq![gv[i]] + rest);
        lemma_flat_cons(gv[i], rest);
        assert(descends(v[i], gv[i]));
        if cur matches Some(c) && crate::merge::absorbs(c, v[i], level, min_length, max_length) {
            let c = cur->0;
            lemma_absorbed_descends(c, cg, v[i], gv[i]);
            let c2 = absorbed(c, v[i]);
            let gs = lemma_pass_descends(
                v,
                gv,
                i + 1,
                Some(c2),
                cg + gv[i],
                level,
                min_length,
                max_length,
            );
            assert(cg + gv[i] + flat(rest) =~= cg + (gv[i] + flat(rest)));
            gs
        } else if v[i].level == level && v[i].length < max_length {
            let g2 = lemma_pass_descends(
                v,
                gv,
                i + 1,
                Some(v[i]),
                gv[i],
                level,
                min_length,
                max_length,
            );
            lemma_all_descend_concat(
                pending(cur),
                pg,
                pass_from(v, i + 1, Some(v[i]), level, min_length, max_length),
                g2,
            );
            lemma_flat_concat(pg, g2);
            assert(cg + (gv[i] + flat(rest)) =~= cg + gv[i] + flat(rest));
            pg + g2
        } else {
            let one = seq![gv[i]];
            assert(all_descend(seq![v[i]], one));
            lemma_flat_cons(gv[i], Seq::empty());
            assert(one + Seq::<Seq<ChunkView>>::empty() =~= one);
            assert(gv[i] + Seq::<ChunkView>::empty() =~= gv[i]);
            let g2 = lemma_pass_descends(v, gv, i + 1, None, Seq::empty(), level, min_length, max_length);
            lemma_all_descend_concat(pending(cur), pg, seq![v[i]], one);
            lemma_all_descend_concat(
                pending(cur) + seq![v[i]],
                pg + one,
                pass_from(v, i + 1, None, level, min_length, max_length),
                g2,
            );
            lemma_flat_concat(pg, one);
            lemma_flat_concat(pg + one, g2);
            assert(Seq::<ChunkView>::empty() + flat(rest) =~= flat(rest));
            assert(cg + gv[i] + flat(rest) =~= cg + (gv[i] + flat(rest)));
            pg + one + g2
        }
    }
}

/// The groups of one chunk each.
pub open spec fn singletons(s: Seq<ChunkView>) -> Seq<Seq<ChunkView>> {
    Seq::new(s.len(), |k: int| seq![s[k]])
}

proof fn lemma_singletons(s: Seq<ChunkView>)
    ensures
        all_descend(s, singletons(s)),
        flat(singletons(s)) == s,
    decreases s.len(),
{
    let g = singletons(s);
    assert forall|k: int| 0 <= k < s.len() implies descends(#[trigger] s[k], g[k]) by {
        assert(g[k] == seq![s[k]]);
    }
    if s.len() > 0 {
        lemma_singletons(s.drop_last());
        assert(g.drop_last() =~= singletons(s.drop_last()));
        assert(g.last() == seq![s.last()]);
        assert(flat(g) =~= s);
    } else {
        assert(flat(g) =~= s);
    }
}

proof fn lemma_passes_descend(
    s: Seq<ChunkView>,
    v: Seq<ChunkView>,
    gv: Seq<Seq<ChunkView>>,
    level: nat,
    min_length: int,
    max_length: int,
) -> (gs: Seq<Seq<ChunkView>>)
    requires
        all_descend(v, gv),
        flat(gv) == s,
    ensures
        all_descend(passes(v, level, min_length, max_length), gs),
        flat(gs) == s,
    decreases level,
{
    if level == 0 {
        gv
    } else {
        let g1 = lemma_pass_descends(v, gv, 0, None, Seq::empty(), level as u32, min_length, max_length);
        assert(gv.subrange(0, v.len() as int) =~= gv);
        assert(Seq::<ChunkView>::empty() + flat(gv) =~= flat(gv));
        lemma_passes_descend(
            s,
            pass_from(v, 0, None, level as u32, min_length, max_length),
            g1,
            (level - 1) as nat,
            min_length,
            max_length,
        )
    }
}

/// Phase 3 absorbs only descendants: its result splits its input into
/// consecutive groups, one per result chunk, laid end to end in order (no
/// chunk lost, duplicated or moved); each result chunk keeps the level,
/// header, heading stack and breadcrumb of the first chunk of its group,
/// and every other chunk of the group is deeper than that one and lies
/// under its headings. A section is never absorbed into an unrelated one.
pub proof fn law_phase3_absorbs_only_descendants(s: Seq<ChunkView>, min_length: int, max_length: int)
    ensures
        exists|gs: Seq<Seq<ChunkView>>|
            flat(gs) == s && #[trigger] all_descend(phase3_spec(s, min_length, max_length), gs),
{
    lemma_singletons(s);
    let gs = lemma_passes_descend(s, s, singletons(s), 6, min_length, max_length);
    assert(flat(gs) == s && all_descend(phase3_spec(s, min_length, max_length), gs));
}

/// Phase 3 runs one pass per heading level, from h6 up to h1.
pub proof fn law_phase3_runs_levels_six_to_one(s: Seq<ChunkView>, min_length: int, max_length: int)
    ensures
        phase3_spec(s, min_length, max_length) == pass_from(
            pass_from(
                pass_from(
                    pass_from(
                        pass_from(
                            pass_from(s, 0, None, 6, min_length, max_length),
                            0,
                            None,
                            5,
                            min_length,
                            max_length,
                        ),
                        0,
                        None,
                        4,
                        min_length,
                        max_length,
                    ),
                    0,
                    None,
                    3,
                    min_length,
                    max_length,
                ),
                0,
                None,
                2,
                min_length,
                max_length,
            ),
            0,
            None,
            1,
            min_length,
            max_length,
        ),
{
    reveal_with_fuel(passes, 7);
}

/// Paragraphs are trimmed: the text of every phase-1 chunk neither starts
/// nor ends with whitespace.
pub proof fn law_paragraph_text_trimmed(text: Seq<char>, title: Option<Seq<char>>)
    requires
        text.len() <= usize::MAX,
    ensures
        forall|k: int|
            0 <= k < split_spec(text, title).len() ==> trimmed(
                (#[trigger] split_spec(text, title)[k]).text,
            ),
{
    lemma_split_wf(text, title);
    let v = split_spec(text, title);
    assert forall|k: int| 0 <= k < v.len() implies trimmed((#[trigger] v[k]).text) by {
        assert(split_chunk_ok(v[k], text));
    }
}

} // verus!
