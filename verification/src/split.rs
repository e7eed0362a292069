//! Phase 1: one chunk per paragraph, grouped under its nearest heading.
use vstd::prelude::*;

use crate::scan::{
    find_headers, hash_count, header_at, lemma_header_spans, lemma_line_match_some, line_match,
    tok_is_nl, hash_run, header_spans, is_nl, lemma_header_at, lemma_masked_wf, lemma_rtrim,
    lemma_ws_end, mask_code_spans, masked, paragraph_pieces, pieces, push_toks, restore_toks,
    rtrim, spans, tok_at, toks_wf, trim_end, skip_ws, ws_end, Tok,
};
use crate::types::{chunk_views, Chunk, ChunkView};
use crate::utils::{embed_len, set_length};

verus! {

broadcast use vstd::string::group_string_axioms;

/// The headings present in a heading stack, top level first.
pub open spec fn present(hs: Seq<Option<Seq<char>>>) -> Seq<Seq<char>>
    decreases hs.len(),
{
    if hs.len() == 0 {
        Seq::empty()
    } else {
        match hs.last() {
            Some(h) => present(hs.drop_last()).push(h),
            None => present(hs.drop_last()),
        }
    }
}

/// The separator between breadcrumb levels, `" > "`.
pub open spec fn crumb_sep() -> Seq<char> {
    seq![' ', '>', ' ']
}

/// The items of `l` joined by `" > "`.
pub open spec fn join_crumbs(l: Seq<Seq<char>>) -> Seq<char>
    decreases l.len(),
{
    if l.len() == 0 {
        Seq::empty()
    } else if l.len() == 1 {
        l[0]
    } else {
        join_crumbs(l.drop_last()) + crumb_sep() + l.last()
    }
}

/// The breadcrumb of a heading stack: its headings joined by `" > "`.
pub open spec fn breadcrumb_of(hs: Seq<Option<Seq<char>>>) -> Seq<char> {
    join_crumbs(present(hs))
}

/// The chunk of one paragraph.
pub open spec fn paragraph_view(
    level: u32,
    header: Option<Seq<char>>,
    stack: Seq<Option<Seq<char>>>,
    text: Seq<char>,
) -> ChunkView {
    ChunkView {
        level,
        header,
        headers: stack,
        breadcrumb: breadcrumb_of(stack),
        text,
        length: embed_len(breadcrumb_of(stack), text),
    }
}

/// The chunk of the piece `t[a..b]`, trimmed: none when the piece is blank.
pub open spec fn piece_chunk(
    s: Seq<char>,
    t: Seq<Tok>,
    a: int,
    b: int,
    level: u32,
    header: Option<Seq<char>>,
    stack: Seq<Option<Seq<char>>>,
) -> Seq<ChunkView> {
    let lo = ws_end(s, t, a, b);
    if lo >= b {
        Seq::empty()
    } else {
        seq![paragraph_view(level, header, stack, restore_toks(t, lo, rtrim(s, t, lo, b), s))]
    }
}

/// The chunks of the pieces `ps`, in order.
pub open spec fn piece_chunks(
    s: Seq<char>,
    t: Seq<Tok>,
    ps: Seq<(int, int)>,
    level: u32,
    header: Option<Seq<char>>,
    stack: Seq<Option<Seq<char>>>,
) -> Seq<ChunkView>
    decreases ps.len(),
{
    if ps.len() == 0 {
        Seq::empty()
    } else {
        piece_chunks(s, t, ps.drop_last(), level, header, stack) + piece_chunk(
            s,
            t,
            ps.last().0,
            ps.last().1,
            level,
            header,
            stack,
        )
    }
}

/// The chunks of the paragraphs of `t[lo..hi]`.
pub open spec fn section_paragraphs(
    s: Seq<char>,
    t: Seq<Tok>,
    lo: int,
    hi: int,
    level: u32,
    header: Option<Seq<char>>,
    stack: Seq<Option<Seq<char>>>,
) -> Seq<ChunkView> {
    piece_chunks(s, t, pieces(s, t, hi, lo, lo), level, header, stack)
}

/// Where the heading line of the match starting at `a` starts: after the
/// newline that the match begins with, if any.
pub open spec fn line_start(s: Seq<char>, t: Seq<Tok>, a: int) -> int {
    if is_nl(s, t[a]) {
        a + 1
    } else {
        a
    }
}

/// The heading level of the match `(a, e)`: its number of `#`.
pub open spec fn heading_level(s: Seq<char>, t: Seq<Tok>, a: int) -> nat {
    hash_run(s, t, line_start(s, t, a))
}

/// The heading text of the match `(a, e)`: what follows the `#` run,
/// trimmed, with code spans restored.
pub open spec fn heading_text(s: Seq<char>, t: Seq<Tok>, a: int, e: int) -> Seq<char> {
    let lo = ws_end(s, t, line_start(s, t, a) + heading_level(s, t, a), e);
    restore_toks(t, lo, rtrim(s, t, lo, e), s)
}

/// The heading stack after a heading of level `level` with text `h`: the
/// slots above it kept, its own slot set, the slots below it cleared.
pub open spec fn set_slot(stack: Seq<Option<Seq<char>>>, level: int, h: Seq<char>) -> Seq<
    Option<Seq<char>>,
> {
    Seq::new(
        6,
        |j: int|
            if j < level - 1 {
                stack[j]
            } else if j == level - 1 {
                Some(h)
            } else {
                None
            },
    )
}

/// The heading stack before the first heading: the title, if any, as H1.
pub open spec fn initial_stack(title: Option<Seq<char>>) -> Seq<Option<Seq<char>>> {
    seq![title, None, None, None, None, None]
}

/// The chunks of the sections that start at the heading matches `hs[i..]`,
/// the heading stack being `stack` before `hs[i]`.
pub open spec fn sections(
    s: Seq<char>,
    t: Seq<Tok>,
    hs: Seq<(int, int)>,
    i: int,
    stack: Seq<Option<Seq<char>>>,
) -> Seq<ChunkView>
    decreases hs.len() - i,
{
    if i < 0 || i >= hs.len() {
        Seq::empty()
    } else {
        let (a, e) = hs[i];
        let level = heading_level(s, t, a);
        let h = heading_text(s, t, a, e);
        let st = set_slot(stack, level as int, h);
        let end = if i + 1 < hs.len() {
            hs[i + 1].0
        } else {
            t.len() as int
        };
        section_paragraphs(s, t, e, end, level as u32, Some(h), st) + sections(s, t, hs, i + 1, st)
    }
}

/// Phase 1 on the text `s` with the fallback title `title`.
pub open spec fn split_spec(s: Seq<char>, title: Option<Seq<char>>) -> Seq<ChunkView> {
    let t = masked(s, 0);
    let hs = header_spans(s, t, 0);
    let st = initial_stack(title);
    if hs.len() == 0 {
        section_paragraphs(s, t, 0, t.len() as int, 0, title, st)
    } else {
        section_paragraphs(s, t, 0, hs[0].0, 0, title, st) + sections(s, t, hs, 0, st)
    }
}

fn clone_heading(h: &Option<String>) -> (r: Option<String>)
    ensures
        r.deep_view() == h.deep_view(),
{
    match h {
        Some(x) => Some(x.clone()),
        None => None,
    }
}

fn clone_stack(hs: &Vec<Option<String>>) -> (r: Vec<Option<String>>)
    ensures
        r.deep_view() == hs.deep_view(),
{
    let mut r: Vec<Option<String>> = Vec::new();
    let mut i: usize = 0;
    while i < hs.len()
        invariant
            i <= hs@.len(),
            r@.len() == i,
            forall|j: int| 0 <= j < i ==> (#[trigger] r@[j]).deep_view() == hs@[j].deep_view(),
        decreases hs@.len() - i,
    {
        let h = clone_heading(&hs[i]);
        r.push(h);
        i += 1;
    }
    assert(r.deep_view() =~= hs.deep_view());
    r
}

fn build_breadcrumb(headers: &Vec<Option<String>>) -> (r: String)
    ensures
        r@ == breadcrumb_of(headers.deep_view()),
{
    let ghost dv = headers.deep_view();
    let mut r = String::new();
    let mut first = true;
    let mut i: usize = 0;
    let sep = " > ";
    proof {
        reveal_strlit(" > ");
        assert(sep@ =~= crumb_sep());
        assert(dv.take(0) =~= Seq::<Option<Seq<char>>>::empty());
    }
    while i < headers.len()
        invariant
            dv == headers.deep_view(),
            sep@ == crumb_sep(),
            i <= headers@.len(),
            r@ == join_crumbs(present(dv.take(i as int))),
            first == (present(dv.take(i as int)).len() == 0),
        decreases headers@.len() - i,
    {
        let ghost before = dv.take(i as int);
        assert(dv.take(i + 1).drop_last() =~= before);
        assert(dv.take(i + 1).last() == dv[i as int]);
        assert(dv[i as int] == headers@[i as int].deep_view());
        let ghost l = present(before);
        match &headers[i] {
            Some(h) => {
                let ghost l2 = present(dv.take(i + 1));
                assert(l2 =~= l.push(h@));
                assert(l2.drop_last() =~= l);
                if !first {
                    r.append(sep);
                }
                r.append(h.as_str());
                first = false;
                assert(r@ =~= join_crumbs(l2));
            },
            None => {
                assert(present(dv.take(i + 1)) =~= l);
            },
        }
        i += 1;
    }
    assert(dv.take(i as int) =~= dv);
    r
}

/// Appends the chunks of the paragraphs of `t[lo..hi]` to `chunks`.
fn split_paragraphs(
    v: &Vec<char>,
    t: &Vec<Tok>,
    lo: usize,
    hi: usize,
    level: u32,
    header: &Option<String>,
    headers: &Vec<Option<String>>,
    chunks: &mut Vec<Chunk>,
)
    requires
        lo <= hi <= t@.len() <= isize::MAX,
        toks_wf(t@, v@.len()),
    ensures
        chunk_views(final(chunks)@) == chunk_views(old(chunks)@) + section_paragraphs(
            v@,
            t@,
            lo as int,
            hi as int,
            level,
            header.deep_view(),
            headers.deep_view(),
        ),
{
    let ps = paragraph_pieces(v, t, lo, hi);
    let ghost sp = spans(ps@);
    let breadcrumb = build_breadcrumb(headers);
    let ghost hv = header.deep_view();
    let ghost st = headers.deep_view();
    let mut i: usize = 0;
    proof {
        assert(sp.take(0) =~= Seq::<(int, int)>::empty());
        assert(chunk_views(old(chunks)@) + piece_chunks(v@, t@, sp.take(0), level, hv, st)
            =~= chunk_views(old(chunks)@));
    }
    while i < ps.len()
        invariant
            lo <= hi <= t@.len() <= isize::MAX,
            toks_wf(t@, v@.len()),
            sp == spans(ps@),
            sp == pieces(v@, t@, hi as int, lo as int, lo as int),
            forall|j: int| 0 <= j < ps@.len() ==> lo <= (#[trigger] ps@[j]).0 <= ps@[j].1 <= hi,
            breadcrumb@ == crate::split::breadcrumb_of(st),
            hv == header.deep_view(),
            st == headers.deep_view(),
            i <= ps@.len(),
            chunk_views(chunks@) == chunk_views(old(chunks)@) + piece_chunks(
                v@,
                t@,
                sp.take(i as int),
                level,
                hv,
                st,
            ),
        decreases ps@.len() - i,
    {
        let (a, b) = ps[i];
        assert(sp.take(i + 1).drop_last() =~= sp.take(i as int));
        assert(sp.take(i + 1).last() == (a as int, b as int));
        let ghost before = chunk_views(chunks@);
        proof {
            lemma_ws_end(v@, t@, a as int, b as int);
        }
        let start = skip_ws(v, t, a, b);
        if start < b {
            let end = trim_end(v, t, start, b);
            proof {
                lemma_rtrim(v@, t@, start as int, b as int);
            }
            let mut text = String::new();
            push_toks(&mut text, t, v, start, end);
            assert(text@ =~= restore_toks(t@, start as int, end as int, v@));
            let mut chunk = Chunk {
                level,
                header: clone_heading(header),
                headers: clone_stack(headers),
                breadcrumb: breadcrumb.clone(),
                text,
                length: 0,
            };
            set_length(&mut chunk);
            let ghost cv = chunk@;
            chunks.push(chunk);
            let ghost after = chunk_views(chunks@);
            assert(after =~= before.push(cv));
        }
        i += 1;
    }
    assert(sp.take(i as int) =~= sp);
}

/// The title as a heading: `None`, or the title's characters.
pub open spec fn title_view(title: Option<&str>) -> Option<Seq<char>> {
    match title {
        Some(x) => Some(x@),
        None => None,
    }
}

/// Phase 1: Split markdown into one chunk per paragraph, grouped under its nearest header.
pub fn split_by_headers(text: &str, title: Option<&str>) -> (chunks: Vec<Chunk>)
    ensures
        chunk_views(chunks@) == split_spec(text@, title_view(title)),
{
    let v = crate::chars::chars_of(text);
    let t = mask_code_spans(&v);
    proof {
        lemma_masked_wf(v@, 0);
    }
    let h = find_headers(&v, &t);
    let ghost s = v@;
    let ghost hs = header_spans(s, t@, 0);
    proof {
        lemma_header_spans(s, t@, 0);
    }
    let title_owned: Option<String> = match title {
        Some(x) => Some(x.to_owned()),
        None => None,
    };
    let mut headers: Vec<Option<String>> = Vec::new();
    headers.push(clone_heading(&title_owned));
    headers.push(None);
    headers.push(None);
    headers.push(None);
    headers.push(None);
    headers.push(None);
    assert(headers.deep_view() =~= initial_stack(title_view(title)));
    assert(title_owned.deep_view() == title_view(title));
    let mut chunks: Vec<Chunk> = Vec::new();
    assert(chunk_views(chunks@) =~= Seq::<ChunkView>::empty());
    if h.len() == 0 {
        split_paragraphs(&v, &t, 0, t.len(), 0, &title_owned, &headers, &mut chunks);
        assert(chunk_views(chunks@) =~= split_spec(text@, title_view(title)));
        return chunks;
    }
    assert(hs[0] == (h@[0].0 as int, h@[0].1 as int));
    split_paragraphs(&v, &t, 0, h[0].0, 0, &title_owned, &headers, &mut chunks);
    let ghost total = split_spec(text@, title_view(title));
    assert(chunk_views(chunks@) + sections(s, t@, hs, 0, headers.deep_view()) =~= total);
    let mut i: usize = 0;
    while i < h.len()
        invariant
            s == v@,
            v@ == text@,
            t@ == masked(s, 0),
            t@.len() <= isize::MAX,
            toks_wf(t@, v@.len()),
            hs == header_spans(s, t@, 0),
            spans(h@) == hs,
            forall|k: int|
                0 <= k < hs.len() ==> 0 <= (#[trigger] hs[k]).0 < hs[k].1 <= t@.len() && header_at(
                    s,
                    t@,
                    hs[k].0,
                ) == Some(hs[k].1),
            forall|k: int| 0 <= k < hs.len() - 1 ==> (#[trigger] hs[k]).1 <= hs[k + 1].0,
            i <= h@.len(),
            headers@.len() == 6,
            chunk_views(chunks@) + sections(s, t@, hs, i as int, headers.deep_view()) == total,
        decreases h@.len() - i,
    {
        let (a, e) = h[i];
        assert(hs[i as int] == (a as int, e as int));
        let q = if tok_is_nl(&v, tok_at(&t, a)) {
            a + 1
        } else {
            a
        };
        proof {
            assert(q == line_start(s, t@, a as int));
            assert(line_match(s, t@, q as int) == Some(e as int));
            lemma_line_match_some(s, t@, q as int);
        }
        let level = hash_count(&v, &t, q);
        assert(level == heading_level(s, t@, a as int));
        proof {
            crate::scan::lemma_ws_end(s, t@, (q + level) as int, e as int);
        }
        let lo = skip_ws(&v, &t, q + level, e);
        let hi = trim_end(&v, &t, lo, e);
        proof {
            lemma_rtrim(s, t@, lo as int, e as int);
        }
        let mut content = String::new();
        push_toks(&mut content, &t, &v, lo, hi);
        assert(content@ =~= heading_text(s, t@, a as int, e as int));
        let ghost old_stack = headers.deep_view();
        let ghost old_vec = headers@;
        headers.set(level - 1, Some(content.clone()));
        let mut j = level;
        while j < 6
            invariant
                1 <= level <= j <= 6,
                headers@.len() == 6,
                old_vec.len() == 6,
                forall|k: int| 0 <= k < level - 1 ==> #[trigger] headers@[k] == old_vec[k],
                headers@[level - 1] matches Some(x) && x@ == content@,
                forall|k: int| level <= k < j ==> #[trigger] headers@[k] is None,
            decreases 6 - j,
        {
            headers.set(j, None);
            j += 1;
        }
        let ghost new_stack = headers.deep_view();
        assert forall|k: int| 0 <= k < 6 implies #[trigger] new_stack[k] == set_slot(
            old_stack,
            level as int,
            content@,
        )[k] by {
            assert(new_stack[k] == headers@[k].deep_view());
            assert(old_stack[k] == old_vec[k].deep_view());
        }
        assert(new_stack =~= set_slot(old_stack, level as int, content@));
        let end = if i + 1 < h.len() {
            assert(hs[i + 1] == (h@[i + 1].0 as int, h@[i + 1].1 as int));
            h[i + 1].0
        } else {
            t.len()
        };
        let ghost before = chunk_views(chunks@);
        let heading = Some(content);
        split_paragraphs(&v, &t, e, end, level as u32, &heading, &headers, &mut chunks);
        assert(chunk_views(chunks@) + sections(s, t@, hs, i + 1, new_stack) =~= before
            + sections(s, t@, hs, i as int, old_stack));
        i += 1;
    }
    let ghost z = chunk_views(chunks@);
    assert(z + sections(s, t@, hs, i as int, headers.deep_view()) =~= z);
    chunks
}

} // verus!
