//! Phase 2 (merging paragraphs under one breadcrumb) and phase 3 (absorbing
//! child sections into their parents).
use vstd::prelude::*;

use crate::types::{chunk_views, Chunk, ChunkView};
use crate::tokens::{collapsed, default_length_counter};
use crate::utils::{
    blank_line, derive_t, embed_len, header_is_superset_of, is_path_prefix, set_length,
    spec_update_after_absorb, spec_update_after_merge,
};

verus! {

broadcast use vstd::string::group_string_axioms;

/// Not both lengths reach `min_length`: at least one of the two chunks is
/// short.
pub open spec fn below_min(a: int, b: int, min_length: int) -> bool {
    !(a >= min_length && b >= min_length)
}

/// The length of `prev` after `next` is merged into it, computed from the
/// two chunks' lengths and the collapsed lengths of their breadcrumbs. When
/// both lengths were set by `set_length` this is the length `set_length`
/// gives the merged chunk.
pub open spec fn merge_len(prev: ChunkView, next: ChunkView) -> int {
    spec_update_after_merge(
        prev.length as int,
        collapsed(prev.breadcrumb).len() as int,
        next.length as int,
        collapsed(next.breadcrumb).len() as int,
    )
}

/// Phase 2 merges `next` into `prev`: the same breadcrumb, at least one of
/// them short, and the merged chunk within `max_length`.
pub open spec fn joins(prev: ChunkView, next: ChunkView, min_length: int, max_length: int) -> bool {
    &&& prev.breadcrumb == next.breadcrumb
    &&& below_min(prev.length as int, next.length as int, min_length)
    &&& merge_len(prev, next) <= max_length
}

/// Whether `spec_update_after_merge(..) <= max_length`, computed without
/// overflow.
fn merge_within(cur_len: usize, cur_b: usize, len: usize, b: usize, max_length: usize) -> (r: bool)
    ensures
        r == (spec_update_after_merge(cur_len as int, cur_b as int, len as int, b as int)
            <= max_length),
{
    let tc = derive_t(cur_len, cur_b) as u128;
    let tk = derive_t(len, b) as u128;
    let t_new: u128 = if tc == 0 {
        tk
    } else if tk == 0 {
        tc
    } else {
        tc + 1 + tk
    };
    let bb = cur_b as u128;
    let n: u128 = if bb == 0 || t_new == 0 {
        bb + t_new
    } else {
        bb + 1 + t_new
    };
    n <= max_length as u128
}

/// Whether `spec_update_after_absorb(..) <= max_length`, computed without
/// overflow.
fn absorb_within(
    cur_len: usize,
    cur_b: usize,
    child_len: usize,
    child_b: usize,
    header_len: usize,
    max_length: usize,
) -> (r: bool)
    ensures
        r == (spec_update_after_absorb(
            cur_len as int,
            cur_b as int,
            child_len as int,
            child_b as int,
            header_len as int,
        ) <= max_length),
{
    let tc = derive_t(cur_len, cur_b) as u128;
    let tk = derive_t(child_len, child_b) as u128;
    let h = header_len as u128;
    let t_appended: u128 = if h == 0 {
        tk
    } else if tk == 0 {
        h
    } else {
        h + 1 + tk
    };
    let t_new: u128 = if tc == 0 {
        t_appended
    } else if t_appended == 0 {
        tc
    } else {
        tc + 1 + t_appended
    };
    let bb = cur_b as u128;
    let n: u128 = if bb == 0 || t_new == 0 {
        bb + t_new
    } else {
        bb + 1 + t_new
    };
    n <= max_length as u128
}

/// `prev` with the text of `next` appended after a blank line.
pub open spec fn merged_pair(prev: ChunkView, next: ChunkView) -> ChunkView {
    let text = prev.text + blank_line() + next.text;
    ChunkView { text, length: embed_len(prev.breadcrumb, text), ..prev }
}

/// The view of an optional chunk.
pub open spec fn opt_view(o: Option<Chunk>) -> Option<ChunkView> {
    match o {
        Some(c) => Some(c@),
        None => None,
    }
}

/// The chunk that is being built, if any, as a sequence of at most one.
pub open spec fn pending(cur: Option<ChunkView>) -> Seq<ChunkView> {
    match cur {
        Some(c) => seq![c],
        None => Seq::empty(),
    }
}

/// Phase 2 on `s[i..]`, `cur` being the chunk built from what came before.
pub open spec fn phase2_from(
    s: Seq<ChunkView>,
    i: int,
    cur: Option<ChunkView>,
    min_length: int,
    max_length: int,
) -> Seq<ChunkView>
    decreases s.len() - i,
{
    if i < 0 || i >= s.len() {
        pending(cur)
    } else {
        match cur {
            None => phase2_from(s, i + 1, Some(s[i]), min_length, max_length),
            Some(c) => if joins(c, s[i], min_length, max_length) {
                phase2_from(s, i + 1, Some(merged_pair(c, s[i])), min_length, max_length)
            } else {
                seq![c] + phase2_from(s, i + 1, Some(s[i]), min_length, max_length)
            },
        }
    }
}

/// Phase 2: consecutive chunks with the same breadcrumb merge, left to right,
/// while the chunk built so far `joins` the next one.
pub open spec fn phase2_spec(s: Seq<ChunkView>, min_length: int, max_length: int) -> Seq<
    ChunkView,
> {
    phase2_from(s, 0, None, min_length, max_length)
}

/// `v` in reverse order.
fn reversed(v: Vec<Chunk>) -> (r: Vec<Chunk>)
    ensures
        r@.len() == v@.len(),
        forall|k: int| 0 <= k < v@.len() ==> #[trigger] r@[k] == v@[v@.len() - 1 - k],
{
    let mut v = v;
    let ghost orig = v@;
    let mut r: Vec<Chunk> = Vec::new();
    while v.len() > 0
        invariant
            v@.len() + r@.len() == orig.len(),
            forall|k: int| 0 <= k < v@.len() ==> #[trigger] v@[k] == orig[k],
            forall|k: int| 0 <= k < r@.len() ==> #[trigger] r@[k] == orig[orig.len() - 1 - k],
        decreases v@.len(),
    {
        let x = v.pop().unwrap();
        r.push(x);
    }
    r
}

proof fn lemma_chunk_views_push(s: Seq<Chunk>, c: Chunk)
    ensures
        chunk_views(s.push(c)) == chunk_views(s).push(c@),
{
    assert(chunk_views(s.push(c)) =~= chunk_views(s).push(c@));
}

/// Phase 2: Linear pass merging consecutive chunks that share the same breadcrumb.
///
/// A chunk merges into the one built before it when at least one of the two
/// is shorter than `min_length` and the merged chunk stays within
/// `max_length`.
pub fn merge_phase2(chunks: Vec<Chunk>, min_length: usize, max_length: usize) -> (r: Vec<Chunk>)
    ensures
        chunk_views(r@) == phase2_spec(chunk_views(chunks@), min_length as int, max_length as int),
{
    let ghost s = chunk_views(chunks@);
    let n = chunks.len();
    let mut rest = reversed(chunks);
    let mut result: Vec<Chunk> = Vec::new();
    let mut current: Option<Chunk> = None;
    let sep = "\n\n";
    proof {
        reveal_strlit("\n\n");
        assert(sep@ =~= blank_line());
        assert(chunk_views(result@) =~= Seq::<ChunkView>::empty());
    }
    while rest.len() > 0
        invariant
            sep@ == blank_line(),
            s.len() == n,
            rest@.len() <= n,
            forall|k: int|
                0 <= k < rest@.len() ==> (#[trigger] rest@[k])@ == s[n - 1 - k],
            chunk_views(result@) + phase2_from(
                s,
                n - rest@.len(),
                opt_view(current),
                min_length as int,
                max_length as int,
            ) == phase2_spec(s, min_length as int, max_length as int),
            (n - rest@.len() > 0) == (current is Some),
        decreases rest@.len(),
    {
        let ghost i = n - rest@.len();
        let chunk = rest.pop().unwrap();
        assert(chunk@ == s[i]);
        let ghost before = chunk_views(result@);
        match current {
            None => {
                current = Some(chunk);
            },
            Some(mut prev) => {
                let mut merge = false;
                if prev.breadcrumb.eq(&chunk.breadcrumb) && !(prev.length >= min_length
                    && chunk.length >= min_length) {
                    let b = default_length_counter(prev.breadcrumb.as_str());
                    merge = merge_within(prev.length, b, chunk.length, b, max_length);
                }
                if merge {
                    let ghost pv = prev@;
                    prev.text.append(sep);
                    prev.text.append(chunk.text.as_str());
                    assert(prev.text@ =~= pv.text + blank_line() + s[i].text);
                    set_length(&mut prev);
                    assert(prev@ =~= merged_pair(pv, s[i]));
                    current = Some(prev);
                } else {
                    let ghost pv = prev@;
                    let ghost rv = result@;
                    result.push(prev);
                    proof {
                        lemma_chunk_views_push(rv, result@.last());
                    }
                    current = Some(chunk);
                }
            },
        }
    }
    let ghost rv = result@;
    match current {
        Some(c) => {
            let ghost cv = c@;
            result.push(c);
            proof {
                lemma_chunk_views_push(rv, result@.last());
            }
            assert(chunk_views(result@) =~= chunk_views(rv) + pending(Some(cv)));
        },
        None => {
            assert(chunk_views(result@) =~= chunk_views(rv) + pending(None));
        },
    }
    result
}

/// `n` hash signs.
pub open spec fn hashes(n: int) -> Seq<char> {
    Seq::new(n as nat, |_i: int| '#')
}

/// The heading text of a chunk, or nothing.
pub open spec fn header_or_empty(h: Option<Seq<char>>) -> Seq<char> {
    match h {
        Some(x) => x,
        None => Seq::empty(),
    }
}

/// The heading line that stands for `child` inside its parent:
/// `min(level, 6)` hash signs, a space, and the child's heading.
pub open spec fn child_heading_line(child: ChunkView) -> Seq<char> {
    hashes(if child.level < 6 {
        child.level as int
    } else {
        6
    }) + seq![' '] + header_or_empty(child.header)
}

/// `parent` after absorbing `child`: the child's heading line and text are
/// appended, each after a blank line.
pub open spec fn absorbed(parent: ChunkView, child: ChunkView) -> ChunkView {
    let text = parent.text + blank_line() + child_heading_line(child) + blank_line() + child.text;
    ChunkView { text, length: embed_len(parent.breadcrumb, text), ..parent }
}

/// `next` is a child of `parent` for the pass at `level`: deeper than
/// `level`, under `parent`'s heading path.
pub open spec fn is_child(parent: ChunkView, next: ChunkView, level: u32) -> bool {
    next.level > level && is_path_prefix(parent.headers, next.headers)
}

/// The length of `parent` after it absorbs `child`, computed from the two
/// chunks' lengths, the collapsed lengths of their breadcrumbs and that of the
/// child's heading line. When both lengths were set by `set_length` this is
/// the length `set_length` gives the parent after the absorption.
pub open spec fn absorb_len(parent: ChunkView, child: ChunkView) -> int {
    spec_update_after_absorb(
        parent.length as int,
        collapsed(parent.breadcrumb).len() as int,
        child.length as int,
        collapsed(child.breadcrumb).len() as int,
        collapsed(child_heading_line(child)).len() as int,
    )
}

/// Phase 3 at `level` absorbs `next` into `parent`: a child, at least one of
/// them short, and the result within `max_length`.
pub open spec fn absorbs(
    parent: ChunkView,
    next: ChunkView,
    level: u32,
    min_length: int,
    max_length: int,
) -> bool {
    &&& is_child(parent, next, level)
    &&& below_min(parent.length as int, next.length as int, min_length)
    &&& absorb_len(parent, next) <= max_length
}

/// One pass of phase 3 at `level` over `s[i..]`, `cur` being a chunk of
/// that level, shorter than `max_length` when taken, that is absorbing the
/// children that follow it.
pub open spec fn pass_from(
    s: Seq<ChunkView>,
    i: int,
    cur: Option<ChunkView>,
    level: u32,
    min_length: int,
    max_length: int,
) -> Seq<ChunkView>
    decreases s.len() - i,
{
    if i < 0 || i >= s.len() {
        pending(cur)
    } else if cur matches Some(c) && absorbs(c, s[i], level, min_length, max_length) {
        pass_from(s, i + 1, Some(absorbed(cur->0, s[i])), level, min_length, max_length)
    } else if s[i].level == level && s[i].length < max_length {
        pending(cur) + pass_from(s, i + 1, Some(s[i]), level, min_length, max_length)
    } else {
        pending(cur) + seq![s[i]] + pass_from(s, i + 1, None, level, min_length, max_length)
    }
}

/// The passes of phase 3 at `level`, `level - 1`, ..., 1.
pub open spec fn passes(s: Seq<ChunkView>, level: nat, min_length: int, max_length: int) -> Seq<
    ChunkView,
>
    decreases level,
{
    if level == 0 {
        s
    } else {
        passes(
            pass_from(s, 0, None, level as u32, min_length, max_length),
            (level - 1) as nat,
            min_length,
            max_length,
        )
    }
}

/// Phase 3: passes at heading levels 6 down to 1.
pub open spec fn phase3_spec(s: Seq<ChunkView>, min_length: int, max_length: int) -> Seq<
    ChunkView,
> {
    passes(s, 6, min_length, max_length)
}

/// The hash signs of a heading of `level`, at most six.
fn hash_prefix(level: u32) -> (r: &'static str)
    ensures
        r@ == hashes(if level < 6 {
            level as int
        } else {
            6
        }),
{
    proof {
        reveal_strlit("");
        reveal_strlit("#");
        reveal_strlit("##");
        reveal_strlit("###");
        reveal_strlit("####");
        reveal_strlit("#####");
        reveal_strlit("######");
    }
    let r = if level == 0 {
        ""
    } else if level == 1 {
        "#"
    } else if level == 2 {
        "##"
    } else if level == 3 {
        "###"
    } else if level == 4 {
        "####"
    } else if level == 5 {
        "#####"
    } else {
        "######"
    };
    assert(r@ =~= hashes(if level < 6 {
        level as int
    } else {
        6
    }));
    r
}

/// The collapsed length of the heading line that stands for `child`.
fn heading_line_len(child: &Chunk) -> (n: usize)
    ensures
        n == collapsed(child_heading_line(child@)).len(),
{
    let space = " ";
    proof {
        reveal_strlit(" ");
    }
    let mut line = String::new();
    line.append(hash_prefix(child.level));
    line.append(space);
    match &child.header {
        Some(h) => line.append(h.as_str()),
        None => {},
    }
    assert(line@ =~= child_heading_line(child@));
    default_length_counter(line.as_str())
}

/// Appends `child` to `parent` as a sub-section.
fn absorb(parent: &mut Chunk, child: &Chunk)
    ensures
        final(parent)@ == absorbed(old(parent)@, child@),
{
    let sep = "\n\n";
    let space = " ";
    proof {
        reveal_strlit("\n\n");
        reveal_strlit(" ");
    }
    parent.text.append(sep);
    parent.text.append(hash_prefix(child.level));
    parent.text.append(space);
    match &child.header {
        Some(h) => parent.text.append(h.as_str()),
        None => {},
    }
    parent.text.append(sep);
    parent.text.append(child.text.as_str());
    let ghost pv = old(parent)@;
    assert(parent.text@ =~= pv.text + blank_line() + child_heading_line(child@) + blank_line()
        + child@.text);
    set_length(parent);
    assert(parent@ =~= absorbed(pv, child@));
}

/// One pass of phase 3 at `level`.
fn merge_pass(chunks: Vec<Chunk>, level: u32, min_length: usize, max_length: usize) -> (r: Vec<
    Chunk,
>)
    ensures
        chunk_views(r@) == pass_from(
            chunk_views(chunks@),
            0,
            None,
            level,
            min_length as int,
            max_length as int,
        ),
{
    let ghost s = chunk_views(chunks@);
    let ghost total = pass_from(s, 0, None, level, min_length as int, max_length as int);
    let n = chunks.len();
    let mut rest = reversed(chunks);
    let mut result: Vec<Chunk> = Vec::new();
    let mut current: Option<Chunk> = None;
    assert(chunk_views(result@) =~= Seq::<ChunkView>::empty());
    while rest.len() > 0
        invariant
            s.len() == n,
            rest@.len() <= n,
            forall|k: int|
                0 <= k < rest@.len() ==> (#[trigger] rest@[k])@ == s[n - 1 - k],
            chunk_views(result@) + pass_from(
                s,
                n - rest@.len(),
                opt_view(current),
                level,
                min_length as int,
                max_length as int,
            ) == total,
        decreases rest@.len(),
    {
        let ghost i = n - rest@.len();
        let next = rest.pop().unwrap();
        assert(next@ == s[i]);
        let ghost rv = result@;
        let ghost cur = opt_view(current);
        let mut absorbing = false;
        match &current {
            Some(c) => {
                if next.level > level && header_is_superset_of(c.headers.as_slice(), next.headers.as_slice())
                    && !(c.length >= min_length && next.length >= min_length) {
                    let cb = default_length_counter(c.breadcrumb.as_str());
                    let nb = default_length_counter(next.breadcrumb.as_str());
                    let hl = heading_line_len(&next);
                    absorbing = absorb_within(c.length, cb, next.length, nb, hl, max_length);
                }
            },
            None => {},
        }
        if absorbing {
            let mut c = current.unwrap();
            absorb(&mut c, &next);
            current = Some(c);
        } else {
            match current {
                Some(c) => {
                    result.push(c);
                    proof {
                        lemma_chunk_views_push(rv, result@.last());
                    }
                },
                None => {},
            }
            assert(chunk_views(result@) =~= chunk_views(rv) + pending(cur));
            if next.level == level && next.length < max_length {
                current = Some(next);
            } else {
                let ghost rv2 = result@;
                let ghost nv = next@;
                result.push(next);
                proof {
                    lemma_chunk_views_push(rv2, result@.last());
                }
                assert(chunk_views(result@) =~= chunk_views(rv) + pending(cur) + seq![nv]);
                current = None;
            }
        }
    }
    let ghost rv = result@;
    match current {
        Some(c) => {
            let ghost cv = c@;
            result.push(c);
            proof {
                lemma_chunk_views_push(rv, result@.last());
            }
            assert(chunk_views(result@) =~= chunk_views(rv) + pending(Some(cv)));
        },
        None => {
            assert(chunk_views(result@) =~= chunk_views(rv) + pending(None));
        },
    }
    result
}

/// Phase 3: Hierarchical merge — absorb child sections into parent headers (bottom-up).
///
/// For each heading level from h6 down to h1, any chunk whose length is below
/// `max_length` will absorb immediately-following child chunks (those at a
/// deeper level whose heading path is a suffix of the parent's) as long as the
/// combined length stays within `max_length`.
///
/// **Note:** absorbed children's heading lines are rendered into `chunk.text`
/// (e.g. `## Child Section\n\n...`) but `chunk.headers` continues to reflect
/// only the parent's heading path. To enumerate all headings inside a merged
/// chunk, scan `chunk.text` for ATX headers.
pub fn merge_phase3(chunks: Vec<Chunk>, min_length: usize, max_length: usize) -> (r: Vec<Chunk>)
    ensures
        chunk_views(r@) == phase3_spec(chunk_views(chunks@), min_length as int, max_length as int),
{
    let ghost s = chunk_views(chunks@);
    let mut result = chunks;
    let mut level: u32 = 6;
    while level > 0
        invariant
            level <= 6,
            passes(chunk_views(result@), level as nat, min_length as int, max_length as int)
                == phase3_spec(s, min_length as int, max_length as int),
        decreases level,
    {
        result = merge_pass(result, level, min_length, max_length);
        level -= 1;
    }
    result
}

} // verus!
