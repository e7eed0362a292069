//! The Markdown grammar the chunker recognizes: code spans, ATX headings and
//! blank-line paragraph breaks.
//!
//! Code spans are found first. Each one becomes a single opaque token, so that
//! nothing inside a code span is read as a heading or a paragraph break; the
//! span's text comes back unchanged when a piece of the document is turned
//! into text again.
use vstd::prelude::*;

use crate::tokens::{is_ws, is_whitespace};

verus! {

/// One unit of a document after code spans are set aside: the character at
/// a position of the original text, or a whole code span `[start, end)` of
/// it.
#[derive(Clone, Copy, Debug)]
pub enum Tok {
    Ch(usize),
    Code(usize, usize),
}

// ---------------------------------------------------------------------------
// Code spans: the regular expression ```[\s\S]*?```|`[^`]+` with
// leftmost-first matching.

pub open spec fn tick(s: Seq<char>, i: int) -> bool {
    0 <= i < s.len() && s[i] == '`'
}

pub open spec fn fence_at(s: Seq<char>, i: int) -> bool {
    tick(s, i) && tick(s, i + 1) && tick(s, i + 2)
}

/// The first position at or after `i` where a fence (three backticks)
/// starts, or `s.len()` when there is none.
pub open spec fn next_fence(s: Seq<char>, i: int) -> int
    decreases s.len() - i,
{
    if i < 0 || i >= s.len() {
        s.len() as int
    } else if fence_at(s, i) {
        i
    } else {
        next_fence(s, i + 1)
    }
}

/// The first position at or after `i` that holds a backtick, or `s.len()`.
pub open spec fn next_tick(s: Seq<char>, i: int) -> int
    decreases s.len() - i,
{
    if i < 0 || i >= s.len() {
        s.len() as int
    } else if tick(s, i) {
        i
    } else {
        next_tick(s, i + 1)
    }
}

pub proof fn lemma_next_fence(s: Seq<char>, i: int)
    requires
        0 <= i <= s.len(),
    ensures
        i <= next_fence(s, i) <= s.len(),
        next_fence(s, i) < s.len() ==> fence_at(s, next_fence(s, i)),
    decreases s.len() - i,
{
    if i < s.len() && !fence_at(s, i) {
        lemma_next_fence(s, i + 1);
    }
}

pub proof fn lemma_next_tick(s: Seq<char>, i: int)
    requires
        0 <= i <= s.len(),
    ensures
        i <= next_tick(s, i) <= s.len(),
        next_tick(s, i) < s.len() ==> tick(s, next_tick(s, i)),
    decreases s.len() - i,
{
    if i < s.len() && !tick(s, i) {
        lemma_next_tick(s, i + 1);
    }
}

/// Where a code span starting at `p` ends, if one starts there: a fence
/// closed by the next fence, or else a backtick closed by the next backtick
/// with at least one other character between them.
pub open spec fn code_match(s: Seq<char>, p: int) -> Option<int> {
    if fence_at(s, p) && next_fence(s, p + 3) < s.len() {
        Some(next_fence(s, p + 3) + 3)
    } else if tick(s, p) && p + 2 <= next_tick(s, p + 1) < s.len() {
        Some(next_tick(s, p + 1) + 1)
    } else {
        None
    }
}

pub proof fn lemma_code_match(s: Seq<char>, p: int)
    requires
        0 <= p < s.len(),
    ensures
        code_match(s, p) matches Some(e) ==> p < e <= s.len(),
{
    if p + 3 <= s.len() {
        lemma_next_fence(s, p + 3);
    }
    lemma_next_tick(s, p + 1);
}

/// The tokens of `s[p..]`: each code span becomes one `Code` token, every
/// other character a `Ch` token.
pub open spec fn masked(s: Seq<char>, p: int) -> Seq<Tok>
    decreases s.len() - p,
{
    if p < 0 || p >= s.len() {
        Seq::empty()
    } else {
        match code_match(s, p) {
            Some(e) => if p < e <= s.len() {
                seq![Tok::Code(p as usize, e as usize)] + masked(s, e)
            } else {
                Seq::empty()
            },
            None => seq![Tok::Ch(p as usize)] + masked(s, p + 1),
        }
    }
}

/// For each `i` in `0..=s.len()`, `next_fence(s, i)`.
fn fence_table(v: &Vec<char>) -> (t: Vec<usize>)
    requires
        v@.len() <= isize::MAX,
    ensures
        t@.len() == v@.len() + 1,
        forall|i: int| 0 <= i <= v@.len() ==> t@[i] == next_fence(v@, i),
{
    let n = v.len();
    let mut t: Vec<usize> = Vec::new();
    let mut k: usize = 0;
    while k <= n
        invariant
            n == v@.len() <= isize::MAX,
            k <= n + 1,
            t@.len() == k,
            forall|i: int| 0 <= i < k ==> t@[i] == n,
        decreases n + 1 - k,
    {
        t.push(n);
        k += 1;
    }
    let mut i = n;
    while i > 0
        invariant
            n == v@.len() <= isize::MAX,
            i <= n,
            t@.len() == n + 1,
            forall|j: int| i <= j <= n ==> t@[j] == next_fence(v@, j),
        decreases i,
    {
        i -= 1;
        if i + 2 < n && v[i] == '`' && v[i + 1] == '`' && v[i + 2] == '`' {
            t.set(i, i);
        } else {
            let next = t[i + 1];
            t.set(i, next);
        }
    }
    t
}

/// For each `i` in `0..=s.len()`, `next_tick(s, i)`.
fn tick_table(v: &Vec<char>) -> (t: Vec<usize>)
    requires
        v@.len() <= isize::MAX,
    ensures
        t@.len() == v@.len() + 1,
        forall|i: int| 0 <= i <= v@.len() ==> t@[i] == next_tick(v@, i),
{
    let n = v.len();
    let mut t: Vec<usize> = Vec::new();
    let mut k: usize = 0;
    while k <= n
        invariant
            n == v@.len() <= isize::MAX,
            k <= n + 1,
            t@.len() == k,
            forall|i: int| 0 <= i < k ==> t@[i] == n,
        decreases n + 1 - k,
    {
        t.push(n);
        k += 1;
    }
    let mut i = n;
    while i > 0
        invariant
            n == v@.len() <= isize::MAX,
            i <= n,
            t@.len() == n + 1,
            forall|j: int| i <= j <= n ==> t@[j] == next_tick(v@, j),
        decreases i,
    {
        i -= 1;
        if v[i] == '`' {
            t.set(i, i);
        } else {
            let next = t[i + 1];
            t.set(i, next);
        }
    }
    t
}

/// `v[i]`.
pub fn char_at(v: &Vec<char>, i: usize) -> (c: char)
    requires
        i < v@.len(),
    ensures
        c == v@[i as int],
{
    v[i]
}

/// The tokens of `v`: code spans set aside as single tokens.
pub fn mask_code_spans(v: &Vec<char>) -> (t: Vec<Tok>)
    requires
        v@.len() <= isize::MAX,
    ensures
        t@ == masked(v@, 0),
{
    let n = v.len();
    let fences = fence_table(v);
    let ticks = tick_table(v);
    let mut t: Vec<Tok> = Vec::new();
    let mut p: usize = 0;
    while p < n
        invariant
            n == v@.len() <= isize::MAX,
            p <= n,
            fences@.len() == n + 1,
            ticks@.len() == n + 1,
            forall|i: int| 0 <= i <= n ==> fences@[i] == next_fence(v@, i),
            forall|i: int| 0 <= i <= n ==> ticks@[i] == next_tick(v@, i),
            t@ + masked(v@, p as int) == masked(v@, 0),
        decreases n - p,
    {
        proof {
            lemma_code_match(v@, p as int);
        }
        let ghost m = code_match(v@, p as int);
        let is_fence = p + 2 < n && v[p] == '`' && v[p + 1] == '`' && v[p + 2] == '`';
        let mut end: usize = 0;
        let mut found = false;
        if is_fence && fences[p + 3] < n {
            end = fences[p + 3] + 3;
            found = true;
        } else if v[p] == '`' && p + 2 <= ticks[p + 1] && ticks[p + 1] < n {
            end = ticks[p + 1] + 1;
            found = true;
        }
        let ghost old_t = t@;
        if found {
            assert(m == Some(end as int));
            t.push(Tok::Code(p, end));
            assert(t@ + masked(v@, end as int) =~= old_t + masked(v@, p as int));
            p = end;
        } else {
            assert(m is None);
            let ghost x = masked(v@, p as int);
            let ghost y = seq![Tok::Ch(p)] + masked(v@, p + 1);
            assert(x =~= y);
            t.push(Tok::Ch(p));
            let ghost z = t@ + masked(v@, p + 1);
            let ghost w = old_t + y;
            assert(z =~= w);
            p = p + 1;
        }
    }
    assert(masked(v@, p as int) =~= Seq::<Tok>::empty());
    assert(t@ =~= masked(v@, 0));
    t
}

// ---------------------------------------------------------------------------
// Scanning tokens.

pub open spec fn is_nl(s: Seq<char>, x: Tok) -> bool {
    match x {
        Tok::Ch(i) => s[i as int] == '\n',
        Tok::Code(_, _) => false,
    }
}

pub open spec fn is_hash(s: Seq<char>, x: Tok) -> bool {
    match x {
        Tok::Ch(i) => s[i as int] == '#',
        Tok::Code(_, _) => false,
    }
}

/// A whitespace character; a code span is never whitespace.
pub open spec fn tok_ws(s: Seq<char>, x: Tok) -> bool {
    match x {
        Tok::Ch(i) => is_ws(s[i as int]),
        Tok::Code(_, _) => false,
    }
}

/// The number of `#` tokens in a row from `q`.
pub open spec fn hash_run(s: Seq<char>, t: Seq<Tok>, q: int) -> nat
    decreases t.len() - q,
{
    if 0 <= q < t.len() && is_hash(s, t[q]) {
        1 + hash_run(s, t, q + 1)
    } else {
        0
    }
}

/// The first position at or after `i`, before `hi`, that is not whitespace;
/// `hi` when there is none.
pub open spec fn ws_end(s: Seq<char>, t: Seq<Tok>, i: int, hi: int) -> int
    decreases hi - i,
{
    if 0 <= i < hi && i < t.len() && tok_ws(s, t[i]) {
        ws_end(s, t, i + 1, hi)
    } else {
        i
    }
}

/// The first position at or after `i`, before `hi`, holding a newline; `hi`
/// when there is none.
pub open spec fn nl_from(s: Seq<char>, t: Seq<Tok>, i: int, hi: int) -> int
    decreases hi - i,
{
    if 0 <= i < hi && i < t.len() && !is_nl(s, t[i]) {
        nl_from(s, t, i + 1, hi)
    } else {
        i
    }
}

/// The last position in `[lo, hi)` that does not hold a newline, or -1.
pub open spec fn last_non_nl(s: Seq<char>, t: Seq<Tok>, lo: int, hi: int) -> int
    decreases hi - lo,
{
    if hi <= lo || hi > t.len() {
        -1
    } else if !is_nl(s, t[hi - 1]) {
        hi - 1
    } else {
        last_non_nl(s, t, lo, hi - 1)
    }
}

/// The last position in `[lo, hi)` that holds a newline, or -1.
pub open spec fn last_nl(s: Seq<char>, t: Seq<Tok>, lo: int, hi: int) -> int
    decreases hi - lo,
{
    if hi <= lo || hi > t.len() {
        -1
    } else if is_nl(s, t[hi - 1]) {
        hi - 1
    } else {
        last_nl(s, t, lo, hi - 1)
    }
}

/// `hi` with the whitespace before it, down to `lo`, taken off.
pub open spec fn rtrim(s: Seq<char>, t: Seq<Tok>, lo: int, hi: int) -> int
    decreases hi - lo,
{
    if lo < hi <= t.len() && tok_ws(s, t[hi - 1]) {
        rtrim(s, t, lo, hi - 1)
    } else {
        hi
    }
}

pub proof fn lemma_ws_end(s: Seq<char>, t: Seq<Tok>, i: int, hi: int)
    requires
        0 <= i <= hi <= t.len(),
    ensures
        i <= ws_end(s, t, i, hi) <= hi,
        ws_end(s, t, i, hi) < hi ==> !tok_ws(s, t[ws_end(s, t, i, hi)]),
        forall|k: int| i <= k < ws_end(s, t, i, hi) ==> tok_ws(s, #[trigger] t[k]),
    decreases hi - i,
{
    if i < hi && tok_ws(s, t[i]) {
        lemma_ws_end(s, t, i + 1, hi);
    }
}

pub proof fn lemma_nl_from(s: Seq<char>, t: Seq<Tok>, i: int, hi: int)
    requires
        0 <= i <= hi <= t.len(),
    ensures
        i <= nl_from(s, t, i, hi) <= hi,
        nl_from(s, t, i, hi) < hi ==> is_nl(s, t[nl_from(s, t, i, hi)]),
    decreases hi - i,
{
    if i < hi && !is_nl(s, t[i]) {
        lemma_nl_from(s, t, i + 1, hi);
    }
}

pub proof fn lemma_last_non_nl(s: Seq<char>, t: Seq<Tok>, lo: int, hi: int)
    requires
        0 <= lo,
        hi <= t.len(),
    ensures
        last_non_nl(s, t, lo, hi) == -1 || lo <= last_non_nl(s, t, lo, hi) < hi,
    decreases hi - lo,
{
    if lo < hi && is_nl(s, t[hi - 1]) {
        lemma_last_non_nl(s, t, lo, hi - 1);
    }
}

pub proof fn lemma_last_nl(s: Seq<char>, t: Seq<Tok>, lo: int, hi: int)
    requires
        0 <= lo,
        hi <= t.len(),
    ensures
        last_nl(s, t, lo, hi) == -1 || lo <= last_nl(s, t, lo, hi) < hi,
    decreases hi - lo,
{
    if lo < hi && !is_nl(s, t[hi - 1]) {
        lemma_last_nl(s, t, lo, hi - 1);
    }
}

pub proof fn lemma_rtrim(s: Seq<char>, t: Seq<Tok>, lo: int, hi: int)
    requires
        0 <= lo <= hi <= t.len(),
    ensures
        lo <= rtrim(s, t, lo, hi) <= hi,
    decreases hi - lo,
{
    if lo < hi && tok_ws(s, t[hi - 1]) {
        lemma_rtrim(s, t, lo, hi - 1);
    }
}

// ---------------------------------------------------------------------------
// ATX headings: the regular expression (?:^|\n)(?:#{1,6}\s+.+) with
// leftmost-first matching, where `\s` is whitespace and `.` any token but a
// newline.

/// Where a heading line that starts at `q` ends: one to six `#`, then
/// whitespace (newlines included), then the rest of the line. When the
/// whitespace runs to the end of the text, the line ends after its last
/// character that is not a newline.
pub open spec fn line_match(s: Seq<char>, t: Seq<Tok>, q: int) -> Option<int> {
    let r = hash_run(s, t, q);
    if 0 <= q && 1 <= r <= 6 && q + r < t.len() && tok_ws(s, t[q + r]) {
        let e = ws_end(s, t, q + r, t.len() as int);
        if e < t.len() {
            Some(nl_from(s, t, e, t.len() as int))
        } else {
            let j = last_non_nl(s, t, q + r + 1, t.len() as int);
            if j >= 0 {
                Some(j + 1)
            } else {
                None
            }
        }
    } else {
        None
    }
}

/// Where a heading match that starts at `p` ends: at the very start of the
/// text, or at a newline that the match includes.
pub open spec fn header_at(s: Seq<char>, t: Seq<Tok>, p: int) -> Option<int> {
    if p == 0 && line_match(s, t, 0) is Some {
        line_match(s, t, 0)
    } else if 0 <= p < t.len() && is_nl(s, t[p]) {
        line_match(s, t, p + 1)
    } else {
        None
    }
}

/// The heading matches of `t[p..]`, as `(start, end)` pairs, left to right.
pub open spec fn header_spans(s: Seq<char>, t: Seq<Tok>, p: int) -> Seq<(int, int)>
    decreases t.len() - p,
{
    if p < 0 || p >= t.len() {
        Seq::empty()
    } else {
        match header_at(s, t, p) {
            Some(e) => if p < e <= t.len() {
                seq![(p, e)] + header_spans(s, t, e)
            } else {
                Seq::empty()
            },
            None => header_spans(s, t, p + 1),
        }
    }
}

pub proof fn lemma_hash_run(s: Seq<char>, t: Seq<Tok>, q: int)
    requires
        0 <= q <= t.len(),
    ensures
        q + hash_run(s, t, q) <= t.len(),
        forall|k: int| q <= k < q + hash_run(s, t, q) ==> is_hash(s, #[trigger] t[k]),
        q + hash_run(s, t, q) < t.len() ==> !is_hash(s, t[q + hash_run(s, t, q)]),
    decreases t.len() - q,
{
    if q < t.len() && is_hash(s, t[q]) {
        lemma_hash_run(s, t, q + 1);
    }
}

pub proof fn lemma_line_match(s: Seq<char>, t: Seq<Tok>, q: int)
    requires
        0 <= q <= t.len(),
    ensures
        line_match(s, t, q) matches Some(e) ==> q < e <= t.len(),
{
    lemma_hash_run(s, t, q);
    let r = hash_run(s, t, q);
    if 1 <= r <= 6 && q + r < t.len() && tok_ws(s, t[q + r]) {
        lemma_ws_end(s, t, q + r, t.len() as int);
        let e = ws_end(s, t, q + r, t.len() as int);
        if e < t.len() {
            lemma_nl_from(s, t, e, t.len() as int);
        } else {
            lemma_last_non_nl(s, t, q + r + 1, t.len() as int);
        }
    }
}

pub proof fn lemma_header_at(s: Seq<char>, t: Seq<Tok>, p: int)
    requires
        0 <= p < t.len(),
    ensures
        header_at(s, t, p) matches Some(e) ==> p < e <= t.len(),
{
    lemma_line_match(s, t, 0);
    lemma_line_match(s, t, p + 1);
}

/// Every heading match `(a, e)` of `t[p..]` lies in `[p, t.len()]`, starts
/// a heading at `a` that ends at `e`, and ends no later than the next one
/// starts.
pub proof fn lemma_header_spans(s: Seq<char>, t: Seq<Tok>, p: int)
    requires
        0 <= p <= t.len(),
    ensures
        forall|k: int|
            0 <= k < header_spans(s, t, p).len() ==> p <= (#[trigger] header_spans(s, t, p)[k]).0
                < header_spans(s, t, p)[k].1 <= t.len() && header_at(s, t, header_spans(s, t, p)[k].0)
                == Some(header_spans(s, t, p)[k].1),
        forall|k: int|
            0 <= k < header_spans(s, t, p).len() - 1 ==> (#[trigger] header_spans(s, t, p)[k]).1
                <= header_spans(s, t, p)[k + 1].0,
    decreases t.len() - p,
{
    if p < t.len() {
        lemma_header_at(s, t, p);
        match header_at(s, t, p) {
            Some(e) => {
                lemma_header_spans(s, t, e);
                let hs = header_spans(s, t, p);
                let rest = header_spans(s, t, e);
                assert(hs =~= seq![(p, e)] + rest);
                assert forall|k: int| 0 <= k < hs.len() - 1 implies (#[trigger] hs[k]).1 <= hs[k
                    + 1].0 by {
                    if k > 0 {
                        assert(hs[k] == rest[k - 1]);
                        assert(hs[k + 1] == rest[k]);
                    } else if rest.len() > 0 {
                        assert(hs[1] == rest[0]);
                    }
                }
                assert forall|k: int| 0 <= k < hs.len() implies p <= (#[trigger] hs[k]).0 < hs[k].1
                    <= t.len() && header_at(s, t, hs[k].0) == Some(hs[k].1) by {
                    if k > 0 {
                        assert(hs[k] == rest[k - 1]);
                    }
                }
            },
            None => {
                lemma_header_spans(s, t, p + 1);
            },
        }
    } else {
        assert(header_spans(s, t, p) =~= Seq::<(int, int)>::empty());
    }
}

/// A heading line that matches has one to six `#` and ends after them.
pub proof fn lemma_line_match_some(s: Seq<char>, t: Seq<Tok>, q: int)
    requires
        0 <= q <= t.len(),
        line_match(s, t, q) is Some,
    ensures
        1 <= hash_run(s, t, q) <= 6,
        q + hash_run(s, t, q) < line_match(s, t, q)->0 <= t.len(),
{
    lemma_hash_run(s, t, q);
    let r = hash_run(s, t, q);
    lemma_ws_end(s, t, q + r, t.len() as int);
    let e = ws_end(s, t, q + r, t.len() as int);
    if e < t.len() {
        lemma_nl_from(s, t, e, t.len() as int);
    } else {
        lemma_last_non_nl(s, t, q + r + 1, t.len() as int);
    }
}

/// `t[i]`.
pub fn tok_at(t: &Vec<Tok>, i: usize) -> (x: Tok)
    requires
        i < t@.len(),
    ensures
        x == t@[i as int],
{
    t[i]
}

/// The token names a position or range of a text of `n` characters.
pub open spec fn tok_wf(x: Tok, n: nat) -> bool {
    match x {
        Tok::Code(a, b) => a <= b <= n,
        Tok::Ch(i) => i < n,
    }
}

pub fn tok_is_nl(v: &Vec<char>, x: Tok) -> (r: bool)
    requires
        tok_wf(x, v@.len()),
    ensures
        r == is_nl(v@, x),
{
    match x {
        Tok::Ch(i) => char_at(v, i) == '\n',
        Tok::Code(_, _) => false,
    }
}

fn tok_is_hash(v: &Vec<char>, x: Tok) -> (r: bool)
    requires
        tok_wf(x, v@.len()),
    ensures
        r == is_hash(v@, x),
{
    match x {
        Tok::Ch(i) => char_at(v, i) == '#',
        Tok::Code(_, _) => false,
    }
}

fn tok_is_ws(v: &Vec<char>, x: Tok) -> (r: bool)
    requires
        tok_wf(x, v@.len()),
    ensures
        r == tok_ws(v@, x),
{
    match x {
        Tok::Ch(i) => is_whitespace(char_at(v, i)),
        Tok::Code(_, _) => false,
    }
}

/// The length of the `#` run at `q`, counted up to 7.
pub fn hash_count(v: &Vec<char>, t: &Vec<Tok>, q: usize) -> (r: usize)
    requires
        toks_wf(t@, v@.len()),
        q <= t@.len() <= isize::MAX,
    ensures
        r == (if hash_run(v@, t@, q as int) < 7 {
            hash_run(v@, t@, q as int)
        } else {
            7
        }),
{
    let mut j = q;
    while j < t.len() && j - q < 7 && tok_is_hash(v, tok_at(t, j))
        invariant
            toks_wf(t@, v@.len()),
            q <= j <= t@.len() <= isize::MAX,
            j - q <= 7,
            hash_run(v@, t@, q as int) == (j - q) + hash_run(v@, t@, j as int),
        decreases t@.len() - j,
    {
        j += 1;
    }
    j - q
}

/// `ws_end(s, t, i, hi)`.
pub fn skip_ws(v: &Vec<char>, t: &Vec<Tok>, i: usize, hi: usize) -> (r: usize)
    requires
        toks_wf(t@, v@.len()),
        i <= hi <= t@.len(),
    ensures
        r == ws_end(v@, t@, i as int, hi as int),
{
    let mut j = i;
    while j < hi && tok_is_ws(v, tok_at(t, j))
        invariant
            toks_wf(t@, v@.len()),
            i <= j <= hi <= t@.len(),
            ws_end(v@, t@, i as int, hi as int) == ws_end(v@, t@, j as int, hi as int),
        decreases hi - j,
    {
        j += 1;
    }
    j
}

/// `nl_from(s, t, i, hi)`.
fn find_nl(v: &Vec<char>, t: &Vec<Tok>, i: usize, hi: usize) -> (r: usize)
    requires
        toks_wf(t@, v@.len()),
        i <= hi <= t@.len(),
    ensures
        r == nl_from(v@, t@, i as int, hi as int),
{
    let mut j = i;
    while j < hi && !tok_is_nl(v, tok_at(t, j))
        invariant
            toks_wf(t@, v@.len()),
            i <= j <= hi <= t@.len(),
            nl_from(v@, t@, i as int, hi as int) == nl_from(v@, t@, j as int, hi as int),
        decreases hi - j,
    {
        j += 1;
    }
    j
}

/// `last_non_nl(s, t, lo, hi)`, or `None` for -1.
fn find_last_non_nl(v: &Vec<char>, t: &Vec<Tok>, lo: usize, hi: usize) -> (r: Option<usize>)
    requires
        toks_wf(t@, v@.len()),
        lo <= hi <= t@.len(),
    ensures
        match r {
            Some(j) => j == last_non_nl(v@, t@, lo as int, hi as int),
            None => last_non_nl(v@, t@, lo as int, hi as int) == -1,
        },
{
    let mut j = hi;
    while j > lo
        invariant
            toks_wf(t@, v@.len()),
            lo <= j <= hi <= t@.len(),
            last_non_nl(v@, t@, lo as int, hi as int) == last_non_nl(v@, t@, lo as int, j as int),
        decreases j,
    {
        if !tok_is_nl(v, tok_at(t, j - 1)) {
            return Some(j - 1);
        }
        j -= 1;
    }
    None
}

/// `last_nl(s, t, lo, hi)`, or `None` for -1.
fn find_last_nl(v: &Vec<char>, t: &Vec<Tok>, lo: usize, hi: usize) -> (r: Option<usize>)
    requires
        toks_wf(t@, v@.len()),
        lo <= hi <= t@.len(),
    ensures
        match r {
            Some(j) => j == last_nl(v@, t@, lo as int, hi as int),
            None => last_nl(v@, t@, lo as int, hi as int) == -1,
        },
{
    let mut j = hi;
    while j > lo
        invariant
            toks_wf(t@, v@.len()),
            lo <= j <= hi <= t@.len(),
            last_nl(v@, t@, lo as int, hi as int) == last_nl(v@, t@, lo as int, j as int),
        decreases j,
    {
        if tok_is_nl(v, tok_at(t, j - 1)) {
            return Some(j - 1);
        }
        j -= 1;
    }
    None
}

/// `rtrim(s, t, lo, hi)`.
pub fn trim_end(v: &Vec<char>, t: &Vec<Tok>, lo: usize, hi: usize) -> (r: usize)
    requires
        toks_wf(t@, v@.len()),
        lo <= hi <= t@.len(),
    ensures
        r == rtrim(v@, t@, lo as int, hi as int),
{
    let mut j = hi;
    while j > lo && tok_is_ws(v, tok_at(t, j - 1))
        invariant
            toks_wf(t@, v@.len()),
            lo <= j <= hi <= t@.len(),
            rtrim(v@, t@, lo as int, hi as int) == rtrim(v@, t@, lo as int, j as int),
        decreases j,
    {
        j -= 1;
    }
    j
}

/// `line_match(s, t, q)`.
fn match_line(v: &Vec<char>, t: &Vec<Tok>, q: usize) -> (r: Option<usize>)
    requires
        toks_wf(t@, v@.len()),
        q <= t@.len() <= isize::MAX,
    ensures
        match r {
            Some(e) => line_match(v@, t@, q as int) == Some(e as int),
            None => line_match(v@, t@, q as int) is None,
        },
{
    proof {
        lemma_hash_run(v@, t@, q as int);
    }
    let n = t.len();
    let r = hash_count(v, t, q);
    if !(1 <= r && r <= 6 && q + r < n && tok_is_ws(v, tok_at(t, q + r))) {
        return None;
    }
    let e = skip_ws(v, t, q + r, n);
    if e < n {
        Some(find_nl(v, t, e, n))
    } else {
        proof {
            lemma_last_non_nl(v@, t@, q + r + 1, n as int);
        }
        match find_last_non_nl(v, t, q + r + 1, n) {
            Some(j) => Some(j + 1),
            None => None,
        }
    }
}

/// `header_at(s, t, p)`.
fn match_header(v: &Vec<char>, t: &Vec<Tok>, p: usize) -> (r: Option<usize>)
    requires
        toks_wf(t@, v@.len()),
        p < t@.len() <= isize::MAX,
    ensures
        match r {
            Some(e) => header_at(v@, t@, p as int) == Some(e as int),
            None => header_at(v@, t@, p as int) is None,
        },
{
    if p == 0 {
        match match_line(v, t, 0) {
            Some(e) => {
                return Some(e);
            },
            None => {},
        }
    }
    if tok_is_nl(v, tok_at(t, p)) {
        match_line(v, t, p + 1)
    } else {
        None
    }
}

/// A vector of index pairs, as integer pairs.
pub open spec fn spans(v: Seq<(usize, usize)>) -> Seq<(int, int)> {
    v.map_values(|x: (usize, usize)| (x.0 as int, x.1 as int))
}

/// All heading matches of `t`.
pub fn find_headers(v: &Vec<char>, t: &Vec<Tok>) -> (r: Vec<(usize, usize)>)
    requires
        toks_wf(t@, v@.len()),
        t@.len() <= isize::MAX,
    ensures
        spans(r@) == header_spans(v@, t@, 0),
        forall|i: int| 0 <= i < r@.len() ==> (#[trigger] r@[i]).0 < r@[i].1 <= t@.len(),
{
    let n = t.len();
    let mut r: Vec<(usize, usize)> = Vec::new();
    let mut p: usize = 0;
    while p < n
        invariant
            toks_wf(t@, v@.len()),
            n == t@.len() <= isize::MAX,
            p <= n,
            spans(r@) + header_spans(v@, t@, p as int) == header_spans(v@, t@, 0),
            forall|i: int| 0 <= i < r@.len() ==> (#[trigger] r@[i]).0 < r@[i].1 <= t@.len(),
        decreases n - p,
    {
        proof {
            lemma_header_at(v@, t@, p as int);
        }
        let ghost old_r = spans(r@);
        match match_header(v, t, p) {
            Some(e) => {
                r.push((p, e));
                let ghost a = spans(r@) + header_spans(v@, t@, e as int);
                let ghost b = old_r + header_spans(v@, t@, p as int);
                assert(spans(r@) =~= old_r.push((p as int, e as int)));
                assert(a =~= b);
                p = e;
            },
            None => {
                p += 1;
            },
        }
    }
    let ghost z = spans(r@);
    assert(z + header_spans(v@, t@, p as int) =~= z);
    r
}

// ---------------------------------------------------------------------------
// Paragraph breaks: the regular expression \n\s*\n, splitting `t[lo..hi]`.

/// Where a paragraph break that starts at `p` ends: a newline, then
/// whitespace up to and including its last newline.
pub open spec fn para_sep(s: Seq<char>, t: Seq<Tok>, p: int, hi: int) -> Option<int> {
    if 0 <= p < hi <= t.len() && is_nl(s, t[p]) {
        let k = last_nl(s, t, p + 1, ws_end(s, t, p + 1, hi));
        if k >= 0 {
            Some(k + 1)
        } else {
            None
        }
    } else {
        None
    }
}

/// The pieces of `t[start..hi]` between paragraph breaks, the search for the
/// next break going on from `p`.
pub open spec fn pieces(s: Seq<char>, t: Seq<Tok>, hi: int, start: int, p: int) -> Seq<(int, int)>
    decreases hi - p,
{
    if p < 0 || p >= hi {
        seq![(start, hi)]
    } else {
        match para_sep(s, t, p, hi) {
            Some(e) => if p < e <= hi {
                seq![(start, p)] + pieces(s, t, hi, e, e)
            } else {
                Seq::empty()
            },
            None => pieces(s, t, hi, start, p + 1),
        }
    }
}

pub proof fn lemma_para_sep(s: Seq<char>, t: Seq<Tok>, p: int, hi: int)
    requires
        0 <= p < hi <= t.len(),
    ensures
        para_sep(s, t, p, hi) matches Some(e) ==> p < e <= hi,
{
    lemma_ws_end(s, t, p + 1, hi);
    lemma_last_nl(s, t, p + 1, ws_end(s, t, p + 1, hi));
}

fn match_para_sep(v: &Vec<char>, t: &Vec<Tok>, p: usize, hi: usize) -> (r: Option<usize>)
    requires
        toks_wf(t@, v@.len()),
        p < hi <= t@.len() <= isize::MAX,
    ensures
        match r {
            Some(e) => para_sep(v@, t@, p as int, hi as int) == Some(e as int),
            None => para_sep(v@, t@, p as int, hi as int) is None,
        },
{
    if !tok_is_nl(v, tok_at(t, p)) {
        return None;
    }
    let e = skip_ws(v, t, p + 1, hi);
    proof {
        lemma_ws_end(v@, t@, p + 1, hi as int);
        lemma_last_nl(v@, t@, p + 1, e as int);
    }
    match find_last_nl(v, t, p + 1, e) {
        Some(k) => Some(k + 1),
        None => None,
    }
}

/// The pieces of `t[lo..hi]` between paragraph breaks.
pub fn paragraph_pieces(v: &Vec<char>, t: &Vec<Tok>, lo: usize, hi: usize) -> (r: Vec<(usize, usize)>)
    requires
        toks_wf(t@, v@.len()),
        lo <= hi <= t@.len() <= isize::MAX,
    ensures
        spans(r@) == pieces(v@, t@, hi as int, lo as int, lo as int),
        forall|i: int| 0 <= i < r@.len() ==> lo <= (#[trigger] r@[i]).0 <= r@[i].1 <= hi,
{
    let mut r: Vec<(usize, usize)> = Vec::new();
    let mut start = lo;
    let mut p = lo;
    while p < hi
        invariant
            toks_wf(t@, v@.len()),
            lo <= start <= p <= hi <= t@.len() <= isize::MAX,
            spans(r@) + pieces(v@, t@, hi as int, start as int, p as int) == pieces(
                v@,
                t@,
                hi as int,
                lo as int,
                lo as int,
            ),
            forall|i: int| 0 <= i < r@.len() ==> lo <= (#[trigger] r@[i]).0 <= r@[i].1 <= hi,
        decreases hi - p,
    {
        proof {
            lemma_para_sep(v@, t@, p as int, hi as int);
        }
        let ghost old_r = spans(r@);
        match match_para_sep(v, t, p, hi) {
            Some(e) => {
                r.push((start, p));
                let ghost a = spans(r@) + pieces(v@, t@, hi as int, e as int, e as int);
                let ghost b = old_r + pieces(v@, t@, hi as int, start as int, p as int);
                assert(spans(r@) =~= old_r.push((start as int, p as int)));
                assert(a =~= b);
                start = e;
                p = e;
            },
            None => {
                p += 1;
            },
        }
    }
    let ghost old_r = spans(r@);
    r.push((start, hi));
    let ghost a = spans(r@);
    let ghost b = old_r + pieces(v@, t@, hi as int, start as int, p as int);
    assert(a =~= b);
    r
}

// ---------------------------------------------------------------------------
// Turning tokens back into text.

/// Every code token of `t` names a range of a text of `n` characters.
pub open spec fn toks_wf(t: Seq<Tok>, n: nat) -> bool {
    forall|i: int| 0 <= i < t.len() ==> tok_wf(#[trigger] t[i], n)
}

pub proof fn lemma_masked_wf(s: Seq<char>, p: int)
    requires
        0 <= p <= s.len() <= isize::MAX,
    ensures
        toks_wf(masked(s, p), s.len()),
        masked(s, p).len() <= s.len() - p,
    decreases s.len() - p,
{
    if p < s.len() {
        lemma_code_match(s, p);
        match code_match(s, p) {
            Some(e) => {
                lemma_masked_wf(s, e);
                let m = masked(s, p);
                let x = seq![Tok::Code(p as usize, e as usize)] + masked(s, e);
                assert(m =~= x);
                assert forall|i: int| 0 <= i < m.len() implies tok_wf(#[trigger] m[i], s.len()) by {
                    if i > 0 {
                        assert(x[i] == masked(s, e)[i - 1]);
                    }
                }
            },
            None => {
                lemma_masked_wf(s, p + 1);
                let m = masked(s, p);
                let rest = masked(s, p + 1);
                let x = seq![Tok::Ch(p as usize)] + rest;
                assert(m =~= x);
                assert forall|i: int| 0 <= i < m.len() implies tok_wf(#[trigger] m[i], s.len()) by {
                    if i > 0 {
                        assert(x[i] == rest[i - 1]);
                    }
                }
            },
        }
    } else {
        let m = masked(s, p);
        assert(m =~= Seq::<Tok>::empty());
    }
}

/// The text a token stands for.
pub open spec fn tok_text(x: Tok, s: Seq<char>) -> Seq<char> {
    match x {
        Tok::Ch(i) => seq![s[i as int]],
        Tok::Code(a, b) => s.subrange(a as int, b as int),
    }
}

/// The text of `t[lo..hi]`, code spans restored from `s`.
pub open spec fn restore_toks(t: Seq<Tok>, lo: int, hi: int, s: Seq<char>) -> Seq<char>
    decreases hi - lo,
{
    if lo < hi <= t.len() {
        restore_toks(t, lo, hi - 1, s) + tok_text(t[hi - 1], s)
    } else {
        Seq::empty()
    }
}

/// Appends the text of `t[lo..hi]` to `out`.
pub fn push_toks(out: &mut String, t: &Vec<Tok>, v: &Vec<char>, lo: usize, hi: usize)
    requires
        lo <= hi <= t@.len(),
        toks_wf(t@, v@.len()),
    ensures
        final(out)@ == old(out)@ + restore_toks(t@, lo as int, hi as int, v@),
{
    let mut i = lo;
    while i < hi
        invariant
            toks_wf(t@, v@.len()),
            lo <= i <= hi <= t@.len(),
            toks_wf(t@, v@.len()),
            out@ == old(out)@ + restore_toks(t@, lo as int, i as int, v@),
        decreases hi - i,
    {
        let x = tok_at(t, i);
        let ghost before = out@;
        match x {
            Tok::Ch(c) => {
                out.push(char_at(v, c));
            },
            Tok::Code(a, b) => {
                assert(a <= b <= v@.len());
                crate::chars::push_range(out, v, a, b);
            },
        }
        let ghost r1 = restore_toks(t@, lo as int, i + 1, v@);
        let ghost r0 = restore_toks(t@, lo as int, i as int, v@);
        assert(r1 == r0 + tok_text(t@[i as int], v@));
        assert(out@ =~= old(out)@ + r1);
        i += 1;
    }
}

} // verus!
