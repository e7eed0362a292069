//! Length bookkeeping of chunks and heading-path comparison.
use vstd::prelude::*;

use crate::tokens::{all_ws, collapsed, default_length_counter, is_ws, joined_len, lemma_collapsed_concat};
use crate::types::{Chunk, ChunkView};

verus! {

broadcast use vstd::string::group_string_axioms;

/// The paragraph separator `"\n\n"`.
pub open spec fn blank_line() -> Seq<char> {
    seq!['\n', '\n']
}

/// The length of the string an embedding model sees for a chunk: the
/// whitespace-collapsed character count of `breadcrumb + "\n\n" + text`.
pub open spec fn embed_len(breadcrumb: Seq<char>, text: Seq<char>) -> nat {
    collapsed(breadcrumb + blank_line() + text).len()
}

/// The text length recovered from a chunk length `len` and the breadcrumb
/// length `b`.
pub open spec fn spec_derive_t(len: int, b: int) -> int {
    if len <= b {
        0
    } else if b == 0 {
        len
    } else {
        len - b - 1
    }
}

/// A chunk length from a breadcrumb length `b` and a text length `t`.
pub open spec fn spec_chunk_len(b: int, t: int) -> int {
    if b == 0 || t == 0 {
        b + t
    } else {
        b + 1 + t
    }
}

pub open spec fn spec_update_after_merge(
    current_len: int,
    current_breadcrumb_len: int,
    chunk_len: int,
    chunk_breadcrumb_len: int,
) -> int {
    let t_new = joined_len(
        spec_derive_t(current_len, current_breadcrumb_len),
        spec_derive_t(chunk_len, chunk_breadcrumb_len),
    );
    spec_chunk_len(current_breadcrumb_len, t_new)
}

pub open spec fn spec_update_after_absorb(
    current_len: int,
    current_breadcrumb_len: int,
    child_len: int,
    child_breadcrumb_len: int,
    header_len: int,
) -> int {
    let t_appended = joined_len(header_len, spec_derive_t(child_len, child_breadcrumb_len));
    let t_new = joined_len(spec_derive_t(current_len, current_breadcrumb_len), t_appended);
    spec_chunk_len(current_breadcrumb_len, t_new)
}

proof fn lemma_blank_line_ws()
    ensures
        blank_line().len() > 0,
        all_ws(blank_line()),
{
    assert(is_ws('\n'));
}

/// Compute character length for a chunk. Includes the breadcrumb in the count
/// because embeddings will see "breadcrumb\n\ntext" as the full input.
///
/// Counts breadcrumb and text independently. The `\n\n` separator (which
/// collapses to a single space under whitespace-normalization, contributing 1
/// to the count) is included only when both sides normalize to a non-zero
/// length.
pub fn set_length(chunk: &mut Chunk)
    ensures
        final(chunk)@ == (ChunkView {
            length: embed_len(old(chunk)@.breadcrumb, old(chunk)@.text),
            ..old(chunk)@
        }),
{
    let b = default_length_counter(chunk.breadcrumb.as_str());
    let t = default_length_counter(chunk.text.as_str());
    proof {
        lemma_blank_line_ws();
        lemma_collapsed_concat(chunk.breadcrumb@, blank_line(), chunk.text@);
    }
    chunk.length = if b == 0 || t == 0 {
        b + t
    } else {
        b + 1 + t
    };
}

pub fn derive_t(len: usize, b: usize) -> (t: usize)
    ensures
        t == spec_derive_t(len as int, b as int),
{
    if len <= b {
        0
    } else if b == 0 {
        len
    } else {
        len - b - 1
    }
}

pub fn merge_text_len(t_a: usize, t_b: usize) -> (t: usize)
    requires
        joined_len(t_a as int, t_b as int) <= usize::MAX,
    ensures
        t == joined_len(t_a as int, t_b as int),
{
    if t_a == 0 {
        t_b
    } else if t_b == 0 {
        t_a
    } else {
        t_a + 1 + t_b
    }
}

pub fn update_length_after_merge(
    current_len: usize,
    current_breadcrumb_len: usize,
    chunk_len: usize,
    chunk_breadcrumb_len: usize,
) -> (n: usize)
    requires
        spec_update_after_merge(
            current_len as int,
            current_breadcrumb_len as int,
            chunk_len as int,
            chunk_breadcrumb_len as int,
        ) <= usize::MAX,
    ensures
        n == spec_update_after_merge(
            current_len as int,
            current_breadcrumb_len as int,
            chunk_len as int,
            chunk_breadcrumb_len as int,
        ),
{
    let t_current = derive_t(current_len, current_breadcrumb_len);
    let t_chunk = derive_t(chunk_len, chunk_breadcrumb_len);
    let t_new = merge_text_len(t_current, t_chunk);
    if current_breadcrumb_len == 0 || t_new == 0 {
        current_breadcrumb_len + t_new
    } else {
        current_breadcrumb_len + 1 + t_new
    }
}

pub fn update_length_after_absorb(
    current_len: usize,
    current_breadcrumb_len: usize,
    child_len: usize,
    child_breadcrumb_len: usize,
    header_prefix: &str,
    child_header: &str,
) -> (n: usize)
    requires
        spec_update_after_absorb(
            current_len as int,
            current_breadcrumb_len as int,
            child_len as int,
            child_breadcrumb_len as int,
            collapsed(header_prefix@ + seq![' '] + child_header@).len() as int,
        ) <= usize::MAX,
    ensures
        n == spec_update_after_absorb(
            current_len as int,
            current_breadcrumb_len as int,
            child_len as int,
            child_breadcrumb_len as int,
            collapsed(header_prefix@ + seq![' '] + child_header@).len() as int,
        ),
{
    let t_current = derive_t(current_len, current_breadcrumb_len);
    let t_child = derive_t(child_len, child_breadcrumb_len);
    let mut header_text = String::new();
    header_text.append(header_prefix);
    header_text.push(' ');
    header_text.append(child_header);
    assert(header_text@ =~= header_prefix@ + seq![' '] + child_header@);
    let t_header = default_length_counter(header_text.as_str());
    let t_appended = merge_text_len(t_header, t_child);
    let t_new = merge_text_len(t_current, t_appended);
    if current_breadcrumb_len == 0 || t_new == 0 {
        current_breadcrumb_len + t_new
    } else {
        current_breadcrumb_len + 1 + t_new
    }
}

/// A chunk length computed by `set_length` gives back the text length:
/// `derive_t(length, breadcrumb length)` is the collapsed length of the text.
pub proof fn law_derive_t_recovers_text_len(breadcrumb: Seq<char>, text: Seq<char>)
    ensures
        spec_derive_t(embed_len(breadcrumb, text) as int, collapsed(breadcrumb).len() as int)
            == collapsed(text).len(),
{
    lemma_blank_line_ws();
    lemma_collapsed_concat(breadcrumb, blank_line(), text);
}

/// `merge_text_len` of two collapsed text lengths is the collapsed length of
/// the two texts joined by a blank line.
pub proof fn law_merge_text_len_is_joined_len(a: Seq<char>, b: Seq<char>)
    ensures
        joined_len(collapsed(a).len() as int, collapsed(b).len() as int) == collapsed(
            a + blank_line() + b,
        ).len(),
{
    lemma_blank_line_ws();
    lemma_collapsed_concat(a, blank_line(), b);
}

/// For two chunks whose lengths were set by `set_length`,
/// `update_length_after_merge` gives the length that `set_length` computes
/// for the first chunk after the second one's text is appended to it with a
/// blank line between.
pub proof fn law_update_after_merge_matches_set_length(a: ChunkView, c: ChunkView)
    requires
        a.length == embed_len(a.breadcrumb, a.text),
        c.length == embed_len(c.breadcrumb, c.text),
    ensures
        spec_update_after_merge(
            a.length as int,
            collapsed(a.breadcrumb).len() as int,
            c.length as int,
            collapsed(c.breadcrumb).len() as int,
        ) == embed_len(a.breadcrumb, a.text + blank_line() + c.text),
{
    law_derive_t_recovers_text_len(a.breadcrumb, a.text);
    law_derive_t_recovers_text_len(c.breadcrumb, c.text);
    law_merge_text_len_is_joined_len(a.text, c.text);
    lemma_collapsed_concat(a.breadcrumb, blank_line(), a.text + blank_line() + c.text);
}

/// For a parent chunk and a child chunk whose lengths were set by
/// `set_length`, `update_length_after_absorb` gives the length that
/// `set_length` computes for the parent after the child's heading line
/// (`prefix + " " + header`) and text are appended to it, each after a blank
/// line.
pub proof fn law_update_after_absorb_matches_set_length(
    a: ChunkView,
    child: ChunkView,
    prefix: Seq<char>,
    header: Seq<char>,
)
    requires
        a.length == embed_len(a.breadcrumb, a.text),
        child.length == embed_len(child.breadcrumb, child.text),
    ensures
        spec_update_after_absorb(
            a.length as int,
            collapsed(a.breadcrumb).len() as int,
            child.length as int,
            collapsed(child.breadcrumb).len() as int,
            collapsed(prefix + seq![' '] + header).len() as int,
        ) == embed_len(
            a.breadcrumb,
            a.text + blank_line() + (prefix + seq![' '] + header) + blank_line() + child.text,
        ),
{
    let h = prefix + seq![' '] + header;
    law_derive_t_recovers_text_len(a.breadcrumb, a.text);
    law_derive_t_recovers_text_len(child.breadcrumb, child.text);
    law_merge_text_len_is_joined_len(h, child.text);
    let appended = h + blank_line() + child.text;
    law_merge_text_len_is_joined_len(a.text, appended);
    assert(a.text + blank_line() + h + blank_line() + child.text =~= a.text + blank_line()
        + appended);
    lemma_collapsed_concat(a.breadcrumb, blank_line(), a.text + blank_line() + appended);
}

/// A heading path `parent` is a prefix of the heading path `child`: both
/// have the same number of slots, and every slot of `parent` up to its first
/// empty one holds the same heading in `child`.
pub open spec fn is_path_prefix(parent: Seq<Option<Seq<char>>>, child: Seq<Option<Seq<char>>>) -> bool {
    &&& parent.len() == child.len()
    &&& forall|i: int|
        0 <= i < parent.len() && #[trigger] leading_some(parent, i) ==> child[i] == parent[i]
}

/// Every slot of `p` from 0 through `i` holds a heading.
pub open spec fn leading_some(p: Seq<Option<Seq<char>>>, i: int) -> bool {
    forall|k: int| 0 <= k <= i ==> #[trigger] p[k] is Some
}

/// Check if `parent`'s header path is a prefix of `child`'s header path.
///
/// Both are 6-element vecs (h1–h6). Walks left-to-right:
///   - If both have a value, they must match.
///   - If parent has a value but child doesn't → false.
///   - If parent is None, we've reached the end of the parent's path → true.
pub fn header_is_superset_of(parent: &[Option<String>], child: &[Option<String>]) -> (r: bool)
    ensures
        r == is_path_prefix(parent.deep_view(), child.deep_view()),
{
    let ghost p = parent.deep_view();
    let ghost c = child.deep_view();
    if parent.len() != child.len() {
        return false;
    }
    let mut i: usize = 0;
    while i < parent.len()
        invariant
            p == parent.deep_view(),
            c == child.deep_view(),
            parent@.len() == child@.len(),
            0 <= i <= parent@.len(),
            forall|j: int| 0 <= j < i ==> #[trigger] p[j] is Some && c[j] == p[j],
        decreases parent@.len() - i,
    {
        assert(p[i as int] == parent@[i as int].deep_view());
        assert(c[i as int] == child@[i as int].deep_view());
        match &parent[i] {
            None => {
                assert forall|k: int|
                    0 <= k < p.len() && #[trigger] leading_some(p, k) implies c[k] == p[k] by {
                    if k >= i {
                        assert(p[i as int] is Some);
                    }
                }
                return true;
            },
            Some(ph) => {
                match &child[i] {
                    None => {
                        assert(leading_some(p, i as int));
                        return false;
                    },
                    Some(ch) => {
                        if !ph.eq(ch) {
                            assert(leading_some(p, i as int));
                            return false;
                        }
                    },
                }
            },
        }
        i += 1;
    }
    true
}

/// The sentinel that brackets a code-block placeholder.
pub open spec fn sentinel() -> char {
    '\u{E000}'
}

/// The index of the first `c` in `s` at or after `from`, or -1.
pub open spec fn find_from(s: Seq<char>, c: char, from: int) -> int
    decreases s.len() - from,
{
    if from < 0 || from >= s.len() {
        -1
    } else if s[from] == c {
        from
    } else {
        find_from(s, c, from + 1)
    }
}

pub proof fn lemma_find_from(s: Seq<char>, c: char, from: int)
    requires
        0 <= from,
    ensures
        find_from(s, c, from) == -1 || (from <= find_from(s, c, from) < s.len() && s[find_from(
            s,
            c,
            from,
        )] == c),
        forall|k: int|
            from <= k < s.len() && (find_from(s, c, from) == -1 || k < find_from(s, c, from))
                ==> s[k] != c,
    decreases s.len() - from,
{
    if from < s.len() && s[from] != c {
        lemma_find_from(s, c, from + 1);
    }
}

/// The prefix that a placeholder tag starts with.
pub open spec fn code_block_tag() -> Seq<char> {
    seq!['C', 'O', 'D', 'E', '_', 'B', 'L', 'O', 'C', 'K', '_']
}

pub open spec fn is_digit(c: char) -> bool {
    '0' <= c <= '9'
}

/// The number written by the decimal digits `d`.
pub open spec fn digits_value(d: Seq<char>) -> nat
    decreases d.len(),
{
    if d.len() == 0 {
        0
    } else {
        digits_value(d.drop_last()) * 10 + (d.last() as nat - '0' as nat) as nat
    }
}

/// `s` without its leading `+`, if it has one.
pub open spec fn unsigned_digits(s: Seq<char>) -> Seq<char> {
    if s.len() > 0 && s[0] == '+' {
        s.skip(1)
    } else {
        s
    }
}

/// What `str::parse::<usize>` accepts: an optional `+`, then one or more
/// decimal digits whose value fits in `usize`.
pub open spec fn parse_usize(s: Seq<char>) -> Option<nat> {
    let d = unsigned_digits(s);
    if d.len() > 0 && (forall|k: int| 0 <= k < d.len() ==> is_digit(#[trigger] d[k]))
        && digits_value(d) <= usize::MAX {
        Some(digits_value(d))
    } else {
        None
    }
}

/// The block index named by a placeholder tag `CODE_BLOCK_<n>`.
pub open spec fn tag_index(tag: Seq<char>) -> Option<nat> {
    if tag.len() >= 11 && tag.take(11) == code_block_tag() {
        parse_usize(tag.skip(11))
    } else {
        None
    }
}

/// `s[from..]` with every placeholder `U+E000 CODE_BLOCK_<n> U+E000` whose
/// `n` indexes `blocks` replaced by `blocks[n]`. Scanning goes from left to
/// right, pairing each sentinel with the next one; a pair that does not hold
/// a valid placeholder, and a last unpaired sentinel, stay as they are.
pub open spec fn restore_from(s: Seq<char>, blocks: Seq<Seq<char>>, from: int) -> Seq<char>
    decreases s.len() - from,
{
    let i = find_from(s, sentinel(), from);
    let j = find_from(s, sentinel(), i + 1);
    if from < 0 || from > s.len() || i < 0 || j < 0 {
        s.subrange(from, s.len() as int)
    } else {
        proof {
            lemma_find_from(s, sentinel(), from);
            lemma_find_from(s, sentinel(), i + 1);
        }
        let replaced = match tag_index(s.subrange(i + 1, j)) {
            Some(k) => if k < blocks.len() {
                blocks[k as int]
            } else {
                s.subrange(i, j + 1)
            },
            None => s.subrange(i, j + 1),
        };
        s.subrange(from, i) + replaced + restore_from(s, blocks, j + 1)
    }
}

proof fn lemma_restore_without_blocks(s: Seq<char>, from: int)
    requires
        0 <= from <= s.len(),
    ensures
        restore_from(s, Seq::empty(), from) == s.subrange(from, s.len() as int),
    decreases s.len() - from,
{
    let i = find_from(s, sentinel(), from);
    let j = find_from(s, sentinel(), i + 1);
    lemma_find_from(s, sentinel(), from);
    if i >= 0 {
        lemma_find_from(s, sentinel(), i + 1);
        if j >= 0 {
            lemma_restore_without_blocks(s, j + 1);
            assert(s.subrange(from, i) + s.subrange(i, j + 1) + s.subrange(j + 1, s.len() as int)
                =~= s.subrange(from, s.len() as int));
        }
    }
}

/// The first index of the sentinel in `v[from..]`, if any.
fn find_sentinel(v: &Vec<char>, from: usize) -> (r: Option<usize>)
    requires
        from <= v@.len(),
    ensures
        match r {
            Some(i) => i == find_from(v@, sentinel(), from as int),
            None => find_from(v@, sentinel(), from as int) == -1,
        },
{
    let mut i = from;
    while i < v.len()
        invariant
            from <= i <= v@.len(),
            find_from(v@, sentinel(), from as int) == find_from(v@, sentinel(), i as int),
        decreases v@.len() - i,
    {
        if v[i] == '\u{E000}' {
            return Some(i);
        }
        i += 1;
    }
    None
}

/// Parses `v[lo..hi]` as a placeholder tag, giving the block index it names.
fn parse_tag(v: &Vec<char>, lo: usize, hi: usize) -> (r: Option<usize>)
    requires
        lo <= hi <= v@.len(),
    ensures
        match r {
            Some(k) => tag_index(v@.subrange(lo as int, hi as int)) == Some(k as nat),
            None => tag_index(v@.subrange(lo as int, hi as int)) is None,
        },
{
    let ghost tag = v@.subrange(lo as int, hi as int);
    let prefix = vec!['C', 'O', 'D', 'E', '_', 'B', 'L', 'O', 'C', 'K', '_'];
    assert(prefix@ == code_block_tag());
    if hi - lo < 11 {
        return None;
    }
    let mut k: usize = 0;
    while k < 11
        invariant
            k <= 11,
            lo + 11 <= hi <= v@.len(),
            tag == v@.subrange(lo as int, hi as int),
            prefix@ == code_block_tag(),
            forall|m: int| 0 <= m < k ==> tag[m] == code_block_tag()[m],
        decreases 11 - k,
    {
        if v[lo + k] != prefix[k] {
            assert(tag.take(11)[k as int] != code_block_tag()[k as int]);
            return None;
        }
        k += 1;
    }
    assert(tag.take(11) =~= code_block_tag());
    let ghost rest = tag.skip(11);
    let mut start = lo + 11;
    if start < hi && v[start] == '+' {
        start += 1;
    }
    let ghost d = unsigned_digits(rest);
    assert(d =~= v@.subrange(start as int, hi as int));
    if start == hi {
        return None;
    }
    let mut value: usize = 0;
    let mut i = start;
    while i < hi
        invariant
            lo + 11 <= start <= i <= hi <= v@.len(),
            d == v@.subrange(start as int, hi as int),
            tag == v@.subrange(lo as int, hi as int),
            tag.take(11) == code_block_tag(),
            rest == tag.skip(11),
            d == unsigned_digits(rest),
            forall|m: int| start <= m < i ==> is_digit(#[trigger] v@[m]),
            value == digits_value(v@.subrange(start as int, i as int)),
        decreases hi - i,
    {
        let c = v[i];
        if !('0' <= c && c <= '9') {
            assert(d[i - start] == c);
            assert(!is_digit(d[i - start]));
            assert(tag_index(tag) == parse_usize(rest));
            assert(parse_usize(rest) is None);
            assert(tag_index(v@.subrange(lo as int, hi as int)) is None);
            return None;
        }
        let dv = (c as u32 - '0' as u32) as usize;
        assert(v@.subrange(start as int, i + 1).drop_last() =~= v@.subrange(start as int, i as int));
        if value > (usize::MAX - dv) / 10 {
            proof {
                assert(digits_value(v@.subrange(start as int, i + 1)) > usize::MAX) by (nonlinear_arith)
                    requires
                        digits_value(v@.subrange(start as int, i + 1)) == value * 10 + dv,
                        value > (usize::MAX - dv) / 10,
                        dv <= 9,
                ;
                assert(d.take(i + 1 - start) =~= v@.subrange(start as int, i + 1));
                if forall|m: int| 0 <= m < d.len() ==> is_digit(#[trigger] d[m]) {
                    lemma_digits_value_mono(d, i + 1 - start);
                }
                assert(tag_index(tag) == parse_usize(rest));
            }
            return None;
        }
        value = value * 10 + dv;
        i += 1;
    }
    assert(v@.subrange(start as int, hi as int) =~= d);
    Some(value)
}

/// Extending a digit string never decreases its value.
proof fn lemma_digits_value_mono(d: Seq<char>, n: int)
    requires
        0 <= n <= d.len(),
        forall|k: int| 0 <= k < d.len() ==> is_digit(#[trigger] d[k]),
    ensures
        digits_value(d.take(n)) <= digits_value(d),
    decreases d.len() - n,
{
    if n < d.len() {
        lemma_digits_value_mono(d, n + 1);
        assert(d.take(n + 1).drop_last() =~= d.take(n));
    } else {
        assert(d.take(n) =~= d);
    }
}

/// Replace `\u{E000}CODE_BLOCK_N\u{E000}` placeholders back with the original code content.
/// Single-pass O(N) where N is the length of `text`.
pub fn restore_code_placeholders<'a>(text: &'a str, blocks: &[String]) -> (r: std::borrow::Cow<
    'a,
    str,
>)
    ensures
        r@ == restore_from(text@, blocks.deep_view(), 0),
{
    let ghost bv = blocks.deep_view();
    let v = crate::chars::chars_of(text);
    if blocks.len() == 0 {
        proof {
            assert(bv =~= Seq::<Seq<char>>::empty());
            lemma_restore_without_blocks(text@, 0);
            assert(text@.subrange(0, text@.len() as int) =~= text@);
        }
        return std::borrow::Cow::Borrowed(text);
    }
    let mut out = String::new();
    let mut pos: usize = 0;
    let n = v.len();
    loop
        invariant_except_break
            out@ + restore_from(v@, bv, pos as int) == restore_from(v@, bv, 0),
        invariant
            v@ == text@,
            bv == blocks.deep_view(),
            0 <= pos <= v@.len(),
            n == v@.len(),
        ensures
            out@ == restore_from(v@, bv, 0),
        decreases v@.len() - pos,
    {
        let i = match find_sentinel(&v, pos) {
            Some(i) => i,
            None => {
                crate::chars::push_range(&mut out, &v, pos, v.len());
                break ;
            },
        };
        proof {
            lemma_find_from(v@, sentinel(), pos as int);
        }
        let j = match find_sentinel(&v, i + 1) {
            Some(j) => j,
            None => {
                crate::chars::push_range(&mut out, &v, pos, v.len());
                break ;
            },
        };
        proof {
            lemma_find_from(v@, sentinel(), i + 1);
        }
        let ghost rest = restore_from(v@, bv, j + 1);
        let ghost old_out = out@;
        crate::chars::push_range(&mut out, &v, pos, i);
        let mut used_block = false;
        match parse_tag(&v, i + 1, j) {
            Some(k) => {
                if k < blocks.len() {
                    assert(bv[k as int] == blocks@[k as int]@);
                    out.append(blocks[k].as_str());
                    used_block = true;
                }
            },
            None => {},
        }
        if !used_block {
            crate::chars::push_range(&mut out, &v, i, j + 1);
        }
        assert(out@ + rest =~= old_out + restore_from(v@, bv, pos as int));
        pos = j + 1;
    }
    std::borrow::Cow::Owned(out)
}

} // verus!
