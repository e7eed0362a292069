//! Whitespace classification and the whitespace-collapsed character count.
use vstd::prelude::*;
use vstd::std_specs::iter::IteratorSpec;

verus! {

broadcast use vstd::string::group_string_axioms;

/// The Unicode `White_Space` property, the set that `char::is_whitespace`,
/// `str::trim` and the `\s` class of regular expressions all use.
pub open spec fn is_ws(c: char) -> bool {
    let n = c as u32;
    ||| 0x09 <= n <= 0x0d
    ||| n == 0x20
    ||| n == 0x85
    ||| n == 0xa0
    ||| n == 0x1680
    ||| 0x2000 <= n <= 0x200a
    ||| n == 0x2028
    ||| n == 0x2029
    ||| n == 0x202f
    ||| n == 0x205f
    ||| n == 0x3000
}

/// Whether `s` holds at least one character that is not whitespace.
pub open spec fn has_nonws(s: Seq<char>) -> bool
    decreases s.len(),
{
    if s.len() == 0 {
        false
    } else {
        !is_ws(s.last()) || has_nonws(s.drop_last())
    }
}

/// `s` with leading and trailing whitespace removed and every inner run of
/// whitespace replaced by a single space.
pub open spec fn collapsed(s: Seq<char>) -> Seq<char>
    decreases s.len(),
{
    if s.len() == 0 {
        Seq::empty()
    } else if is_ws(s.last()) {
        collapsed(s.drop_last())
    } else if s.len() >= 2 && is_ws(s[s.len() - 2]) && has_nonws(s.drop_last()) {
        collapsed(s.drop_last()).push(' ').push(s.last())
    } else {
        collapsed(s.drop_last()).push(s.last())
    }
}

/// Length of the collapsed form of two texts joined by whitespace, given the
/// collapsed lengths of the two texts.
pub open spec fn joined_len(a: int, b: int) -> int {
    if a == 0 {
        b
    } else if b == 0 {
        a
    } else {
        a + 1 + b
    }
}

/// Every character of `s` is whitespace.
pub open spec fn all_ws(s: Seq<char>) -> bool {
    forall|i: int| 0 <= i < s.len() ==> is_ws(#[trigger] s[i])
}

pub proof fn lemma_has_nonws_push(s: Seq<char>, c: char)
    ensures
        has_nonws(s.push(c)) == (has_nonws(s) || !is_ws(c)),
{
    assert(s.push(c).drop_last() =~= s);
}

pub proof fn lemma_has_nonws_all_ws(s: Seq<char>)
    ensures
        !has_nonws(s) <==> all_ws(s),
    decreases s.len(),
{
    if s.len() > 0 {
        lemma_has_nonws_all_ws(s.drop_last());
        if all_ws(s) {
            assert(is_ws(s[s.len() - 1]));
            assert(all_ws(s.drop_last()));
        }
        if !has_nonws(s) {
            assert forall|i: int| 0 <= i < s.len() implies is_ws(#[trigger] s[i]) by {
                if i < s.len() - 1 {
                    assert(s.drop_last()[i] == s[i]);
                }
            }
        }
    }
}

pub proof fn lemma_collapsed_len_bound(s: Seq<char>)
    ensures
        collapsed(s).len() <= s.len(),
        collapsed(s).len() == 0 <==> !has_nonws(s),
        s.len() > 0 && is_ws(s.last()) ==> collapsed(s).len() < s.len(),
    decreases s.len(),
{
    if s.len() > 0 {
        lemma_collapsed_len_bound(s.drop_last());
    }
}

/// Appending whitespace does not change the collapsed form.
pub proof fn lemma_collapsed_append_ws(a: Seq<char>, w: Seq<char>)
    requires
        all_ws(w),
    ensures
        collapsed(a + w) == collapsed(a),
        has_nonws(a + w) == has_nonws(a),
    decreases w.len(),
{
    if w.len() == 0 {
        assert(a + w =~= a);
    } else {
        assert((a + w).drop_last() =~= a + w.drop_last());
        assert(is_ws(w[w.len() - 1]));
        assert(all_ws(w.drop_last()));
        lemma_collapsed_append_ws(a, w.drop_last());
    }
}

/// The collapsed length of `a + sep + b`, where `sep` is a non-empty run of
/// whitespace, is the collapsed lengths of `a` and `b` joined by one space.
pub proof fn lemma_collapsed_concat(a: Seq<char>, sep: Seq<char>, b: Seq<char>)
    requires
        sep.len() > 0,
        all_ws(sep),
    ensures
        collapsed(a + sep + b).len() == joined_len(
            collapsed(a).len() as int,
            collapsed(b).len() as int,
        ),
        has_nonws(a + sep + b) == (has_nonws(a) || has_nonws(b)),
    decreases b.len(),
{
    lemma_collapsed_len_bound(a);
    lemma_collapsed_len_bound(b);
    if b.len() == 0 {
        assert(a + sep + b =~= a + sep);
        lemma_collapsed_append_ws(a, sep);
    } else {
        let s = a + sep + b;
        let b1 = b.drop_last();
        assert(s.drop_last() =~= a + sep + b1);
        assert(s.last() == b.last());
        lemma_collapsed_concat(a, sep, b1);
        lemma_collapsed_len_bound(b1);
        lemma_collapsed_len_bound(a + sep + b1);
        lemma_collapsed_append_ws(a, sep);
        if b1.len() == 0 {
            assert(s[s.len() - 2] == sep[sep.len() - 1]);
            assert(is_ws(sep[sep.len() - 1]));
            assert(!has_nonws(b1));
        } else {
            assert(s[s.len() - 2] == b1.last());
            assert(b[b.len() - 2] == b1.last());
        }
    }
}

/// Whether `c` is whitespace in the sense of `char::is_whitespace`.
pub fn is_whitespace(c: char) -> (r: bool)
    ensures
        r == is_ws(c),
{
    let n = c as u32;
    (0x09 <= n && n <= 0x0d) || n == 0x20 || n == 0x85 || n == 0xa0 || n == 0x1680 || (0x2000
        <= n && n <= 0x200a) || n == 0x2028 || n == 0x2029 || n == 0x202f || n == 0x205f || n
        == 0x3000
}

/// `str::len`: the length of `s` in bytes. UTF-8 spends at least one byte on
/// every character, and no object in memory is larger than `isize::MAX`
/// bytes, so the byte length lies between the number of characters and
/// `isize::MAX`. Nothing else is claimed of it.
#[verifier::external_body]
pub(crate) fn str_byte_len(s: &str) -> (n: usize)
    ensures
        s@.len() <= n,
        n <= isize::MAX,
{
    s.len()
}

/// Count characters in `text` after collapsing all runs of whitespace to a
/// single space and trimming leading/trailing whitespace.
pub fn default_length_counter(text: &str) -> (count: usize)
    ensures
        count == collapsed(text@).len(),
        count <= isize::MAX,
{
    let bytes = str_byte_len(text);
    let mut count: usize = 0;
    let mut in_ws = false;
    let mut started = false;
    let mut it = text.chars();
    let ghost mut seen: Seq<char> = Seq::empty();
    proof {
        lemma_collapsed_len_bound(seen);
    }
    loop
        invariant
            text@ == seen + it.remaining(),
            it.obeys_prophetic_iter_laws(),
            count == collapsed(seen).len(),
            started == has_nonws(seen),
            in_ws == (seen.len() > 0 && is_ws(seen.last()) && has_nonws(seen)),
            text@.len() <= bytes <= isize::MAX,
        ensures
            count == collapsed(text@).len(),
        decreases text@.len() - seen.len(),
    {
        let ghost before = it.remaining();
        match it.next() {
            None => {
                assert(seen =~= text@);
                break ;
            },
            Some(ch) => {
                let ghost s2 = seen.push(ch);
                proof {
                    assert(before.len() > 0);
                    assert(text@ == s2 + it.remaining()) by {
                        assert(before =~= seq![ch] + it.remaining());
                    }
                    assert(s2.drop_last() =~= seen);
                    lemma_has_nonws_push(seen, ch);
                    lemma_collapsed_len_bound(s2);
                    assert(s2.len() <= text@.len());
                }
                if is_whitespace(ch) {
                    if started {
                        in_ws = true;
                    }
                } else {
                    if in_ws {
                        count += 1;
                    }
                    count += 1;
                    in_ws = false;
                    started = true;
                }
                proof {
                    seen = s2;
                }
            },
        }
    }
    proof {
        lemma_collapsed_len_bound(text@);
    }
    count
}

} // verus!
