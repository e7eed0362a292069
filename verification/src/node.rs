//! The records that the Node.js binding exchanges, and the batch work it
//! hands to a worker thread.
use vstd::prelude::*;
use vstd::utf8::{decode_utf8, valid_utf8};

use crate::types::{chunk_views, ChunkView};

verus! {

broadcast use vstd::string::group_string_axioms;

/// Options as the binding receives them.
#[derive(Debug)]
pub struct ChunkOptions {
    pub min_length: Option<u32>,
    pub max_length: Option<u32>,
    pub phase: Option<u32>,
    pub title: Option<String>,
}

/// A chunk as the binding hands it back: its length must fit in a `u32`.
#[derive(Debug)]
pub struct Chunk {
    pub level: u32,
    pub header: Option<String>,
    pub headers: Vec<Option<String>>,
    pub breadcrumb: String,
    pub text: String,
    pub length: u32,
}

impl View for Chunk {
    type V = ChunkView;

    open spec fn view(&self) -> ChunkView {
        ChunkView {
            level: self.level,
            header: self.header.deep_view(),
            headers: self.headers.deep_view(),
            breadcrumb: self.breadcrumb@,
            text: self.text@,
            length: self.length as nat,
        }
    }
}

/// The views of a sequence of binding chunks.
pub open spec fn node_chunk_views(s: Seq<Chunk>) -> Seq<ChunkView> {
    s.map_values(|c: Chunk| c@)
}

/// Converts the binding's options into the library's.
pub fn map_options(options: Option<ChunkOptions>) -> (r: Option<crate::ChunkOptions>)
    ensures
        match options {
            None => r is None,
            Some(o) => r matches Some(m) && m.min_length == o.min_length && m.max_length
                == o.max_length && m.phase == o.phase && m.title == o.title,
        },
{
    match options {
        Some(o) => Some(
            crate::ChunkOptions {
                min_length: o.min_length,
                max_length: o.max_length,
                phase: o.phase,
                title: o.title,
            },
        ),
        None => None,
    }
}

/// The message of a chunk too long for the binding.
pub open spec fn too_long_message() -> Seq<char> {
    "chunk length exceeds u32::MAX; docs >4 GiB unsupported on Node binding"@
}

/// Converts a chunk for the binding; fails when its length does not fit in
/// a `u32`.
pub fn map_chunk(c: crate::Chunk) -> (r: Result<Chunk, &'static str>)
    ensures
        r is Ok <==> c.length <= u32::MAX,
        r matches Ok(n) ==> n@ == c@,
        r matches Err(e) ==> e@ == too_long_message(),
{
    if c.length > 0xffff_ffff {
        let e = "chunk length exceeds u32::MAX; docs >4 GiB unsupported on Node binding";
        return Err(e);
    }
    let length = c.length as u32;
    Ok(
        Chunk {
            level: c.level,
            header: c.header,
            headers: c.headers,
            breadcrumb: c.breadcrumb,
            text: c.text,
            length,
        },
    )
}

/// A copy of the options.
fn copy_options(o: &Option<crate::ChunkOptions>) -> (r: Option<crate::ChunkOptions>)
    ensures
        r == *o,
{
    match o {
        Some(x) => Some(
            crate::ChunkOptions {
                min_length: x.min_length,
                max_length: x.max_length,
                phase: x.phase,
                title: match &x.title {
                    Some(t) => Some(t.clone()),
                    None => None,
                },
            },
        ),
        None => None,
    }
}

/// The chunks of `text` under `options`.
pub open spec fn chunks_of(text: Seq<char>, options: Option<crate::ChunkOptions>) -> Seq<
    ChunkView,
> {
    crate::chunk_spec(
        text,
        crate::title_of(options),
        crate::min_length_of(options),
        crate::max_length_of(options),
        crate::phase_of(options),
    )
}

/// Every chunk length of every input fits in a `u32`.
pub open spec fn batch_fits(inputs: Seq<String>, options: Option<crate::ChunkOptions>) -> bool {
    forall|i: int, j: int|
        0 <= i < inputs.len() && 0 <= j < chunks_of(inputs[i]@, options).len() ==> (
        #[trigger] chunks_of(inputs[i]@, options)[j]).length <= u32::MAX
}

/// Converts the chunks of one input.
fn map_chunks(chunks: Vec<crate::Chunk>) -> (r: Result<Vec<Chunk>, &'static str>)
    ensures
        r is Ok <==> (forall|j: int|
            0 <= j < chunks@.len() ==> (#[trigger] chunks@[j]).length <= u32::MAX),
        r matches Ok(v) ==> node_chunk_views(v@) == chunk_views(chunks@),
        r matches Err(e) ==> e@ == too_long_message(),
{
    let ghost orig = chunks@;
    let mut rest = chunks;
    let mut out: Vec<Chunk> = Vec::new();
    let n = rest.len();
    let mut back: Vec<crate::Chunk> = Vec::new();
    while rest.len() > 0
        invariant
            back@.len() + rest@.len() == orig.len(),
            forall|k: int| 0 <= k < rest@.len() ==> #[trigger] rest@[k] == orig[k],
            forall|k: int| 0 <= k < back@.len() ==> #[trigger] back@[k] == orig[orig.len() - 1 - k],
        decreases rest@.len(),
    {
        let x = rest.pop().unwrap();
        back.push(x);
    }
    while back.len() > 0
        invariant
            n == orig.len(),
            orig == chunks@,
            back@.len() + out@.len() == orig.len(),
            forall|k: int| 0 <= k < back@.len() ==> #[trigger] back@[k] == orig[orig.len() - 1 - k],
            forall|j: int| 0 <= j < out@.len() ==> (#[trigger] orig[j]).length <= u32::MAX,
            node_chunk_views(out@) == chunk_views(orig.take(out@.len() as int)),
        decreases back@.len(),
    {
        let x = back.pop().unwrap();
        let ghost j = out@.len() as int;
        assert(x == orig[j]);
        match map_chunk(x) {
            Ok(c) => {
                let ghost ov = out@;
                out.push(c);
                assert(node_chunk_views(out@) =~= node_chunk_views(ov).push(orig[j]@));
                assert(orig.take(j + 1) =~= orig.take(j).push(orig[j]));
                assert(chunk_views(orig.take(j + 1)) =~= chunk_views(orig.take(j)).push(orig[j]@));
            },
            Err(e) => {
                assert(!(chunks@[j].length <= u32::MAX));
                return Err(e);
            },
        }
    }
    assert(orig.take(orig.len() as int) =~= orig);
    Ok(out)
}

/// Chunks every input, converting the chunks for the binding; fails when a
/// chunk length does not fit in a `u32`.
pub fn run_batch(inputs: &[String], options: &Option<crate::ChunkOptions>) -> (r: Result<
    Vec<Vec<Chunk>>,
    &'static str,
>)
    ensures
        r is Ok <==> batch_fits(inputs@, *options),
        r matches Ok(v) ==> v@.len() == inputs@.len() && forall|i: int|
            0 <= i < inputs@.len() ==> node_chunk_views(#[trigger] v@[i]@) == chunks_of(
                inputs@[i]@,
                *options,
            ),
        r matches Err(e) ==> e@ == too_long_message(),
{
    let mut out: Vec<Vec<Chunk>> = Vec::new();
    let mut i: usize = 0;
    while i < inputs.len()
        invariant
            i <= inputs@.len(),
            out@.len() == i,
            forall|k: int|
                0 <= k < i ==> node_chunk_views(#[trigger] out@[k]@) == chunks_of(
                    inputs@[k]@,
                    *options,
                ),
            forall|k: int, j: int|
                0 <= k < i && 0 <= j < chunks_of(inputs@[k]@, *options).len() ==> (
                #[trigger] chunks_of(inputs@[k]@, *options)[j]).length <= u32::MAX,
        decreases inputs@.len() - i,
    {
        let chunks = crate::chunk(inputs[i].as_str(), copy_options(options));
        let ghost cs = chunks@;
        assert(chunk_views(cs) == chunks_of(inputs@[i as int]@, *options));
        match map_chunks(chunks) {
            Ok(v) => {
                out.push(v);
                assert forall|j: int|
                    0 <= j < chunks_of(inputs@[i as int]@, *options).len() implies (
                    #[trigger] chunks_of(inputs@[i as int]@, *options)[j]).length <= u32::MAX by {
                    assert(chunk_views(cs)[j] == cs[j]@);
                }
            },
            Err(e) => {
                proof {
                    let j = choose|j: int| 0 <= j < cs.len() && !(cs[j].length <= u32::MAX);
                    assert(chunk_views(cs)[j] == cs[j]@);
                    assert(!batch_fits(inputs@, *options)) by {
                        assert(!((chunks_of(inputs@[i as int]@, *options)[j]).length
                            <= u32::MAX));
                    }
                }
                return Err(e);
            },
        }
        i += 1;
    }
    Ok(out)
}

/// One input of a batch: bytes still to be checked for UTF-8, or a string.
pub enum TaskInput {
    Bytes(Vec<u8>),
    Text(String),
}

/// The text that std's `FromUtf8Error` displays for the bytes `bytes` when
/// they are not valid UTF-8: where the invalid sequence starts and how long
/// it is. It depends on the bytes alone.
pub uninterp spec fn utf8_error_display(bytes: Seq<u8>) -> Seq<char>;

/// `String::from_utf8`: succeeds exactly on valid UTF-8, giving the
/// characters the bytes encode; on failure its error is handed back as the
/// text it displays (`format!("{}", e)`), named `utf8_error_display`.
#[verifier::external_body]
fn string_from_utf8(bytes: Vec<u8>) -> (r: Result<String, String>)
    ensures
        r is Ok <==> valid_utf8(bytes@),
        r matches Ok(s) ==> s@ == decode_utf8(bytes@),
        r matches Err(m) ==> m@ == utf8_error_display(bytes@),
{
    match String::from_utf8(bytes) {
        Ok(s) => Ok(s),
        Err(e) => Err(format!("{}", e)),
    }
}

/// The bytes of an input (none for a string input).
pub open spec fn input_bytes(i: TaskInput) -> Seq<u8> {
    match i {
        TaskInput::Bytes(b) => b@,
        TaskInput::Text(_) => Seq::empty(),
    }
}

/// The text of an input, or the binding's error for bytes that are not
/// valid UTF-8.
pub open spec fn input_text(i: TaskInput) -> Option<Seq<char>> {
    match i {
        TaskInput::Bytes(b) => if valid_utf8(b@) {
            Some(decode_utf8(b@))
        } else {
            None
        },
        TaskInput::Text(s) => Some(s@),
    }
}

/// `f` is the first input of `ins` that is not valid UTF-8.
pub open spec fn first_bad(ins: Seq<TaskInput>, f: int) -> bool {
    &&& 0 <= f < ins.len()
    &&& input_text(ins[f]) is None
    &&& forall|j: int| 0 <= j < f ==> input_text(#[trigger] ins[j]) is Some
}

/// Batch work for a worker thread: the inputs and the options.
pub struct ChunkTask {
    pub inputs: Vec<TaskInput>,
    pub options: Option<crate::ChunkOptions>,
}

/// The prefix of the error for an input that is not valid UTF-8.
pub open spec fn bad_utf8_prefix() -> Seq<char> {
    "Buffer is not valid UTF-8: "@
}

impl ChunkTask {
    /// Decodes every input and chunks them all. The inputs are consumed.
    /// Fails with `"Buffer is not valid UTF-8: "` and std's description of
    /// the first input that does not decode, else with the message of
    /// `run_batch`.
    pub fn compute(&mut self) -> (r: Result<Vec<Vec<Chunk>>, String>)
        ensures
            final(self).inputs@.len() == 0,
            final(self).options == old(self).options,
            forall|f: int|
                #[trigger] first_bad(old(self).inputs@, f) ==> (r matches Err(m) && m@
                    == bad_utf8_prefix() + utf8_error_display(input_bytes(old(self).inputs@[f]))),
            (exists|i: int|
                0 <= i < old(self).inputs@.len() && input_text(#[trigger] old(self).inputs@[i])
                    is None) ==> (r matches Err(m) && m@.len() >= bad_utf8_prefix().len()
                && m@.subrange(0, bad_utf8_prefix().len() as int) == bad_utf8_prefix()),
            r matches Ok(v) ==> v@.len() == old(self).inputs@.len() && forall|i: int|
                0 <= i < v@.len() ==> (input_text(old(self).inputs@[i]) matches Some(t)
                    && node_chunk_views(#[trigger] v@[i]@) == chunks_of(t, old(self).options)),
            (forall|i: int|
                0 <= i < old(self).inputs@.len() ==> input_text(#[trigger] old(self).inputs@[i])
                    is Some) ==> (r is Ok <==> (forall|i: int, j: int|
                0 <= i < old(self).inputs@.len() && 0 <= j < chunks_of(
                    input_text(old(self).inputs@[i])->0,
                    old(self).options,
                ).len() ==> (#[trigger] chunks_of(
                    input_text(old(self).inputs@[i])->0,
                    old(self).options,
                )[j]).length <= u32::MAX)),
            (forall|i: int|
                0 <= i < old(self).inputs@.len() ==> input_text(#[trigger] old(self).inputs@[i])
                    is Some) ==> (r matches Err(m) ==> m@ == too_long_message()),
    {
        let mut inputs: Vec<TaskInput> = Vec::new();
        std::mem::swap(&mut inputs, &mut self.inputs);
        let ghost orig = inputs@;
        let mut back: Vec<TaskInput> = Vec::new();
        while inputs.len() > 0
            invariant
                back@.len() + inputs@.len() == orig.len(),
                forall|k: int| 0 <= k < inputs@.len() ==> #[trigger] inputs@[k] == orig[k],
                forall|k: int|
                    0 <= k < back@.len() ==> #[trigger] back@[k] == orig[orig.len() - 1 - k],
            decreases inputs@.len(),
        {
            let x = inputs.pop().unwrap();
            back.push(x);
        }
        let mut decoded: Vec<String> = Vec::new();
        let prefix = "Buffer is not valid UTF-8: ";
        proof {
            reveal_strlit("Buffer is not valid UTF-8: ");
        }
        while back.len() > 0
            invariant
                prefix@ == bad_utf8_prefix(),
                orig == old(self).inputs@,
                self.inputs@.len() == 0,
                self.options == old(self).options,
                back@.len() + decoded@.len() == orig.len(),
                forall|k: int|
                    0 <= k < back@.len() ==> #[trigger] back@[k] == orig[orig.len() - 1 - k],
                forall|k: int|
                    0 <= k < decoded@.len() ==> input_text(#[trigger] orig[k]) == Some(
                        decoded@[k]@,
                    ),
            decreases back@.len(),
        {
            let x = back.pop().unwrap();
            let ghost k = decoded@.len() as int;
            assert(x == orig[k]);
            match x {
                TaskInput::Bytes(b) => {
                    match string_from_utf8(b) {
                        Ok(s) => {
                            decoded.push(s);
                        },
                        Err(detail) => {
                            let mut m = String::new();
                            m.append(prefix);
                            m.append(detail.as_str());
                            assert(m@.subrange(0, bad_utf8_prefix().len() as int)
                                =~= bad_utf8_prefix());
                            assert(input_text(old(self).inputs@[k]) is None);
                            assert(m@ =~= bad_utf8_prefix() + utf8_error_display(
                                input_bytes(old(self).inputs@[k]),
                            ));
                            assert forall|f: int| #[trigger]
                                first_bad(old(self).inputs@, f) implies f == k by {
                                if f < k {
                                    assert(input_text(orig[f]) == Some(decoded@[f]@));
                                }
                                if k < f {
                                    assert(input_text(orig[k]) is Some);
                                }
                            }
                            return Err(m);
                        },
                    }
                },
                TaskInput::Text(s) => {
                    decoded.push(s);
                },
            }
        }
        let ghost dv = decoded@;
        assert forall|i: int| 0 <= i < orig.len() implies input_text(#[trigger] orig[i]) is Some by {
            assert(input_text(orig[i]) == Some(dv[i]@));
        }
        assert(batch_fits(dv, self.options) <==> (forall|i: int, j: int|
            0 <= i < orig.len() && 0 <= j < chunks_of(input_text(orig[i])->0, self.options).len()
                ==> (#[trigger] chunks_of(input_text(orig[i])->0, self.options)[j]).length
                <= u32::MAX)) by {
            assert forall|i: int| 0 <= i < orig.len() implies input_text(orig[i])->0
                == #[trigger] dv[i]@ by {
                assert(input_text(orig[i]) == Some(dv[i]@));
            }
        }
        let slice = decoded.as_slice();
        assert(slice@ == dv);
        match run_batch(slice, &self.options) {
            Ok(v) => Ok(v),
            Err(e) => {
                let mut m = String::new();
                m.append(e);
                Err(m)
            },
        }
    }
}

} // verus!
