use vstd::prelude::*;

use crate::errors::FragmentationProcessorError;
use vstd::utf8::encode_utf8;

verus! {

/// What `String::from_utf8_lossy` yields on the given bytes; the result is
/// a function of the bytes alone.
pub uninterp spec fn lossy_utf8(bytes: Seq<u8>) -> Seq<char>;

/// Relies on String::from_utf8_lossy: the result depends on the bytes
/// alone, and bytes that are valid UTF-8 are decoded exactly.
#[verifier::external_body]
fn decode_utf8_lossy(bytes: &[u8]) -> (r: String)
    ensures
        r@ == lossy_utf8(bytes@),
        vstd::utf8::valid_utf8(bytes@) ==> r@ == vstd::utf8::decode_utf8(bytes@),
{
    String::from_utf8_lossy(bytes).into_owned()
}

/// The byte a frame ends on: the newline delimiter of the wire protocol.
pub const FRAME_DELIMITER: u8 = 10;

/// Extracts one frame from the front of `bytes`: on the first delimiter
/// found, yields the text before it (decoded leniently from UTF-8) and the
/// number of leading bytes consumed, delimiter included; without a
/// delimiter, nothing is consumed and the frame is reported incomplete.
pub fn serialize(bytes: &[u8]) -> (r: (Result<String, FragmentationProcessorError>, usize))
    ensures
        r.0 is Ok <==> exists|k: int| 0 <= k < bytes@.len() && bytes@[k] == FRAME_DELIMITER,
        match r.0 {
            Ok(frame) => {
                &&& 0 < r.1 <= bytes@.len()
                &&& bytes@[r.1 - 1] == FRAME_DELIMITER
                &&& forall|k: int| 0 <= k < r.1 - 1 ==> bytes@[k] != FRAME_DELIMITER
                &&& frame@ == lossy_utf8(bytes@.subrange(0, r.1 - 1))
            },
            Err(e) => {
                &&& e == FragmentationProcessorError::UnexpectedError
                &&& r.1 == 0
            },
        },
{
    let n = bytes.len();
    let mut seek: usize = 0;
    while seek < n
        invariant
            n == bytes@.len(),
            seek <= n,
            forall|k: int| 0 <= k < seek ==> bytes@[k] != FRAME_DELIMITER,
        decreases n - seek,
    {
        let byte = *vstd::slice::slice_index_get(bytes, seek);
        if byte == FRAME_DELIMITER {
            let head = vstd::slice::slice_subrange(bytes, 0, seek);
            let frame = decode_utf8_lossy(head);
            return (Ok(frame), seek + 1);
        }
        seek = seek + 1;
    }
    (Err(FragmentationProcessorError::UnexpectedError), 0)
}

/// The bytes a frame's text is written back out as: its UTF-8 encoding.
pub fn deserialize(s: &String) -> (r: &[u8])
    ensures
        r@ == encode_utf8(s@),
{
    s.as_str().as_bytes()
}

/// The inbound half of the framing layer: raw bytes read from the stream
/// accumulate here until they hold a complete delimiter-terminated frame,
/// which is then cut off the front. Its view is the bytes currently
/// accumulated and not yet consumed.
pub struct StreamProcessor {
    buffer: Vec<u8>,
}

impl View for StreamProcessor {
    type V = Seq<u8>;

    closed spec fn view(&self) -> Seq<u8> {
        self.buffer@
    }
}

impl StreamProcessor {
    /// A processor with nothing accumulated yet.
    pub fn new() -> (r: Self)
        ensures
            r@ == Seq::<u8>::empty(),
    {
        StreamProcessor { buffer: Vec::new() }
    }

    /// How many bytes are accumulated and not yet consumed.
    pub fn buffered_len(&self) -> (r: usize)
        ensures
            r == self@.len(),
    {
        self.buffer.len()
    }

    /// Appends one chunk read from the stream to the accumulated bytes.
    pub fn ingest(&mut self, chunk: &[u8])
        requires
            old(self)@.len() + chunk@.len() <= usize::MAX,
        ensures
            final(self)@ == old(self)@ + chunk@,
    {
        self.buffer.extend_from_slice(chunk);
    }

    /// Attempts to extract one frame from the front of the accumulated
    /// bytes: on success the frame's bytes, delimiter included, are
    /// dropped from the front; an incomplete frame leaves everything
    /// accumulated for the next read.
    pub fn next_frame(&mut self) -> (r: Option<String>)
        ensures
            r is Some <==> exists|k: int|
                0 <= k < old(self)@.len() && old(self)@[k] == FRAME_DELIMITER,
            match r {
                Some(frame) => exists|c: int|
                    {
                        &&& 0 < c <= old(self)@.len()
                        &&& old(self)@[c - 1] == FRAME_DELIMITER
                        &&& (forall|k: int| 0 <= k < c - 1 ==> old(self)@[k] != FRAME_DELIMITER)
                        &&& frame@ == lossy_utf8(old(self)@.subrange(0, c - 1))
                        &&& final(self)@ == old(self)@.subrange(c, old(self)@.len() as int)
                    },
                None => final(self)@ == old(self)@,
            },
    {
        let (result, consumed) = serialize(self.buffer.as_slice());
        match result {
            Ok(frame) => {
                let ghost pre = self.buffer@;
                let n = self.buffer.len();
                let mut rest: Vec<u8> = Vec::new();
                let mut i: usize = consumed;
                while i < n
                    invariant
                        n == self.buffer@.len(),
                        consumed <= i <= n,
                        self.buffer@ == pre,
                        rest@ == pre.subrange(consumed as int, i as int),
                    decreases n - i,
                {
                    let b = self.buffer[i];
                    rest.push(b);
                    proof {
                        assert(rest@ =~= pre.subrange(consumed as int, i + 1));
                    }
                    i = i + 1;
                }
                self.buffer = rest;
                proof {
                    let c = consumed as int;
                    assert(old(self)@ == pre);
                    assert(exists|k: int|
                        0 <= k < old(self)@.len() && old(self)@[k] == FRAME_DELIMITER) by {
                        assert(0 <= c - 1 < old(self)@.len() && old(self)@[c - 1]
                            == FRAME_DELIMITER);
                    }
                    assert((0 < c <= old(self)@.len()) && old(self)@[c - 1] == FRAME_DELIMITER && (
                    forall|k: int| 0 <= k < c - 1 ==> old(self)@[k] != FRAME_DELIMITER) && frame@
                        == lossy_utf8(old(self)@.subrange(0, c - 1)) && self@ == old(
                        self,
                    )@.subrange(c, old(self)@.len() as int));
                }
                Some(frame)
            },
            Err(_) => None,
        }
    }
}

/// Encodes one frame for the wire: the text's UTF-8 bytes followed by the
/// frame delimiter.
pub fn encode_frame(s: &String) -> (r: Vec<u8>)
    requires
        encode_utf8(s@).len() < usize::MAX,
    ensures
        r@ == encode_utf8(s@).push(FRAME_DELIMITER),
{
    let bytes = deserialize(s);
    let mut out: Vec<u8> = Vec::new();
    out.extend_from_slice(bytes);
    out.push(FRAME_DELIMITER);
    proof {
        assert(out@ =~= encode_utf8(s@).push(FRAME_DELIMITER));
    }
    out
}

} // verus!
