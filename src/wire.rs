use vstd::prelude::*;
use vstd::slice::{slice_subrange, slice_to_vec};

use crate::errors::ConnectionPoolerError;

verus! {

/// Bytes in a frame header: one type tag and a four-byte length field.
pub const HEADER_LEN: usize = 5;

/// A decoded frame as a mathematical value.
pub struct FrameModel {
    pub tag: u8,
    pub payload: Seq<u8>,
}

/// What one decoding step makes of the front of a buffer.
pub enum Decoded {
    /// The buffer does not yet hold a whole frame.
    Incomplete,
    /// The header is complete but its length field is below four.
    Malformed,
    /// A whole frame, and the number of bytes it takes on the wire.
    Frame(FrameModel, int),
}

/// The big-endian integer in bytes 1 to 4 of a buffer.
pub open spec fn length_field(b: Seq<u8>) -> int
    recommends
        b.len() >= 5,
{
    b[1] as int * 16777216 + b[2] as int * 65536 + b[3] as int * 256 + b[4] as int
}

/// The number of bytes the frame at the front of `b` takes on the wire.
pub open spec fn frame_size(b: Seq<u8>) -> int {
    1 + length_field(b)
}

/// The frame at the front of `b`, assuming the buffer holds all of it.
pub open spec fn frame_at(b: Seq<u8>) -> FrameModel {
    FrameModel { tag: b[0], payload: b.subrange(5, frame_size(b)) }
}

/// One decoding step on the front of `b`.
pub open spec fn decode_one(b: Seq<u8>) -> Decoded {
    if b.len() < 5 {
        Decoded::Incomplete
    } else if length_field(b) < 4 {
        Decoded::Malformed
    } else if b.len() < frame_size(b) {
        Decoded::Incomplete
    } else {
        Decoded::Frame(frame_at(b), frame_size(b))
    }
}

/// Decodes frames from the front of `b` until the rest is incomplete: the frames
/// in stream order and the residue, or `None` if a malformed header is reached.
pub open spec fn decode_all(b: Seq<u8>) -> Option<(Seq<FrameModel>, Seq<u8>)>
    decreases b.len(),
{
    if b.len() < 5 {
        Some((Seq::empty(), b))
    } else if length_field(b) < 4 {
        None
    } else if b.len() < frame_size(b) {
        Some((Seq::empty(), b))
    } else {
        prepend(seq![frame_at(b)], decode_all(b.skip(frame_size(b))))
    }
}

/// Puts `fs` before the frames of a decoding result.
pub open spec fn prepend(
    fs: Seq<FrameModel>,
    o: Option<(Seq<FrameModel>, Seq<u8>)>,
) -> Option<(Seq<FrameModel>, Seq<u8>)> {
    match o {
        Some((gs, r)) => Some((fs + gs, r)),
        None => None,
    }
}

/// The wire encoding of a frame: tag, big-endian `4 + len(payload)`, payload.
pub open spec fn encode(tag: u8, payload: Seq<u8>) -> Seq<u8> {
    let n = 4 + payload.len();
    seq![
        tag,
        (n / 16777216) as u8,
        ((n / 65536) % 256) as u8,
        ((n / 256) % 256) as u8,
        (n % 256) as u8,
    ] + payload
}

/// One protocol message observed in transit.
#[derive(Debug)]
pub struct WireMessage {
    pub tag: u8,
    pub payload: Vec<u8>,
}

impl View for WireMessage {
    type V = FrameModel;

    open spec fn view(&self) -> FrameModel {
        FrameModel { tag: self.tag, payload: self.payload@ }
    }
}

impl WireMessage {
    /// Bytes the message takes on the wire: header and payload.
    pub fn total_wire_size(&self) -> (r: usize)
        requires
            self.payload@.len() + 5 <= usize::MAX,
        ensures
            r == self.payload@.len() + 5,
    {
        self.payload.len() + HEADER_LEN
    }
}

/// Decodes the frame at the front of `buffer`: how many bytes it takes and the
/// frame, `(0, None)` while the frame is incomplete, or a decode error if the
/// length field is below four.
pub fn try_parse_wire_message(buffer: &[u8]) -> (r: Result<(usize, Option<WireMessage>), ConnectionPoolerError>)
    ensures
        match r {
            Ok((n, None)) => n == 0 && decode_one(buffer@) is Incomplete,
            Ok((n, Some(m))) => decode_one(buffer@) == Decoded::Frame(m@, n as int),
            Err(e) => e == ConnectionPoolerError::DecodeError && decode_one(buffer@) is Malformed,
        },
{
    let buffer_len = buffer.len();
    if buffer_len < HEADER_LEN {
        return Ok((0, None));
    }
    let message_type = buffer[0];
    let message_length: u64 = buffer[1] as u64 * 16777216 + buffer[2] as u64 * 65536
        + buffer[3] as u64 * 256 + buffer[4] as u64;
    if message_length < 4 {
        return Err(ConnectionPoolerError::DecodeError);
    }
    if (buffer_len as u64) - 1 < message_length {
        return Ok((0, None));
    }
    let total_message_size: usize = 1 + message_length as usize;
    let payload = slice_to_vec(slice_subrange(buffer, HEADER_LEN, total_message_size));
    let message = WireMessage { tag: message_type, payload };
    Ok((total_message_size, Some(message)))
}

/// The frames of a vector of messages, in order.
pub open spec fn frames_of(ms: Seq<WireMessage>) -> Seq<FrameModel> {
    ms.map_values(|m: WireMessage| m@)
}

/// `decode_all` takes one step of `decode_one` at a time.
proof fn lemma_decode_all_step(b: Seq<u8>)
    ensures
        match decode_one(b) {
            Decoded::Incomplete => decode_all(b) == Some((Seq::<FrameModel>::empty(), b)),
            Decoded::Malformed => decode_all(b) is None,
            Decoded::Frame(f, n) => 5 <= n <= b.len() && decode_all(b) == prepend(
                seq![f],
                decode_all(b.skip(n)),
            ),
        },
{
}

/// Putting frames in front twice is putting them in front once, joined.
proof fn lemma_prepend_twice(
    fs: Seq<FrameModel>,
    gs: Seq<FrameModel>,
    o: Option<(Seq<FrameModel>, Seq<u8>)>,
)
    ensures
        prepend(fs, prepend(gs, o)) == prepend(fs + gs, o),
{
    match o {
        Some((hs, r)) => {
            assert(fs + (gs + hs) =~= (fs + gs) + hs);
        },
        None => {},
    }
}

/// Decodes every complete frame in `buffer`, in stream order, and returns them
/// with the residue: the trailing bytes of a frame not yet complete. A header
/// whose length field is below four is a decode error.
pub fn try_parse_wire_messages(buffer: &[u8]) -> (r: Result<(Vec<WireMessage>, Vec<u8>), ConnectionPoolerError>)
    ensures
        match r {
            Ok((ms, residue)) => decode_all(buffer@) == Some((frames_of(ms@), residue@)),
            Err(e) => e == ConnectionPoolerError::DecodeError && decode_all(buffer@) is None,
        },
{
    let mut messages: Vec<WireMessage> = Vec::new();
    let mut pos: usize = 0;
    let len = buffer.len();
    proof {
        assert(buffer@.skip(0) =~= buffer@);
        assert(frames_of(messages@) =~= Seq::<FrameModel>::empty());
        lemma_prepend_empty(decode_all(buffer@));
    }
    loop
        invariant
            len == buffer@.len(),
            pos <= len,
            prepend(frames_of(messages@), decode_all(buffer@.skip(pos as int))) == decode_all(buffer@),
        decreases len - pos,
    {
        let tail = slice_subrange(buffer, pos, len);
        assert(tail@ =~= buffer@.skip(pos as int));
        proof {
            lemma_decode_all_step(tail@);
        }
        match try_parse_wire_message(tail) {
            Err(e) => {
                return Err(e);
            },
            Ok((_, None)) => {
                return Ok((messages, slice_to_vec(tail)));
            },
            Ok((n, Some(m))) => {
                proof {
                    lemma_prepend_twice(frames_of(messages@), seq![m@], decode_all(tail@.skip(n as int)));
                    assert(tail@.skip(n as int) =~= buffer@.skip(pos + n));
                }
                let ghost old_messages = messages@;
                messages.push(m);
                proof {
                    assert(frames_of(messages@) =~= frames_of(old_messages) + seq![m@]);
                }
                pos = pos + n;
            },
        }
    }
}

/// Putting no frames in front changes nothing.
proof fn lemma_prepend_empty(o: Option<(Seq<FrameModel>, Seq<u8>)>)
    ensures
        prepend(Seq::empty(), o) == o,
{
    match o {
        Some((fs, r)) => {
            assert(Seq::<FrameModel>::empty() + fs =~= fs);
        },
        None => {},
    }
}

/// Encoding then decoding a frame gives it back: one frame with the same tag
/// and payload, taking `5 + len(payload)` bytes, and nothing left over.
pub proof fn lemma_encode_decode(tag: u8, payload: Seq<u8>)
    requires
        payload.len() + 4 <= u32::MAX,
    ensures
        decode_one(encode(tag, payload)) == Decoded::Frame(
            FrameModel { tag, payload },
            5 + payload.len() as int,
        ),
        decode_all(encode(tag, payload)) == Some(
            (seq![FrameModel { tag, payload }], Seq::<u8>::empty()),
        ),
{
    let b = encode(tag, payload);
    let n = 4 + payload.len();
    assert(length_field(b) == n);
    assert(b.subrange(5, frame_size(b)) =~= payload);
    lemma_decode_all_step(b);
    assert(b.skip(frame_size(b)) =~= Seq::<u8>::empty());
    lemma_decode_all_step(Seq::<u8>::empty());
    assert(seq![FrameModel { tag, payload }] + Seq::<FrameModel>::empty() =~= seq![FrameModel { tag, payload }]);
}

/// Decoding a buffer in two reads, split at any offset, with the residue of the
/// first read carried in front of the second, gives the frames and residue of
/// decoding it in one read.
pub proof fn lemma_split_reads(b: Seq<u8>, k: int)
    requires
        0 <= k <= b.len(),
        decode_all(b) is Some,
    ensures
        decode_all(b.take(k)) is Some,
        ({
            let (fs1, r1) = decode_all(b.take(k)).unwrap();
            prepend(fs1, decode_all(r1 + b.skip(k))) == decode_all(b)
        }),
    decreases b.len(),
{
    let p = b.take(k);
    lemma_decode_all_step(b);
    lemma_decode_all_step(p);
    if k < 5 || k < frame_size(b) {
        assert(p + b.skip(k) =~= b);
        lemma_prepend_empty(decode_all(b));
    } else {
        let t = frame_size(b);
        let rest = b.skip(t);
        assert(length_field(p) == length_field(b));
        assert(frame_at(p) == frame_at(b)) by {
            assert(p.subrange(5, t) =~= b.subrange(5, t));
        }
        assert(p.skip(t) =~= rest.take(k - t));
        assert(rest.skip(k - t) =~= b.skip(k));
        lemma_split_reads(rest, k - t);
        let (fs1, r1) = decode_all(rest.take(k - t)).unwrap();
        lemma_prepend_twice(seq![frame_at(b)], fs1, decode_all(r1 + b.skip(k)));
    }
}

} // verus!
