use vstd::prelude::*;
use vstd::slice::slice_to_vec;

use crate::errors::ConnectionPoolerError;
use crate::pool::Outcome;
use crate::wire::{
    decode_all, frames_of, lemma_split_reads, prepend, try_parse_wire_messages, FrameModel,
    WireMessage,
};

verus! {

/// How one directional pump stopped.
#[derive(Debug, Clone, Copy, PartialEq, Eq, Structural)]
pub enum PumpEnd {
    /// Its source reported end of stream.
    EndOfStream,
    /// A read or a write failed.
    IoError,
}

/// What a pump does with one chunk it has read: the bytes to write to the
/// opposite side, and the frames it observed or the decode error it met.
pub struct PumpStep {
    pub forward: Vec<u8>,
    pub frames: Result<Vec<WireMessage>, ConnectionPoolerError>,
}

/// The decoding state of one direction of one session: the residue, bytes of
/// a frame not yet complete, carried from one read to the next.
pub struct Pump {
    residue: Vec<u8>,
}

/// The frames observed by a pump that starts with `residue` and reads `chunks`
/// in turn, and its final residue; `None` once a decode error was met.
pub open spec fn pump_frames(residue: Seq<u8>, chunks: Seq<Seq<u8>>) -> Option<(Seq<FrameModel>, Seq<u8>)>
    decreases chunks.len(),
{
    if chunks.len() == 0 {
        Some((Seq::empty(), residue))
    } else {
        match decode_all(residue + chunks[0]) {
            Some((fs, r)) => prepend(fs, pump_frames(r, chunks.drop_first())),
            None => None,
        }
    }
}

impl View for Pump {
    type V = Seq<u8>;

    closed spec fn view(&self) -> Seq<u8> {
        self.residue@
    }
}

impl Pump {
    /// A pump that has read nothing yet.
    pub fn new() -> (r: Pump)
        ensures
            r@ == Seq::<u8>::empty(),
    {
        Pump { residue: Vec::new() }
    }

    /// The number of residue bytes carried to the next read.
    pub fn residue_len(&self) -> (r: usize)
        ensures
            r == self@.len(),
    {
        self.residue.len()
    }

    /// Handles one chunk read from the source. The chunk is forwarded exactly as
    /// read; the frames are decoded from the residue followed by the chunk, and
    /// what is left of an incomplete frame becomes the new residue. After a
    /// decode error the stream cannot be framed, and decoding starts afresh
    /// with the next chunk.
    pub fn on_chunk(&mut self, chunk: &[u8]) -> (r: PumpStep)
        requires
            old(self)@.len() + chunk@.len() <= usize::MAX,
        ensures
            r.forward@ == chunk@,
            match decode_all(old(self)@ + chunk@) {
                Some((fs, rest)) => r.frames is Ok && frames_of(r.frames->Ok_0@) == fs
                    && final(self)@ == rest,
                None => r.frames == Err::<Vec<WireMessage>, _>(ConnectionPoolerError::DecodeError)
                    && final(self)@ == Seq::<u8>::empty(),
            },
    {
        let mut buffer = Vec::new();
        std::mem::swap(&mut buffer, &mut self.residue);
        buffer.extend_from_slice(chunk);
        assert(buffer@ =~= old(self)@ + chunk@);
        let frames = match try_parse_wire_messages(buffer.as_slice()) {
            Ok((ms, rest)) => {
                self.residue = rest;
                Ok(ms)
            },
            Err(e) => Err(e),
        };
        PumpStep { forward: slice_to_vec(chunk), frames }
    }
}

/// Reading a stream in chunks, each decoded behind the residue of the one
/// before, observes the same frames in the same order, and leaves the same
/// residue, as decoding all of it at once.
pub proof fn lemma_pump_reads(chunks: Seq<Seq<u8>>)
    requires
        decode_all(chunks.flatten()) is Some,
    ensures
        pump_frames(Seq::empty(), chunks) == decode_all(chunks.flatten()),
{
    let e = Seq::<u8>::empty();
    if chunks.len() == 0 {
        assert(decode_all(e) == Some((Seq::<FrameModel>::empty(), e)));
    } else {
        assert(e + chunks.flatten() =~= chunks.flatten());
        lemma_pump_reads_from(e, chunks);
    }
}

/// `lemma_pump_reads` from any residue, for at least one chunk.
proof fn lemma_pump_reads_from(residue: Seq<u8>, chunks: Seq<Seq<u8>>)
    requires
        chunks.len() > 0,
        decode_all(residue + chunks.flatten()) is Some,
    ensures
        pump_frames(residue, chunks) == decode_all(residue + chunks.flatten()),
    decreases chunks.len(),
{
    let head = residue + chunks[0];
    let rest = chunks.drop_first();
    let b = residue + chunks.flatten();
    assert(b =~= head + rest.flatten());
    assert(b.take(head.len() as int) =~= head);
    assert(b.skip(head.len() as int) =~= rest.flatten());
    lemma_split_reads(b, head.len() as int);
    let (fs1, r1) = decode_all(head).unwrap();
    assert(pump_frames(residue, chunks) == prepend(fs1, pump_frames(r1, rest)));
    assert(prepend(fs1, decode_all(r1 + rest.flatten())) == decode_all(b));
    if rest.len() == 0 {
        assert(pump_frames(r1, rest) == Some((Seq::<FrameModel>::empty(), r1)));
        assert(rest.flatten() =~= Seq::<u8>::empty());
        assert(b =~= head);
        assert(fs1 + Seq::<FrameModel>::empty() =~= fs1);
    } else {
        lemma_pump_reads_from(r1, rest);
    }
}

/// Whether the connection can go back to the pool: it is broken if either
/// direction ended in an I/O error.
pub fn session_outcome(to_backend: PumpEnd, to_client: PumpEnd) -> (r: Outcome)
    ensures
        r == Outcome::Broken <==> (to_backend == PumpEnd::IoError || to_client == PumpEnd::IoError),
{
    if to_backend == PumpEnd::IoError || to_client == PumpEnd::IoError {
        Outcome::Broken
    } else {
        Outcome::Clean
    }
}

/// The phases of a session: it leases a connection, forwards both directions,
/// gives the connection back, and is done.
#[derive(Debug, Clone, Copy, PartialEq, Eq, Structural)]
pub enum SessionPhase {
    Leasing,
    Forwarding,
    Releasing(Outcome),
    Done,
}

/// What the session's driver reports back.
#[derive(Debug, Clone, Copy, PartialEq, Eq, Structural)]
pub enum SessionEvent {
    /// A backend connection was leased or dialed.
    Leased,
    /// No connection could be had.
    LeaseFailed,
    /// Both pumps stopped, the one towards the backend first.
    PumpsFinished(PumpEnd, PumpEnd),
    /// The connection was handed to the pool.
    Released,
}

/// What the driver is to do next.
#[derive(Debug, Clone, Copy, PartialEq, Eq, Structural)]
pub enum SessionAction {
    /// Run the two pumps and report when both have stopped.
    StartPumps,
    /// Close the client's transport; there is no connection to release.
    CloseClient,
    /// Release the connection with this outcome.
    Release(Outcome),
    /// Free what is left of the session.
    Free,
    /// The event does not belong to this phase: nothing to do.
    Ignore,
}

/// The next phase of a session and the action to take on an event.
pub fn session_step(phase: SessionPhase, event: SessionEvent) -> (r: (SessionPhase, SessionAction))
    ensures
        phase == SessionPhase::Leasing && event == SessionEvent::Leased ==> r == (
        SessionPhase::Forwarding,
        SessionAction::StartPumps,
        ),
        phase == SessionPhase::Leasing && event == SessionEvent::LeaseFailed ==> r == (
        SessionPhase::Done,
        SessionAction::CloseClient,
        ),
        forall|a: PumpEnd, b: PumpEnd|
            phase == SessionPhase::Forwarding && event == SessionEvent::PumpsFinished(a, b) ==> {
                let o = if a == PumpEnd::IoError || b == PumpEnd::IoError {
                    Outcome::Broken
                } else {
                    Outcome::Clean
                };
                r == (SessionPhase::Releasing(o), SessionAction::Release(o))
            },
        phase is Releasing && event == SessionEvent::Released ==> r == (
        SessionPhase::Done,
        SessionAction::Free,
        ),
        !(phase == SessionPhase::Leasing && (event == SessionEvent::Leased || event
            == SessionEvent::LeaseFailed)) && !(phase == SessionPhase::Forwarding
            && event is PumpsFinished) && !(phase is Releasing && event == SessionEvent::Released)
            ==> r == (phase, SessionAction::Ignore),
{
    match (phase, event) {
        (SessionPhase::Leasing, SessionEvent::Leased) => (
            SessionPhase::Forwarding,
            SessionAction::StartPumps,
        ),
        (SessionPhase::Leasing, SessionEvent::LeaseFailed) => (
            SessionPhase::Done,
            SessionAction::CloseClient,
        ),
        (SessionPhase::Forwarding, SessionEvent::PumpsFinished(a, b)) => {
            let o = session_outcome(a, b);
            (SessionPhase::Releasing(o), SessionAction::Release(o))
        },
        (SessionPhase::Releasing(_), SessionEvent::Released) => (
            SessionPhase::Done,
            SessionAction::Free,
        ),
        _ => (phase, SessionAction::Ignore),
    }
}

} // verus!
