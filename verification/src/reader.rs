//! Reassembling one frame from the pieces in which a stream delivers it.
//!
//! The reader does no I/O. Its owner asks how many bytes are still wanted,
//! reads at most that many from the stream, and feeds what came; the reader
//! answers that it needs more, or gives the packet or the fault.

use crate::error::{terminator_message, Fault, RconError};
use crate::packet::{
    decode_frame, decoded, encode, framable, lemma_encode_shape, lemma_round_trip, terminated,
    PacketView, RconPacket,
};
use crate::wire::{i32_from_le, lemma_i32_le_round_trip, read_i32_le};
use vstd::prelude::*;

verus! {

/// The length of the prefix that announces how long the rest of a frame is.
pub const PREFIX_LEN: usize = 4;

/// The number of bytes that the prefix of `have` announces after itself.
pub open spec fn announced(have: Seq<u8>) -> int
    recommends
        have.len() >= PREFIX_LEN,
{
    i32_from_le(have.subrange(0, 4)) as int
}

/// Where the frame that starts `have` ends: after the prefix while the
/// prefix is not all there, or where it announces a negative number; else
/// after as many more bytes as the prefix announces.
pub open spec fn frame_end(have: Seq<u8>) -> int {
    if have.len() < PREFIX_LEN || announced(have) < 0 {
        PREFIX_LEN as int
    } else {
        announced(have) + 4
    }
}

/// Bytes of a frame are still missing.
pub open spec fn pending(have: Seq<u8>) -> bool {
    have.len() < frame_end(have)
}

/// No byte lies beyond the end of the frame.
pub open spec fn fits(have: Seq<u8>) -> bool {
    have.len() <= frame_end(have)
}

/// Exactly one frame.
pub open spec fn is_frame(have: Seq<u8>) -> bool {
    have.len() == frame_end(have)
}

/// The model of what feeding a chunk does.
pub enum Step {
    /// More is needed; these are the bytes held now.
    Pending(Seq<u8>),
    /// The frame ended, in a packet or in a fault.
    Settled(Result<PacketView, Fault>),
}

/// Feeding `chunk` to a reader that holds `have`: nothing read means that
/// the stream has closed; a frame still short waits for more; a frame all
/// there is decoded.
pub open spec fn feed_model(have: Seq<u8>, chunk: Seq<u8>) -> Step {
    if chunk.len() == 0 {
        Step::Settled(Err(Fault::Transport))
    } else if pending(have + chunk) {
        Step::Pending(have + chunk)
    } else {
        Step::Settled(decode_frame(have + chunk))
    }
}

/// Feeding chunks one after the other, up to the first that settles.
pub open spec fn run(have: Seq<u8>, chunks: Seq<Seq<u8>>) -> Step
    decreases chunks.len(),
{
    if chunks.len() == 0 {
        Step::Pending(have)
    } else {
        match feed_model(have, chunks[0]) {
            Step::Pending(all) => run(all, chunks.drop_first()),
            settled => settled,
        }
    }
}

/// The chunks laid end to end.
pub open spec fn joined(chunks: Seq<Seq<u8>>) -> Seq<u8>
    decreases chunks.len(),
{
    if chunks.len() == 0 {
        Seq::empty()
    } else {
        chunks[0] + joined(chunks.drop_first())
    }
}

/// Every chunk holds a byte at least.
pub open spec fn no_empty_chunk(chunks: Seq<Seq<u8>>) -> bool {
    forall|i: int| 0 <= i < chunks.len() ==> (#[trigger] chunks[i]).len() > 0
}

/// What a reader says of a chunk.
#[derive(Debug)]
pub enum Progress {
    /// The frame is not complete: read again.
    NeedMore,
    /// The frame has ended.
    Done(Result<RconPacket, RconError>),
}

/// The model of a reader's answer, with the bytes that the reader holds
/// after it.
pub open spec fn stepped(p: Progress, buffered: Seq<u8>) -> Step {
    match p {
        Progress::NeedMore => Step::Pending(buffered),
        Progress::Done(r) => Step::Settled(decoded(r)),
    }
}

/// The bytes of one frame, as far as they have come.
#[derive(Debug)]
pub struct FrameReader {
    buf: Vec<u8>,
}

/// `std::io::Error::from`, on `ErrorKind::UnexpectedEof`: the error that
/// stands for a stream that closed in the middle of a frame. Nothing is
/// claimed of it.
#[verifier::external_body]
fn unexpected_eof() -> (e: std::io::Error) {
    std::io::Error::from(std::io::ErrorKind::UnexpectedEof)
}

impl FrameReader {
    /// The bytes held.
    pub closed spec fn buffered(&self) -> Seq<u8> {
        self.buf@
    }

    /// A reader at rest always waits for bytes.
    pub open spec fn wf(&self) -> bool {
        pending(self.buffered())
    }

    /// A reader that holds nothing.
    pub fn new() -> (reader: Self)
        ensures
            reader.wf(),
            reader.buffered() == Seq::<u8>::empty(),
    {
        FrameReader { buf: Vec::new() }
    }

    /// The number of bytes to ask the stream for: those that are missing
    /// from the prefix, then those that are missing from the frame. A chunk
    /// no longer than this always fits.
    pub fn wanted(&self) -> (n: usize)
        requires
            self.wf(),
        ensures
            n > 0,
            n == frame_end(self.buffered()) - self.buffered().len(),
            forall|chunk: Seq<u8>| chunk.len() <= n ==> fits(#[trigger] (self.buffered() + chunk)),
    {
        let have: usize = self.buf.len();
        proof {
            assert forall|chunk: Seq<u8>| chunk.len() <= frame_end(self.buffered())
                - self.buffered().len() implies fits(#[trigger] (self.buffered() + chunk)) by {
                lemma_chunk_fits(self.buffered(), chunk);
            }
        }
        if have < PREFIX_LEN {
            PREFIX_LEN - have
        } else {
            let size: i32 = read_i32_le(self.buf.as_slice(), 0);
            size as usize - (have - PREFIX_LEN)
        }
    }

    /// Takes in what one read gave. An empty chunk says that the stream has
    /// closed, which ends the frame in a transport error. Once the frame is
    /// complete it is decoded, and the reader holds nothing again.
    pub fn feed(&mut self, chunk: &[u8]) -> (p: Progress)
        requires
            old(self).wf(),
            fits(old(self).buffered() + chunk@),
        ensures
            final(self).wf(),
            stepped(p, final(self).buffered()) == feed_model(old(self).buffered(), chunk@),
            p is Done ==> final(self).buffered() == Seq::<u8>::empty(),
    {
        if chunk.len() == 0 {
            self.buf = Vec::new();
            return Progress::Done(Err(RconError::IoError(unexpected_eof())));
        }
        self.buf.extend_from_slice(chunk);
        assert(self.buf@ =~= old(self).buf@ + chunk@);
        let have: usize = self.buf.len();
        if have < PREFIX_LEN {
            return Progress::NeedMore;
        }
        let size: i32 = read_i32_le(self.buf.as_slice(), 0);
        if size >= 0 && have - PREFIX_LEN < size as usize {
            return Progress::NeedMore;
        }
        let r = RconPacket::from_frame(self.buf.as_slice());
        self.buf = Vec::new();
        Progress::Done(r)
    }
}

/// A chunk no longer than what is missing fits.
pub proof fn lemma_chunk_fits(have: Seq<u8>, chunk: Seq<u8>)
    requires
        pending(have),
        chunk.len() <= frame_end(have) - have.len(),
    ensures
        fits(have + chunk),
{
    let all = have + chunk;
    if have.len() >= PREFIX_LEN {
        assert(all.subrange(0, 4) =~= have.subrange(0, 4));
    }
}

/// Where a frame is cut does not matter. Fed in any pieces, none of them
/// empty, the bytes of one frame settle in what decoding the whole frame
/// gives, and not before the last piece.
pub proof fn lemma_any_fragmentation(have: Seq<u8>, chunks: Seq<Seq<u8>>)
    requires
        chunks.len() > 0,
        no_empty_chunk(chunks),
        is_frame(have + joined(chunks)),
    ensures
        run(have, chunks) == Step::Settled(decode_frame(have + joined(chunks))),
    decreases chunks.len(),
{
    let rest = chunks.drop_first();
    let all = have + chunks[0];
    let whole = have + joined(chunks);
    assert(whole =~= all + joined(rest));
    if rest.len() == 0 {
        assert(all =~= whole);
    } else {
        assert(rest[0].len() > 0);
        assert(joined(rest).len() >= rest[0].len());
        if all.len() >= PREFIX_LEN {
            assert(all.subrange(0, 4) =~= whole.subrange(0, 4));
        }
        assert(pending(all));
        assert(no_empty_chunk(rest)) by {
            assert forall|i: int| 0 <= i < rest.len() implies (#[trigger] rest[i]).len() > 0 by {
                assert(rest[i] == chunks[i + 1]);
            }
        }
        lemma_any_fragmentation(all, rest);
    }
}

/// A frame that does not end in two zero bytes is refused for that, with
/// the whole frame as evidence, whether or not its prefix fits its length
/// and however it is cut.
pub proof fn lemma_missing_terminator(chunks: Seq<Seq<u8>>)
    requires
        chunks.len() > 0,
        no_empty_chunk(chunks),
        is_frame(joined(chunks)),
        !terminated(joined(chunks)),
    ensures
        run(Seq::empty(), chunks) == Step::Settled(
            Err(Fault::Malformed { buffer: joined(chunks), message: terminator_message() }),
        ),
{
    assert(Seq::<u8>::empty() + joined(chunks) =~= joined(chunks));
    lemma_any_fragmentation(Seq::empty(), chunks);
}

/// The frame of a packet is one frame to the reader: its prefix announces
/// all of it and no more.
pub proof fn lemma_frame_of_packet(p: PacketView)
    requires
        framable(p),
    ensures
        is_frame(encode(p)),
{
    lemma_encode_shape(p);
    lemma_i32_le_round_trip((vstd::utf8::encode_utf8(p.body).len() + 10) as i32);
}

/// A packet comes through whole, however its frame is cut: fed in any
/// pieces, none of them empty, the frame of a packet settles in that
/// packet.
pub proof fn lemma_packet_any_fragmentation(p: PacketView, chunks: Seq<Seq<u8>>)
    requires
        framable(p),
        chunks.len() > 0,
        no_empty_chunk(chunks),
        joined(chunks) == encode(p),
    ensures
        run(Seq::empty(), chunks) == Step::Settled(Ok(p)),
{
    assert(Seq::<u8>::empty() + joined(chunks) =~= joined(chunks));
    lemma_frame_of_packet(p);
    lemma_round_trip(p);
    lemma_any_fragmentation(Seq::empty(), chunks);
}

/// Two ways of cutting the same frame give the same result.
pub proof fn lemma_fragmentation_independent(first: Seq<Seq<u8>>, second: Seq<Seq<u8>>)
    requires
        first.len() > 0,
        second.len() > 0,
        no_empty_chunk(first),
        no_empty_chunk(second),
        joined(first) == joined(second),
        is_frame(joined(first)),
    ensures
        run(Seq::empty(), first) == run(Seq::empty(), second),
{
    assert(Seq::<u8>::empty() + joined(first) =~= joined(first));
    lemma_any_fragmentation(Seq::empty(), first);
    lemma_any_fragmentation(Seq::empty(), second);
}

} // verus!
