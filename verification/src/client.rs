//! The two exchanges of a session, authentication and command execution,
//! as decisions on what the peer sent.
//!
//! The session does no I/O. It gives the frames to write, says how many
//! bytes to read, and takes what was read; its owner moves the bytes.

use crate::error::{Fault, RconError};
use crate::packet::{
    decode_frame, encode, framable, lemma_round_trip, PacketView, RconPacket, RconPacketType,
    MAX_BODY_LEN,
};
use crate::reader::{
    feed_model, fits, frame_end, is_frame, joined, lemma_frame_of_packet, no_empty_chunk, pending,
    FrameReader, Progress, Step,
};
use vstd::prelude::*;
use vstd::string::StringExecFns;
use vstd::utf8::encode_utf8;

verus! {

/// The id that a request carries, and that its replies echo.
pub const REQUEST_ID: i32 = 1;

/// The id of the empty request that follows a command. Its echo marks the
/// end of the command's output.
pub const SENTINEL_ID: i32 = 2;

/// The id by which the peer refuses a password.
pub const REFUSED_ID: i32 = -1;

/// What the reply to a password means: a reply of another type is
/// unexpected; the refusal id says that the password was wrong; any id but
/// the request's belongs to some other request.
pub open spec fn auth_verdict(resp: PacketView) -> Result<(), Fault> {
    if resp.kind != RconPacketType::AuthResponse.code() {
        Err(Fault::UnexpectedType { resp, expected: RconPacketType::AuthResponse.code() })
    } else if resp.id == REFUSED_ID {
        Err(Fault::AuthFailed)
    } else if resp.id != REQUEST_ID {
        Err(Fault::UnexpectedId { resp })
    } else {
        Ok(())
    }
}

/// The echo of the sentinel: its id, and nothing in the body.
pub open spec fn is_sentinel(resp: PacketView) -> bool {
    resp.id == SENTINEL_ID && resp.body.len() == 0
}

/// A piece of a command's output.
pub open spec fn is_fragment(resp: PacketView) -> bool {
    resp.kind == RconPacketType::ResponseValue.code() && resp.id == REQUEST_ID
}

/// The model of the state of a command's output after a reply.
pub enum Reassembly {
    /// The output so far; more is to come.
    More(Seq<char>),
    /// The exchange has ended, in the whole output or in a fault.
    Finished(Result<Seq<char>, Fault>),
}

/// What one reply does to the output gathered so far: the sentinel's echo
/// ends it; a reply of another type, or to another request, fails the
/// exchange and the output is lost; a fragment is appended.
pub open spec fn absorb(output: Seq<char>, resp: PacketView) -> Reassembly {
    if is_sentinel(resp) {
        Reassembly::Finished(Ok(output))
    } else if resp.kind != RconPacketType::ResponseValue.code() {
        Reassembly::Finished(
            Err(Fault::UnexpectedType { resp, expected: RconPacketType::ResponseValue.code() }),
        )
    } else if resp.id != REQUEST_ID {
        Reassembly::Finished(Err(Fault::UnexpectedId { resp }))
    } else {
        Reassembly::More(output + resp.body)
    }
}

/// The replies taken one after the other, up to the first that ends the
/// exchange.
pub open spec fn reassemble(output: Seq<char>, replies: Seq<PacketView>) -> Reassembly
    decreases replies.len(),
{
    if replies.len() == 0 {
        Reassembly::More(output)
    } else {
        match absorb(output, replies[0]) {
            Reassembly::More(longer) => reassemble(longer, replies.drop_first()),
            finished => finished,
        }
    }
}

/// The bodies of the replies, in the order of arrival.
pub open spec fn bodies(replies: Seq<PacketView>) -> Seq<char>
    decreases replies.len(),
{
    if replies.len() == 0 {
        Seq::empty()
    } else {
        replies[0].body + bodies(replies.drop_first())
    }
}

/// The model of a session after a read.
pub enum Turn<T> {
    /// Read again; these are the bytes of the frame that is arriving and
    /// the output gathered so far.
    Continue { buffered: Seq<u8>, output: Seq<char> },
    /// The exchange has ended.
    Finished(Result<T, Fault>),
}

/// What a read does while the reply to a password is awaited: the frame
/// grows until it is complete; a fault of the frame ends the exchange; a
/// packet ends it in what the packet means.
pub open spec fn auth_turn(buffered: Seq<u8>, output: Seq<char>, chunk: Seq<u8>) -> Turn<()> {
    match feed_model(buffered, chunk) {
        Step::Pending(all) => Turn::Continue { buffered: all, output },
        Step::Settled(Err(fault)) => Turn::Finished(Err(fault)),
        Step::Settled(Ok(resp)) => Turn::Finished(auth_verdict(resp)),
    }
}

/// What a read does while the output of a command is awaited: the frame
/// grows until it is complete; a fault of the frame ends the exchange; a
/// packet is taken into the output, and the next frame begins, or it ends
/// the exchange.
pub open spec fn exec_turn(buffered: Seq<u8>, output: Seq<char>, chunk: Seq<u8>) -> Turn<
    Seq<char>,
> {
    match feed_model(buffered, chunk) {
        Step::Pending(all) => Turn::Continue { buffered: all, output },
        Step::Settled(Err(fault)) => Turn::Finished(Err(fault)),
        Step::Settled(Ok(resp)) => match absorb(output, resp) {
            Reassembly::More(longer) => Turn::Continue { buffered: Seq::empty(), output: longer },
            Reassembly::Finished(end) => Turn::Finished(end),
        },
    }
}

/// The reads of the reply to a password taken one after the other, up to
/// the first that ends the exchange.
pub open spec fn auth_run(buffered: Seq<u8>, output: Seq<char>, chunks: Seq<Seq<u8>>) -> Turn<()>
    decreases chunks.len(),
{
    if chunks.len() == 0 {
        Turn::Continue { buffered, output }
    } else {
        match auth_turn(buffered, output, chunks[0]) {
            Turn::Continue { buffered: next, output: same } => auth_run(
                next,
                same,
                chunks.drop_first(),
            ),
            finished => finished,
        }
    }
}

/// The reads of a command's output taken one after the other, up to the
/// first that ends the exchange.
pub open spec fn exec_run(buffered: Seq<u8>, output: Seq<char>, chunks: Seq<Seq<u8>>) -> Turn<
    Seq<char>,
>
    decreases chunks.len(),
{
    if chunks.len() == 0 {
        Turn::Continue { buffered, output }
    } else {
        match exec_turn(buffered, output, chunks[0]) {
            Turn::Continue { buffered: next, output: longer } => exec_run(
                next,
                longer,
                chunks.drop_first(),
            ),
            finished => finished,
        }
    }
}

/// The reads that follow a frame, from the state in which the frame's
/// packet left the output.
pub open spec fn after_frame(state: Reassembly, later: Seq<Seq<u8>>) -> Turn<Seq<char>> {
    match state {
        Reassembly::More(output) => exec_run(Seq::empty(), output, later),
        Reassembly::Finished(end) => Turn::Finished(end),
    }
}

/// The state of the output as a state of the session between two frames.
pub open spec fn between_frames(state: Reassembly) -> Turn<Seq<char>> {
    match state {
        Reassembly::More(output) => Turn::Continue { buffered: Seq::empty(), output },
        Reassembly::Finished(end) => Turn::Finished(end),
    }
}

/// The pieces in which a stream delivers a sequence of packets: the frame
/// of each packet, cut into pieces of which none is empty.
pub open spec fn delivers(cuts: Seq<Seq<Seq<u8>>>, replies: Seq<PacketView>) -> bool {
    &&& cuts.len() == replies.len()
    &&& forall|i: int|
        0 <= i < replies.len() ==> {
            &&& framable(#[trigger] replies[i])
            &&& cuts[i].len() > 0
            &&& no_empty_chunk(cuts[i])
            &&& joined(cuts[i]) == encode(replies[i])
        }
}

/// The pieces of all the frames, in the order of arrival.
pub open spec fn all_chunks(cuts: Seq<Seq<Seq<u8>>>) -> Seq<Seq<u8>>
    decreases cuts.len(),
{
    if cuts.len() == 0 {
        Seq::empty()
    } else {
        cuts[0] + all_chunks(cuts.drop_first())
    }
}

/// The model of the result of an authentication.
pub open spec fn auth_outcome(r: Result<(), RconError>) -> Result<(), Fault> {
    match r {
        Ok(_) => Ok(()),
        Err(e) => Err(e@),
    }
}

/// The model of the result of a command.
pub open spec fn exec_outcome(r: Result<String, RconError>) -> Result<Seq<char>, Fault> {
    match r {
        Ok(text) => Ok(text@),
        Err(e) => Err(e@),
    }
}

/// The model of what taking a reply in gave, with the output after it.
pub open spec fn absorbed(r: Option<Result<(), RconError>>, output: Seq<char>) -> Reassembly {
    match r {
        None => Reassembly::More(output),
        Some(Ok(_)) => Reassembly::Finished(Ok(output)),
        Some(Err(e)) => Reassembly::Finished(Err(e@)),
    }
}

/// The model of what a read gave while the reply to a password was
/// awaited, with the state of the session after it.
pub open spec fn auth_turned(
    r: Option<Result<(), RconError>>,
    buffered: Seq<u8>,
    output: Seq<char>,
) -> Turn<()> {
    match r {
        None => Turn::Continue { buffered, output },
        Some(end) => Turn::Finished(auth_outcome(end)),
    }
}

/// The model of what a read gave while the output of a command was
/// awaited, with the state of the session after it.
pub open spec fn exec_turned(
    r: Option<Result<String, RconError>>,
    buffered: Seq<u8>,
    output: Seq<char>,
) -> Turn<Seq<char>> {
    match r {
        None => Turn::Continue { buffered, output },
        Some(end) => Turn::Finished(exec_outcome(end)),
    }
}

/// Judges the reply to a password.
pub fn check_auth_response(resp: RconPacket) -> (r: Result<(), RconError>)
    ensures
        auth_outcome(r) == auth_verdict(resp@),
{
    let expected: i32 = RconPacketType::AuthResponse.to_i32();
    if resp.p_type != expected {
        return Err(RconError::InvalidResponseType { resp, expected });
    }
    if resp.p_id == REFUSED_ID {
        return Err(RconError::AuthFailed);
    }
    if resp.p_id != REQUEST_ID {
        return Err(RconError::InvalidResponse { resp });
    }
    Ok(())
}

/// Takes one reply to a command into the output gathered so far. `None`
/// says that the reply was a fragment and that more is to come; then the
/// fragment has been appended. Otherwise the exchange has ended, and
/// `output` is left as it was.
pub fn absorb_response(output: &mut String, resp: RconPacket) -> (r: Option<
    Result<(), RconError>,
>)
    ensures
        absorbed(r, final(output)@) == absorb(old(output)@, resp@),
        r is Some ==> final(output)@ == old(output)@,
{
    if resp.p_id == SENTINEL_ID && resp.body.as_str().is_empty() {
        return Some(Ok(()));
    }
    let expected: i32 = RconPacketType::ResponseValue.to_i32();
    if resp.p_type != expected {
        return Some(Err(RconError::InvalidResponseType { resp, expected }));
    }
    if resp.p_id != REQUEST_ID {
        return Some(Err(RconError::InvalidResponse { resp }));
    }
    output.append(resp.body.as_str());
    None
}

/// A session with a peer: the frame that is arriving and the output of the
/// command that is running.
#[derive(Debug)]
pub struct RconClient {
    reader: FrameReader,
    output: String,
}

impl RconClient {
    /// The bytes of the frame that is arriving.
    pub closed spec fn buffered(&self) -> Seq<u8> {
        self.reader.buffered()
    }

    /// The output gathered so far.
    pub closed spec fn output(&self) -> Seq<char> {
        self.output@
    }

    /// A session at rest waits for bytes.
    pub closed spec fn wf(&self) -> bool {
        self.reader.wf()
    }

    /// Nothing has arrived and nothing is gathered.
    pub open spec fn fresh(&self) -> bool {
        self.wf() && self.buffered() == Seq::<u8>::empty() && self.output() == Seq::<char>::empty()
    }

    /// A session in which nothing has happened yet.
    pub fn new() -> (client: Self)
        ensures
            client.fresh(),
    {
        RconClient { reader: FrameReader::new(), output: String::new() }
    }

    /// Begins an authentication. The result is the frame to write: the
    /// password in a packet of type `Auth` under the request id. What is
    /// read after that goes to [`RconClient::auth_reply`].
    pub fn auth(&mut self, password: &str) -> (request: Vec<u8>)
        requires
            encode_utf8(password@).len() <= MAX_BODY_LEN,
        ensures
            final(self).fresh(),
            request@ == encode(
                PacketView {
                    id: REQUEST_ID,
                    kind: RconPacketType::Auth.code(),
                    body: password@,
                },
            ),
    {
        self.reader = FrameReader::new();
        self.output = String::new();
        RconPacket::new(REQUEST_ID, RconPacketType::Auth.to_i32(), password).as_bytes()
    }

    /// Begins a command. The result is the two frames to write, one after
    /// the other: the command under the request id, then an empty packet of
    /// type `ResponseValue` under the sentinel id. The peer answers in
    /// order, so the echo of the second comes after the last piece of the
    /// output. What is read after that goes to [`RconClient::exec_reply`].
    pub fn exec(&mut self, message: &str) -> (requests: (Vec<u8>, Vec<u8>))
        requires
            encode_utf8(message@).len() <= MAX_BODY_LEN,
        ensures
            final(self).fresh(),
            requests.0@ == encode(
                PacketView {
                    id: REQUEST_ID,
                    kind: RconPacketType::ExecCommand.code(),
                    body: message@,
                },
            ),
            requests.1@ == encode(
                PacketView {
                    id: SENTINEL_ID,
                    kind: RconPacketType::ResponseValue.code(),
                    body: Seq::empty(),
                },
            ),
    {
        self.reader = FrameReader::new();
        self.output = String::new();
        let payload = RconPacket::new(REQUEST_ID, RconPacketType::ExecCommand.to_i32(), message);
        let end_packet = RconPacket {
            p_id: SENTINEL_ID,
            p_type: RconPacketType::ResponseValue.to_i32(),
            body: String::new(),
        };
        proof {
            assert(encode_utf8(Seq::<char>::empty()) =~= Seq::<u8>::empty()) by {
                reveal_with_fuel(encode_utf8, 1);
            }
        }
        (payload.as_bytes(), end_packet.as_bytes())
    }

    /// The number of bytes to ask the stream for next. A chunk no longer
    /// than this always fits.
    pub fn wanted(&self) -> (n: usize)
        requires
            self.wf(),
        ensures
            n > 0,
            n == frame_end(self.buffered()) - self.buffered().len(),
            forall|chunk: Seq<u8>| chunk.len() <= n ==> fits(#[trigger] (self.buffered() + chunk)),
    {
        self.reader.wanted()
    }

    /// Takes in what one read gave while the reply to a password is
    /// awaited. `None` asks for another read. Otherwise the exchange has
    /// ended: in a fault of the frame, or in what the reply means.
    pub fn auth_reply(&mut self, chunk: &[u8]) -> (r: Option<Result<(), RconError>>)
        requires
            old(self).wf(),
            fits(old(self).buffered() + chunk@),
        ensures
            final(self).wf(),
            auth_turned(r, final(self).buffered(), final(self).output()) == auth_turn(
                old(self).buffered(),
                old(self).output(),
                chunk@,
            ),
            r is Some ==> final(self).fresh(),
    {
        match self.reader.feed(chunk) {
            Progress::NeedMore => None,
            Progress::Done(Err(e)) => {
                self.output = String::new();
                Some(Err(e))
            },
            Progress::Done(Ok(resp)) => {
                self.output = String::new();
                Some(check_auth_response(resp))
            },
        }
    }

    /// Takes in what one read gave while the output of a command is
    /// awaited. `None` asks for another read: the frame is not complete, or
    /// it held a fragment, which has been appended to the output.
    /// Otherwise the exchange has ended: in the whole output, or in a
    /// fault, and then nothing of the output is given.
    pub fn exec_reply(&mut self, chunk: &[u8]) -> (r: Option<Result<String, RconError>>)
        requires
            old(self).wf(),
            fits(old(self).buffered() + chunk@),
        ensures
            final(self).wf(),
            exec_turned(r, final(self).buffered(), final(self).output()) == exec_turn(
                old(self).buffered(),
                old(self).output(),
                chunk@,
            ),
            r is Some ==> final(self).fresh(),
    {
        match self.reader.feed(chunk) {
            Progress::NeedMore => None,
            Progress::Done(Err(e)) => {
                self.output = String::new();
                Some(Err(e))
            },
            Progress::Done(Ok(resp)) => {
                match absorb_response(&mut self.output, resp) {
                    None => None,
                    Some(Err(e)) => {
                        self.output = String::new();
                        Some(Err(e))
                    },
                    Some(Ok(_)) => {
                        let mut text = String::new();
                        std::mem::swap(&mut self.output, &mut text);
                        Some(Ok(text))
                    },
                }
            },
        }
    }
}

/// The output of a command is what its fragments hold, in the order of
/// arrival: where every reply before the sentinel's echo is a fragment,
/// the exchange ends with the echo, in the bodies laid end to end after
/// what was gathered before.
pub proof fn lemma_reassembly(output: Seq<char>, fragments: Seq<PacketView>, last: PacketView)
    requires
        forall|i: int| 0 <= i < fragments.len() ==> is_fragment(#[trigger] fragments[i]),
        is_sentinel(last),
    ensures
        reassemble(output, fragments.push(last)) == Reassembly::Finished(
            Ok(output + bodies(fragments)),
        ),
    decreases fragments.len(),
{
    let replies = fragments.push(last);
    if fragments.len() == 0 {
        assert(replies[0] == last);
        assert(output + bodies(fragments) =~= output);
    } else {
        let first = fragments[0];
        let rest = fragments.drop_first();
        assert(replies[0] == first);
        assert(is_fragment(first));
        assert(replies.drop_first() =~= rest.push(last));
        assert forall|i: int| 0 <= i < rest.len() implies is_fragment(#[trigger] rest[i]) by {
            assert(rest[i] == fragments[i + 1]);
        }
        lemma_reassembly(output + first.body, rest, last);
        assert((output + first.body) + bodies(rest) =~= output + bodies(fragments));
    }
}

/// An authentication ends in what the peer's reply means, however the
/// stream cuts its frame.
pub proof fn lemma_auth_any_fragmentation(
    buffered: Seq<u8>,
    output: Seq<char>,
    chunks: Seq<Seq<u8>>,
    resp: PacketView,
)
    requires
        chunks.len() > 0,
        no_empty_chunk(chunks),
        is_frame(buffered + joined(chunks)),
        decode_frame(buffered + joined(chunks)) == Ok::<PacketView, Fault>(resp),
    ensures
        auth_run(buffered, output, chunks) == Turn::Finished(auth_verdict(resp)),
    decreases chunks.len(),
{
    let rest = chunks.drop_first();
    let all = buffered + chunks[0];
    let whole = buffered + joined(chunks);
    assert(whole =~= all + joined(rest));
    if rest.len() == 0 {
        assert(all =~= whole);
    } else {
        assert(rest[0].len() > 0);
        assert(joined(rest).len() >= rest[0].len());
        if all.len() >= 4 {
            assert(all.subrange(0, 4) =~= whole.subrange(0, 4));
        }
        assert(pending(all));
        assert(no_empty_chunk(rest)) by {
            assert forall|i: int| 0 <= i < rest.len() implies (#[trigger] rest[i]).len() > 0 by {
                assert(rest[i] == chunks[i + 1]);
            }
        }
        lemma_auth_any_fragmentation(all, output, rest, resp);
    }
}

/// The peer's answer to a password decides the authentication: the echo
/// of the request's id in an `AuthResponse` accepts it, the refusal id in
/// an `AuthResponse` is a failed authentication and no other error,
/// however the stream cuts the frame.
pub proof fn lemma_auth_answer(resp: PacketView, chunks: Seq<Seq<u8>>)
    requires
        framable(resp),
        resp.kind == RconPacketType::AuthResponse.code(),
        chunks.len() > 0,
        no_empty_chunk(chunks),
        joined(chunks) == encode(resp),
    ensures
        resp.id == REQUEST_ID ==> auth_run(Seq::empty(), Seq::empty(), chunks) == Turn::Finished(
            Ok::<(), Fault>(()),
        ),
        resp.id == REFUSED_ID ==> auth_run(Seq::empty(), Seq::empty(), chunks) == Turn::Finished(
            Err::<(), Fault>(Fault::AuthFailed),
        ),
{
    assert(Seq::<u8>::empty() + joined(chunks) =~= encode(resp));
    lemma_frame_of_packet(resp);
    lemma_round_trip(resp);
    lemma_auth_any_fragmentation(Seq::empty(), Seq::empty(), chunks, resp);
}

/// While the pieces of one frame arrive, the session waits; with the last
/// piece it takes the packet in, and goes on with the pieces that follow.
pub proof fn lemma_exec_one_frame(
    buffered: Seq<u8>,
    output: Seq<char>,
    chunks: Seq<Seq<u8>>,
    later: Seq<Seq<u8>>,
    resp: PacketView,
)
    requires
        chunks.len() > 0,
        no_empty_chunk(chunks),
        is_frame(buffered + joined(chunks)),
        decode_frame(buffered + joined(chunks)) == Ok::<PacketView, Fault>(resp),
    ensures
        exec_run(buffered, output, chunks + later) == after_frame(absorb(output, resp), later),
    decreases chunks.len(),
{
    let rest = chunks.drop_first();
    let all = buffered + chunks[0];
    let whole = buffered + joined(chunks);
    let reads = chunks + later;
    assert(reads[0] == chunks[0]);
    assert(reads.drop_first() =~= rest + later);
    assert(whole =~= all + joined(rest));
    if rest.len() == 0 {
        assert(all =~= whole);
        assert(rest + later =~= later);
    } else {
        assert(rest[0].len() > 0);
        assert(joined(rest).len() >= rest[0].len());
        if all.len() >= 4 {
            assert(all.subrange(0, 4) =~= whole.subrange(0, 4));
        }
        assert(pending(all));
        assert(no_empty_chunk(rest)) by {
            assert forall|i: int| 0 <= i < rest.len() implies (#[trigger] rest[i]).len() > 0 by {
                assert(rest[i] == chunks[i + 1]);
            }
        }
        lemma_exec_one_frame(all, output, rest, later, resp);
    }
}

/// The session takes in the packets that the peer sent, however the
/// stream cuts their frames: reading the pieces gives what the packets
/// give, taken one after the other.
pub proof fn lemma_exec_any_fragmentation(
    output: Seq<char>,
    replies: Seq<PacketView>,
    cuts: Seq<Seq<Seq<u8>>>,
)
    requires
        delivers(cuts, replies),
    ensures
        exec_run(Seq::empty(), output, all_chunks(cuts)) == between_frames(
            reassemble(output, replies),
        ),
    decreases replies.len(),
{
    if replies.len() > 0 {
        let first = replies[0];
        let later = cuts.drop_first();
        assert(framable(first));
        assert(Seq::<u8>::empty() + joined(cuts[0]) =~= encode(first));
        lemma_frame_of_packet(first);
        lemma_round_trip(first);
        lemma_exec_one_frame(Seq::empty(), output, cuts[0], all_chunks(later), first);
        match absorb(output, first) {
            Reassembly::More(longer) => {
                assert(delivers(later, replies.drop_first())) by {
                    assert forall|i: int| 0 <= i < replies.drop_first().len() implies {
                        &&& framable(#[trigger] replies.drop_first()[i])
                        &&& later[i].len() > 0
                        &&& no_empty_chunk(later[i])
                        &&& joined(later[i]) == encode(replies.drop_first()[i])
                    } by {
                        assert(replies.drop_first()[i] == replies[i + 1]);
                        assert(later[i] == cuts[i + 1]);
                    }
                }
                lemma_exec_any_fragmentation(longer, replies.drop_first(), later);
            },
            Reassembly::Finished(_) => {},
        }
    }
}

/// A command gives the whole output, and nothing else: where the peer
/// sends fragments and then the echo of the sentinel, the exchange ends
/// with the echo, in the bodies of the fragments laid end to end, however
/// the stream cuts the frames.
pub proof fn lemma_exec_whole_output(
    fragments: Seq<PacketView>,
    last: PacketView,
    cuts: Seq<Seq<Seq<u8>>>,
)
    requires
        forall|i: int| 0 <= i < fragments.len() ==> is_fragment(#[trigger] fragments[i]),
        is_sentinel(last),
        delivers(cuts, fragments.push(last)),
    ensures
        exec_run(Seq::empty(), Seq::empty(), all_chunks(cuts)) == Turn::Finished(
            Ok::<Seq<char>, Fault>(bodies(fragments)),
        ),
{
    lemma_exec_any_fragmentation(Seq::empty(), fragments.push(last), cuts);
    lemma_reassembly(Seq::empty(), fragments, last);
    assert(Seq::<char>::empty() + bodies(fragments) =~= bodies(fragments));
}

/// A failure in the middle of a command's output ends the exchange in
/// that failure, whatever was gathered and whatever follows.
pub proof fn lemma_reassembly_fails(
    output: Seq<char>,
    fragments: Seq<PacketView>,
    bad: PacketView,
    after: Seq<PacketView>,
)
    requires
        forall|i: int| 0 <= i < fragments.len() ==> is_fragment(#[trigger] fragments[i]),
        !is_sentinel(bad),
        !is_fragment(bad),
    ensures
        reassemble(output, fragments.push(bad) + after) matches Reassembly::Finished(Err(_)),
        reassemble(output, fragments.push(bad) + after) == absorb(output + bodies(fragments), bad),
    decreases fragments.len(),
{
    let replies = fragments.push(bad) + after;
    if fragments.len() == 0 {
        assert(replies[0] == bad);
        assert(output + bodies(fragments) =~= output);
    } else {
        let first = fragments[0];
        let rest = fragments.drop_first();
        assert(replies[0] == first);
        assert(is_fragment(first));
        assert(replies.drop_first() =~= rest.push(bad) + after);
        assert forall|i: int| 0 <= i < rest.len() implies is_fragment(#[trigger] rest[i]) by {
            assert(rest[i] == fragments[i + 1]);
        }
        lemma_reassembly_fails(output + first.body, rest, bad, after);
        assert((output + first.body) + bodies(rest) =~= output + bodies(fragments));
    }
}

} // verus!
