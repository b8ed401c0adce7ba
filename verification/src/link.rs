//! The link: messages in frames on a byte stream.
//!
//! On the wire a frame is a delimiter, the encoded message with its reserved
//! bytes escaped, and a delimiter. [`Link::encode`] turns a message into one
//! frame. [`Link::decode`] takes a piece of the stream, as long or short as it
//! happens to arrive, and hands out at most one message per call; what it has
//! seen of an unfinished frame it keeps for the next call. A frame that is
//! malformed, too long, or holds no message is dropped, and the link goes on
//! behind the next delimiter: no input makes it fail.
//!
//! What the link does is said by the spec functions of this file, over the
//! state of a link as [`LinkState`] describes it. The proof functions at the
//! end state what follows: that a frame gives back its message, that frames
//! written one behind the other come out in their order, that it does not
//! matter where the stream is cut, and that a frame comes through whatever
//! went before it.

use crate::framing::{
    lemma_escape_take, lemma_first_end_concat, lemma_first_end_is_end, lemma_stream_bounds,
    lemma_stream_concat, lemma_stream_frame, lemma_stream_stops_at_end, unfinished,
};
use crate::message::{CodecError, Message};
use crate::slip::{
    decoder_escaped, decoder_header_found, escape, first_end, frame, slip_decode, slip_decoding,
    slip_encode, slip_finish, slip_stream, SlipRun, END,
};
use serial_line_ip::{Decoder, Encoder};
use vstd::prelude::*;
use vstd::slice::slice_subrange;

verus! {

/// Size of the buffer in which a link collects the payload of a frame.
pub const MAX_PACKET_SIZE: usize = 256;

/// Why a frame did not fit the output.
#[derive(Clone, Copy, Debug, PartialEq, Eq)]
pub enum SlipError {
    /// The output has no room for the delimiter that opens the frame.
    NoOutputSpaceForHeader,
    /// The output has no room for all of the escaped payload.
    NoOutputSpaceForPayload,
    /// The output has no room for the delimiter that closes the frame.
    NoOutputSpaceForEndByte,
}

/// Why a message could not be sent.
#[derive(Clone, Copy, Debug, PartialEq, Eq)]
pub enum LinkError {
    /// The message could not be encoded.
    Cbor(CodecError),
    /// The frame could not be written.
    Slip(SlipError),
}

/// What a link remembers between two calls of [`Link::decode`].
pub struct LinkState {
    /// Whether the delimiter that opens the stream has been seen.
    pub synced: bool,
    /// Whether the link stands inside an escape sequence: behind an escape
    /// marker and before the byte that belongs to it.
    pub escaped: bool,
    /// The payload seen so far of the frame that is under way.
    pub partial: Seq<u8>,
}

impl LinkState {
    /// What holds of the state of every link: the payload under way fits the
    /// buffer, and a link that waits for the delimiter that opens the stream
    /// has nothing under way.
    pub open spec fn well_formed(self) -> bool {
        &&& self.partial.len() <= MAX_PACKET_SIZE
        &&& !self.synced ==> self == unsynced()
    }
}

/// What one call of [`Link::decode`] does.
pub struct LinkStep {
    /// The state after the call.
    pub next: LinkState,
    /// How many bytes of the input the call took.
    pub consumed: nat,
    /// The message that the call hands out.
    pub message: Option<Message>,
}

/// What draining a buffer through [`Link::decode_all`] does.
pub struct LinkDrain {
    /// The state after the last byte.
    pub state: LinkState,
    /// The messages handed out, in the order of their frames.
    pub messages: Seq<Message>,
    /// How many bytes the calls took, all together.
    pub taken: nat,
}

/// The state of a link that has seen nothing: it waits for the delimiter that
/// opens the stream.
pub open spec fn unsynced() -> LinkState {
    LinkState { synced: false, escaped: false, partial: Seq::empty() }
}

/// The state of a link between two frames.
pub open spec fn boundary() -> LinkState {
    LinkState { synced: true, escaped: false, partial: Seq::empty() }
}

/// Dropping the frame under way: the input is passed over up to and with its
/// first delimiter, behind which the next frame begins. Where the input holds
/// no delimiter all of it is passed over, and the link waits for one.
pub open spec fn resync(input: Seq<u8>) -> LinkStep {
    let at = first_end(input);
    if at < input.len() {
        LinkStep { next: boundary(), consumed: at + 1, message: None }
    } else {
        LinkStep { next: unsynced(), consumed: input.len(), message: None }
    }
}

/// What the decoder of a link in state `state` makes of `input`.
pub open spec fn link_run(state: LinkState, input: Seq<u8>) -> SlipRun {
    slip_decoding(
        state.synced,
        state.escaped,
        input,
        (MAX_PACKET_SIZE - state.partial.len()) as nat,
    )
}

/// One call of [`Link::decode`] on `input` by a link in state `state`.
///
/// A link that waits for the delimiter that opens the stream takes it first;
/// input that starts with another byte is noise to it. The bytes are
/// unescaped into what room the payload seen so far has left. A delimiter
/// closes the frame: its payload is decoded, and the call ends behind the
/// delimiter. Noise, a malformed escape sequence, or a payload that outgrows
/// the room before its delimiter comes, drops the frame under way as
/// [`resync`] says. Otherwise all of the input is taken and the payload kept.
pub open spec fn link_decode(state: LinkState, input: Seq<u8>) -> LinkStep {
    let run = link_run(state, input);
    if input.len() == 0 {
        LinkStep { next: state, consumed: 0, message: None }
    } else if run.fault || (!run.end && run.read < input.len()) {
        resync(input)
    } else if run.end {
        LinkStep {
            next: boundary(),
            consumed: run.read,
            message: Message::decoded(state.partial + run.out),
        }
    } else {
        LinkStep {
            next: LinkState { synced: true, escaped: run.escaped, partial: state.partial + run.out },
            consumed: run.read,
            message: None,
        }
    }
}

/// The messages of a call, none or one, as a sequence.
pub open spec fn handed_out(message: Option<Message>) -> Seq<Message> {
    match message {
        Some(m) => seq![m],
        None => Seq::empty(),
    }
}

/// Calling [`Link::decode`] again and again, each time on what the call
/// before left of `input`, until nothing is left.
pub open spec fn link_drain(state: LinkState, input: Seq<u8>) -> LinkDrain
    decreases input.len(),
{
    let step = link_decode(state, input);
    if input.len() == 0 {
        LinkDrain { state, messages: Seq::empty(), taken: 0 }
    } else if 0 < step.consumed <= input.len() {
        let rest = link_drain(step.next, input.skip(step.consumed as int));
        LinkDrain {
            state: rest.state,
            messages: handed_out(step.message) + rest.messages,
            taken: step.consumed + rest.taken,
        }
    } else {
        LinkDrain { state: step.next, messages: handed_out(step.message), taken: step.consumed }
    }
}

/// The error with which [`Link::encode`] fails for a payload and an output of
/// the given length that the frame does not fit.
pub open spec fn refusal(payload: Seq<u8>, room: nat) -> LinkError {
    if room == 0 {
        LinkError::Slip(SlipError::NoOutputSpaceForHeader)
    } else if 1 + escape(payload).len() > room {
        LinkError::Slip(SlipError::NoOutputSpaceForPayload)
    } else {
        LinkError::Slip(SlipError::NoOutputSpaceForEndByte)
    }
}

/// The frames of `messages`, one behind the other.
pub open spec fn frames(messages: Seq<Message>) -> Seq<u8>
    decreases messages.len(),
{
    if messages.len() == 0 {
        Seq::empty()
    } else {
        frame(messages[0].encoding()) + frames(messages.skip(1))
    }
}

/// One end of a connection.
pub struct Link {
    decoder: Decoder,
    scratch_offset: usize,
    scratch: [u8; 256],
}

impl View for Link {
    type V = LinkState;

    closed spec fn view(&self) -> LinkState {
        LinkState {
            synced: decoder_header_found(self.decoder),
            escaped: decoder_escaped(self.decoder),
            partial: self.scratch@.take(self.scratch_offset as int),
        }
    }
}

/// The position of the first delimiter in `buf`, or its length.
fn find_end(buf: &[u8]) -> (at: usize)
    ensures
        at == first_end(buf@),
        at <= buf@.len(),
{
    let mut at: usize = 0;
    assert(buf@.skip(0) =~= buf@);
    while at < buf.len() && buf[at] != END
        invariant
            at <= buf@.len(),
            first_end(buf@) == at + first_end(buf@.skip(at as int)),
        decreases buf@.len() - at,
    {
        assert(buf@.skip(at as int).skip(1) =~= buf@.skip(at + 1));
        at += 1;
    }
    at
}

impl Link {
    #[verifier::type_invariant]
    spec fn inv(&self) -> bool {
        &&& self.scratch_offset <= 256
        &&& !decoder_header_found(self.decoder) ==> self.scratch_offset == 0 && !decoder_escaped(
            self.decoder,
        )
    }

    /// The state of a link whose buffer is in bounds and which, where it
    /// waits for the opening delimiter, has nothing under way, is well formed.
    proof fn lemma_well_formed(&self)
        requires
            self.inv(),
        ensures
            self@.well_formed(),
    {
        if !self@.synced {
            assert(self@.partial =~= Seq::<u8>::empty());
        }
    }

    /// A link that has seen nothing.
    pub fn new() -> (link: Link)
        ensures
            link@ == unsynced(),
    {
        let link = Link { decoder: Decoder::new(), scratch_offset: 0, scratch: [0u8; 256] };
        assert(link@.partial =~= Seq::<u8>::empty());
        link
    }

    /// Writes the frame of `msg` to the start of `output`, and returns its
    /// length. Fails where the frame is longer than `output`.
    pub fn encode(&mut self, msg: &Message, output: &mut [u8]) -> (r: Result<usize, LinkError>)
        ensures
            final(self)@ == old(self)@,
            final(self)@.well_formed(),
            final(output)@.len() == old(output)@.len(),
            r is Ok <==> frame(msg.encoding()).len() <= old(output)@.len(),
            r matches Ok(n) ==> n == frame(msg.encoding()).len() && final(output)@ == frame(
                msg.encoding(),
            ) + old(output)@.skip(n as int),
            r matches Err(e) ==> e == refusal(msg.encoding(), old(output)@.len()),
    {
        let mut encoder = Encoder::new();
        let mut buf = [0u8; 256];
        proof {
            use_type_invariant(&*self);
            self.lemma_well_formed();
            msg.lemma_encoding_len();
        }
        let size = match msg.write_bytes(&mut buf) {
            Ok(size) => size,
            Err(e) => {
                return Err(LinkError::Cbor(e));
            },
        };
        let payload = slice_subrange(buf.as_slice(), 0, size);
        assert(payload@ =~= msg.encoding());
        let (read, written) = match slip_encode(&mut encoder, payload, output) {
            Ok(totals) => totals,
            Err(_) => {
                return Err(LinkError::Slip(SlipError::NoOutputSpaceForHeader));
            },
        };
        proof {
            lemma_escape_take(payload@, read as int);
        }
        if read < size {
            return Err(LinkError::Slip(SlipError::NoOutputSpaceForPayload));
        }
        assert(payload@.take(read as int) =~= payload@);
        match slip_finish(encoder, output, written) {
            Ok(n) => {
                assert(written + n <= output.len());
                assert(output@ =~= frame(msg.encoding()) + old(output)@.skip(written + n));
                Ok(written + n)
            },
            Err(_) => Err(LinkError::Slip(SlipError::NoOutputSpaceForEndByte)),
        }
    }

    /// Takes bytes of the stream from the start of `buf`, up to the end of
    /// the first frame that ends in it, and hands out the message of that
    /// frame, if it holds one. Returns how many bytes it took.
    ///
    /// What the call does is [`link_decode`] of the link's state and `buf`.
    /// No input makes it fail.
    pub fn decode(&mut self, buf: &[u8]) -> (r: Result<(usize, Option<Message>), LinkError>)
        ensures
            final(self)@ == link_decode(old(self)@, buf@).next,
            final(self)@.well_formed(),
            r matches Ok((consumed, message)) && consumed == link_decode(old(self)@, buf@).consumed
                && message == link_decode(old(self)@, buf@).message,
    {
        proof {
            use_type_invariant(&*self);
            self.lemma_well_formed();
            lemma_decode_keeps_well_formed(self@, buf@);
        }
        if buf.len() == 0 {
            return Ok((0, None));
        }
        let ghost before = self@;
        proof {
            let room = (MAX_PACKET_SIZE - before.partial.len()) as nat;
            lemma_stream_bounds(before.escaped, buf@, room);
            lemma_stream_bounds(before.escaped, buf@.skip(1), room);
        }
        match slip_decode(&mut self.decoder, buf, &mut self.scratch, self.scratch_offset) {
            Ok((read, written, end)) => {
                let size = self.scratch_offset + written;
                assert(self.scratch@.take(size as int) =~= before.partial + link_run(
                    before,
                    buf@,
                ).out);
                if end {
                    self.scratch_offset = 0;
                    assert(self@.partial =~= Seq::<u8>::empty());
                    let message = if size == 0 {
                        proof {
                            lemma_decoded_short(self.scratch@.take(0));
                        }
                        None
                    } else {
                        match Message::from_bytes(slice_subrange(self.scratch.as_slice(), 0, size)) {
                            Ok(m) => Some(m),
                            Err(_) => None,
                        }
                    };
                    Ok((read, message))
                } else if read < buf.len() {
                    let consumed = self.resync(buf);
                    Ok((consumed, None))
                } else {
                    self.scratch_offset = size;
                    Ok((read, None))
                }
            },
            Err(_) => {
                let consumed = self.resync(buf);
                Ok((consumed, None))
            },
        }
    }

    /// Drops the frame under way and passes over `buf` up to and with its
    /// first delimiter.
    fn resync(&mut self, buf: &[u8]) -> (consumed: usize)
        ensures
            final(self)@ == resync(buf@).next,
            consumed == resync(buf@).consumed,
    {
        proof {
            use_type_invariant(&*self);
        }
        self.scratch_offset = 0;
        self.decoder = Decoder::new();
        assert(self@.partial =~= Seq::<u8>::empty());
        let at = find_end(buf);
        if at < buf.len() {
            let opening = slice_subrange(buf, at, at + 1);
            proof {
                lemma_first_end_is_end(buf@);
                assert(opening@[0] == END);
                assert(opening@.skip(1) =~= Seq::<u8>::empty());
            }
            let _ = slip_decode(&mut self.decoder, opening, &mut self.scratch, 0);
            assert(self@.partial =~= Seq::<u8>::empty());
            at + 1
        } else {
            buf.len()
        }
    }

    /// Takes all of `buf` and returns the messages of the frames that end in
    /// it, in their order.
    pub fn decode_all(&mut self, buf: &[u8]) -> (messages: Vec<Message>)
        ensures
            final(self)@ == link_drain(old(self)@, buf@).state,
            final(self)@.well_formed(),
            messages@ == link_drain(old(self)@, buf@).messages,
    {
        proof {
            use_type_invariant(&*self);
            self.lemma_well_formed();
        }
        let mut messages: Vec<Message> = Vec::new();
        let mut offset: usize = 0;
        assert(buf@.skip(0) =~= buf@);
        while offset < buf.len()
            invariant
                offset <= buf@.len(),
                self@.well_formed(),
                link_drain(old(self)@, buf@).state == link_drain(
                    self@,
                    buf@.skip(offset as int),
                ).state,
                link_drain(old(self)@, buf@).messages == messages@ + link_drain(
                    self@,
                    buf@.skip(offset as int),
                ).messages,
            decreases buf@.len() - offset,
        {
            let rest = slice_subrange(buf, offset, buf.len());
            assert(rest@ =~= buf@.skip(offset as int));
            let ghost state = self@;
            let ghost collected = messages@;
            let (size, received) = match self.decode(rest) {
                Ok(step) => step,
                Err(_) => (rest.len(), None),
            };
            proof {
                lemma_decode_advances(state, rest@);
                assert(rest@.skip(size as int) =~= buf@.skip(offset + size));
            }
            if let Some(m) = received {
                messages.push(m);
            }
            assert(messages@ =~= collected + handed_out(received));
            offset += size;
        }
        messages
    }
}

/// No message is encoded in fewer than four bytes.
proof fn lemma_decoded_short(bytes: Seq<u8>)
    requires
        bytes.len() < 4,
    ensures
        Message::decoded(bytes) is None,
{
    if Message::decoded(bytes) is Some {
        let m = Message::decoded(bytes)->0;
        m.lemma_encoding_len();
    }
}

/// A call of [`Link::decode`] on input that is not empty takes at least one
/// byte and no more than there are.
pub proof fn lemma_decode_advances(state: LinkState, input: Seq<u8>)
    requires
        input.len() > 0,
    ensures
        1 <= link_decode(state, input).consumed <= input.len(),
{
    let room = (MAX_PACKET_SIZE - state.partial.len()) as nat;
    lemma_first_end_is_end(input);
    lemma_stream_bounds(state.escaped, input, room);
    lemma_stream_bounds(state.escaped, input.skip(1), room);
}

/// Draining a buffer takes all of it.
pub proof fn lemma_drain_takes_all(state: LinkState, input: Seq<u8>)
    ensures
        link_drain(state, input).taken == input.len(),
    decreases input.len(),
{
    if input.len() > 0 {
        lemma_decode_advances(state, input);
        let step = link_decode(state, input);
        lemma_drain_takes_all(step.next, input.skip(step.consumed as int));
    }
}

/// A call leaves the state of a link well formed.
pub proof fn lemma_decode_keeps_well_formed(state: LinkState, input: Seq<u8>)
    requires
        state.well_formed(),
    ensures
        link_decode(state, input).next.well_formed(),
{
    let room = (MAX_PACKET_SIZE - state.partial.len()) as nat;
    lemma_stream_bounds(state.escaped, input, room);
    lemma_stream_bounds(state.escaped, input.skip(1), room);
}

/// A link that has seen nothing makes of the frame of a message that message,
/// and takes the frame and nothing of what follows it.
pub proof fn lemma_decode_frame(m: Message, tail: Seq<u8>)
    ensures
        link_decode(unsynced(), frame(m.encoding()) + tail) == (LinkStep {
            next: boundary(),
            consumed: frame(m.encoding()).len(),
            message: Some(m),
        }),
{
    let payload = m.encoding();
    let input = frame(payload) + tail;
    m.lemma_encoding_len();
    m.lemma_round_trip();
    lemma_stream_frame(payload, tail, MAX_PACKET_SIZE as nat);
    assert(input[0] == END);
    assert(input.skip(1) =~= escape(payload) + seq![END] + tail);
    assert(Seq::<u8>::empty() + payload =~= payload);
}

/// A link between two frames takes the delimiter that opens the frame of a
/// message as a frame of its own, which holds nothing, and makes of what
/// follows that delimiter the message.
pub proof fn lemma_decode_frame_at_boundary(m: Message, tail: Seq<u8>)
    ensures
        link_decode(boundary(), frame(m.encoding()) + tail) == (LinkStep {
            next: boundary(),
            consumed: 1,
            message: None,
        }),
        link_decode(boundary(), escape(m.encoding()) + seq![END] + tail) == (LinkStep {
            next: boundary(),
            consumed: escape(m.encoding()).len() + 1,
            message: Some(m),
        }),
{
    let payload = m.encoding();
    let input = frame(payload) + tail;
    m.lemma_encoding_len();
    m.lemma_round_trip();
    lemma_stream_frame(payload, tail, MAX_PACKET_SIZE as nat);
    assert(input[0] == END);
    lemma_decoded_short(Seq::<u8>::empty() + Seq::<u8>::empty());
    assert(Seq::<u8>::empty() + payload =~= payload);
}

/// Frames written one behind the other come out as their messages, in their
/// order, whether the link has seen nothing yet or stands between two frames.
pub proof fn lemma_drain_frames(state: LinkState, messages: Seq<Message>)
    requires
        state == unsynced() || state == boundary(),
    ensures
        link_drain(state, frames(messages)).messages == messages,
        link_drain(state, frames(messages)).taken == frames(messages).len(),
        messages.len() > 0 ==> link_drain(state, frames(messages)).state == boundary(),
    decreases messages.len(),
{
    let input = frames(messages);
    lemma_drain_takes_all(state, input);
    if messages.len() == 0 {
        assert(link_drain(state, input).messages =~= messages);
    } else {
        let m = messages[0];
        let later = messages.skip(1);
        let tail = frames(later);
        let payload = m.encoding();
        let behind = escape(payload) + seq![END] + tail;
        lemma_drain_frames(boundary(), later);
        assert(link_drain(boundary(), tail).state == boundary());
        assert(frame(payload).len() == escape(payload).len() + 2);
        if state == unsynced() {
            lemma_decode_frame(m, tail);
            assert(input.skip(frame(payload).len() as int) =~= tail);
        } else {
            lemma_decode_frame_at_boundary(m, tail);
            assert(input.skip(1) =~= behind);
            assert(behind.skip(escape(payload).len() as int + 1) =~= tail);
            assert(link_drain(boundary(), behind).messages =~= seq![m] + later);
        }
        assert(seq![m] + later =~= messages);
        assert(link_drain(state, input).messages =~= messages);
    }
}

/// A frame that arrives in two pieces, cut anywhere, comes out whole: a link
/// that has seen nothing takes the first piece and hands out nothing, then
/// takes the second and hands out the message.
pub proof fn lemma_decode_split(m: Message, cut: int)
    requires
        0 <= cut < frame(m.encoding()).len(),
    ensures
        link_decode(unsynced(), frame(m.encoding()).take(cut)).consumed == cut,
        link_decode(unsynced(), frame(m.encoding()).take(cut)).message is None,
        link_decode(
            link_decode(unsynced(), frame(m.encoding()).take(cut)).next,
            frame(m.encoding()).skip(cut),
        ) == (LinkStep {
            next: boundary(),
            consumed: (frame(m.encoding()).len() - cut) as nat,
            message: Some(m),
        }),
{
    let payload = m.encoding();
    let whole = frame(payload);
    let a = whole.take(cut);
    let b = whole.skip(cut);
    let room = MAX_PACKET_SIZE as nat;
    m.lemma_encoding_len();
    m.lemma_round_trip();
    if cut == 0 {
        lemma_decode_frame(m, Seq::empty());
        assert(whole + Seq::<u8>::empty() =~= whole);
        assert(b =~= whole);
    } else {
        let body = whole.skip(1);
        let body_a = a.skip(1);
        assert(body =~= escape(payload) + seq![END] + Seq::<u8>::empty());
        assert(body =~= body_a + b);
        assert(a[0] == END);
        lemma_stream_frame(payload, Seq::empty(), room);
        lemma_stream_concat(false, body_a, b, room);
        lemma_stream_bounds(false, body_a, room);
        let first = slip_stream(false, body_a, room);
        assert(unfinished(first, body_a));
        let second = slip_stream(first.escaped, b, (room - first.out.len()) as nat);
        assert(first.out + second.out == payload);
        assert(Seq::<u8>::empty() + first.out =~= first.out);
    }
}

/// A call on input that holds a delimiter ends at a delimiter and leaves the
/// link between two frames. It ends behind the first delimiter of the input
/// at the latest; only a link that waits for the delimiter that opens the
/// stream, and finds it at the start of the input, may go on to the one
/// after it.
proof fn lemma_decode_to_delimiter(state: LinkState, input: Seq<u8>)
    requires
        state.well_formed(),
        first_end(input) < input.len(),
        !state.synced && input[0] == END ==> first_end(input.skip(1)) < input.len() - 1,
    ensures
        link_decode(state, input).next == boundary(),
        !state.synced && input[0] == END ==> link_decode(state, input).consumed <= first_end(
            input.skip(1),
        ) + 2,
        !(!state.synced && input[0] == END) ==> link_decode(state, input).consumed <= first_end(
            input,
        ) + 1,
{
    let room = (MAX_PACKET_SIZE - state.partial.len()) as nat;
    lemma_stream_stops_at_end(state.escaped, input, room);
    lemma_stream_stops_at_end(state.escaped, input.skip(1), room);
    lemma_stream_bounds(state.escaped, input, room);
    lemma_stream_bounds(state.escaped, input.skip(1), room);
}

/// A frame comes through whatever went before it: whatever a link has seen
/// and whatever stands in the input before the frame of a message, draining
/// the input hands out that message last and leaves the link between two
/// frames.
pub proof fn lemma_frame_after_anything(state: LinkState, before: Seq<u8>, m: Message)
    requires
        state.well_formed(),
    ensures
        link_drain(state, before + frame(m.encoding())).state == boundary(),
        link_drain(state, before + frame(m.encoding())).messages.len() > 0,
        link_drain(state, before + frame(m.encoding())).messages.last() == m,
    decreases before.len(),
{
    let payload = m.encoding();
    let whole = frame(payload);
    let input = before + whole;
    let behind = escape(payload) + seq![END] + Seq::<u8>::empty();
    let step = link_decode(state, input);
    assert(whole[0] == END);
    assert(whole.skip(1) =~= behind);
    lemma_decode_frame_at_boundary(m, Seq::empty());
    let last = link_drain(boundary(), behind);
    let nothing = link_drain(boundary(), Seq::<u8>::empty());
    assert(nothing.state == boundary() && nothing.messages =~= Seq::<Message>::empty());
    assert(last.state == boundary() && last.messages =~= seq![m]) by {
        assert(behind.len() == escape(payload).len() + 1);
        assert(link_decode(boundary(), behind).consumed == behind.len());
        assert(behind.skip(behind.len() as int) =~= Seq::<u8>::empty());
        assert(handed_out(Some(m)) + nothing.messages =~= seq![m]);
    }
    lemma_decode_advances(state, input);
    if before.len() == 0 && !state.synced {
        lemma_decode_frame(m, Seq::empty());
        assert(input =~= whole + Seq::<u8>::empty());
        assert(input.skip(whole.len() as int) =~= Seq::<u8>::empty());
        assert(handed_out(Some(m)) + nothing.messages =~= seq![m]);
        assert(link_drain(state, input).messages =~= seq![m]);
    } else {
        lemma_first_end_concat(before, whole);
        if before.len() > 0 {
            assert(input.skip(1) =~= before.skip(1) + whole);
            lemma_first_end_concat(before.skip(1), whole);
        }
        lemma_decode_to_delimiter(state, input);
        let consumed = step.consumed as int;
        let rest = link_drain(boundary(), input.skip(consumed));
        if consumed <= before.len() {
            assert(input.skip(consumed) =~= before.skip(consumed) + whole);
            lemma_frame_after_anything(boundary(), before.skip(consumed), m);
        } else {
            assert(input.skip(consumed) =~= behind);
        }
        assert(link_drain(state, input).messages =~= handed_out(step.message) + rest.messages);
    }
}

/// Draining nothing hands out nothing and leaves the link as it is.
proof fn lemma_drain_nothing(state: LinkState)
    ensures
        link_drain(state, Seq::empty()).state == state,
        link_drain(state, Seq::empty()).messages == Seq::<Message>::empty(),
{
}

/// Draining input that is not empty is one call and draining what it left.
proof fn lemma_drain_unfold(state: LinkState, input: Seq<u8>)
    requires
        input.len() > 0,
    ensures
        1 <= link_decode(state, input).consumed <= input.len(),
        link_drain(state, input).state == link_drain(
            link_decode(state, input).next,
            input.skip(link_decode(state, input).consumed as int),
        ).state,
        link_drain(state, input).messages == handed_out(link_decode(state, input).message)
            + link_drain(
            link_decode(state, input).next,
            input.skip(link_decode(state, input).consumed as int),
        ).messages,
{
    lemma_decode_advances(state, input);
}

/// A link that waits for the delimiter that opens the stream and finds it at
/// the start of the input goes on as a link between two frames would behind
/// that delimiter.
proof fn lemma_drain_opening(rest: Seq<u8>)
    ensures
        link_drain(unsynced(), seq![END] + rest).state == link_drain(boundary(), rest).state,
        link_drain(unsynced(), seq![END] + rest).messages == link_drain(
            boundary(),
            rest,
        ).messages,
{
    let input = seq![END] + rest;
    let room = MAX_PACKET_SIZE as nat;
    let run = slip_stream(false, rest, room);
    let opened = link_decode(unsynced(), input);
    assert(input[0] == END);
    assert(input.skip(1) =~= rest);
    lemma_drain_unfold(unsynced(), input);
    lemma_stream_bounds(false, rest, room);
    if rest.len() == 0 {
        assert(Seq::<u8>::empty() + run.out =~= Seq::<u8>::empty());
        assert(opened.next == boundary());
        lemma_drain_nothing(boundary());
        assert(handed_out(None) + Seq::<Message>::empty() =~= Seq::<Message>::empty());
    } else {
        let direct = link_decode(boundary(), rest);
        lemma_drain_unfold(boundary(), rest);
        if run.fault || (!run.end && run.read < rest.len()) {
            assert(opened == resync(input));
            assert(first_end(input) == 0);
            let behind = link_drain(boundary(), rest);
            assert(handed_out(None) + behind.messages =~= behind.messages);
        } else {
            assert(opened.next == direct.next);
            assert(opened.message == direct.message);
            assert(opened.consumed == direct.consumed + 1);
            assert(input.skip(opened.consumed as int) =~= rest.skip(direct.consumed as int));
        }
    }
}

/// Where `a` holds no delimiter and a call drops the frame under way on
/// `a + b`, the link goes on as one that waits for the delimiter that opens
/// the stream would on `b`.
proof fn lemma_drain_after_drop(a: Seq<u8>, b: Seq<u8>)
    requires
        first_end(a) == a.len(),
    ensures
        link_drain(resync(a + b).next, (a + b).skip(resync(a + b).consumed as int)).state
            == link_drain(unsynced(), b).state,
        link_drain(resync(a + b).next, (a + b).skip(resync(a + b).consumed as int)).messages
            == link_drain(unsynced(), b).messages,
{
    let input = a + b;
    let dropped = resync(input);
    lemma_first_end_concat(a, b);
    lemma_first_end_is_end(b);
    if first_end(b) < b.len() {
        let at = first_end(b) as int;
        assert(input.skip(dropped.consumed as int) =~= b.skip(at + 1));
        if b[0] == END {
            assert(b =~= seq![END] + b.skip(1));
            lemma_drain_opening(b.skip(1));
        } else {
            lemma_drain_unfold(unsynced(), b);
            assert(link_decode(unsynced(), b) == resync(b));
            let behind = link_drain(boundary(), b.skip(at + 1));
            assert(handed_out(None) + behind.messages =~= behind.messages);
        }
    } else {
        assert(input.skip(dropped.consumed as int) =~= Seq::<u8>::empty());
        lemma_drain_nothing(unsynced());
        if b.len() > 0 {
            lemma_drain_unfold(unsynced(), b);
            assert(link_decode(unsynced(), b) == resync(b));
            assert(b.skip(b.len() as int) =~= Seq::<u8>::empty());
            assert(handed_out(None) + Seq::<Message>::empty() =~= Seq::<Message>::empty());
        }
    }
}

/// Where a call on `a` takes all of it and keeps the payload, a call on
/// `a + b` does what a call on `b` does after it, and takes `a` as well.
proof fn lemma_decode_kept(state: LinkState, a: Seq<u8>, b: Seq<u8>)
    requires
        state.well_formed(),
        state.synced,
        a.len() > 0,
        b.len() > 0,
        unfinished(link_run(state, a), a),
    ensures
        link_decode(state, a).consumed == a.len(),
        link_decode(state, a).message is None,
        link_decode(state, a + b).next == link_decode(link_decode(state, a).next, b).next,
        link_decode(state, a + b).message == link_decode(link_decode(state, a).next, b).message,
        link_decode(state, a + b).consumed == a.len() + link_decode(
            link_decode(state, a).next,
            b,
        ).consumed,
{
    let room = (MAX_PACKET_SIZE - state.partial.len()) as nat;
    let run_a = slip_stream(state.escaped, a, room);
    let run_w = slip_stream(state.escaped, a + b, room);
    let kept = link_decode(state, a).next;
    lemma_stream_concat(state.escaped, a, b, room);
    lemma_stream_stops_at_end(state.escaped, a, room);
    lemma_stream_bounds(state.escaped, a, room);
    lemma_first_end_concat(a, b);
    assert(kept.partial.len() == state.partial.len() + run_a.out.len());
    let run_b = slip_stream(kept.escaped, b, (room - run_a.out.len()) as nat);
    assert(link_run(kept, b) == run_b);
    assert(kept.partial + run_b.out =~= state.partial + run_w.out);
}

/// It does not matter where the stream is cut: draining `a` and then `b`
/// hands out the same messages, and leaves the link in the same state, as
/// draining both in one piece.
#[verifier::rlimit(40)]
pub proof fn lemma_drain_concat(state: LinkState, a: Seq<u8>, b: Seq<u8>)
    requires
        state.well_formed(),
    ensures
        link_drain(state, a + b).state == link_drain(link_drain(state, a).state, b).state,
        link_drain(state, a + b).messages == link_drain(state, a).messages + link_drain(
            link_drain(state, a).state,
            b,
        ).messages,
    decreases a.len(),
{
    let whole = a + b;
    let first = link_drain(state, a);
    let second = link_drain(first.state, b);
    if a.len() == 0 {
        assert(whole =~= b);
        lemma_drain_nothing(state);
        assert(Seq::<Message>::empty() + second.messages =~= second.messages);
    } else if b.len() == 0 {
        assert(whole =~= a);
        lemma_drain_nothing(first.state);
        assert(first.messages + Seq::<Message>::empty() =~= first.messages);
    } else if !state.synced && a[0] == END {
        assert(a =~= seq![END] + a.skip(1));
        assert(whole =~= seq![END] + (a.skip(1) + b));
        lemma_drain_opening(a.skip(1));
        lemma_drain_opening(a.skip(1) + b);
        lemma_drain_concat(boundary(), a.skip(1), b);
    } else if state.synced && unfinished(link_run(state, a), a) {
        let kept = link_decode(state, a).next;
        let step_b = link_decode(kept, b);
        lemma_decode_kept(state, a, b);
        lemma_drain_unfold(state, a);
        lemma_drain_unfold(state, whole);
        lemma_drain_unfold(kept, b);
        lemma_drain_nothing(kept);
        assert(a.skip(a.len() as int) =~= Seq::<u8>::empty());
        assert(whole.skip((a.len() + step_b.consumed) as int) =~= b.skip(step_b.consumed as int));
        assert(Seq::<Message>::empty() + second.messages =~= second.messages);
    } else {
        let room = (MAX_PACKET_SIZE - state.partial.len()) as nat;
        let step_a = link_decode(state, a);
        let step_w = link_decode(state, whole);
        lemma_drain_unfold(state, a);
        lemma_drain_unfold(state, whole);
        lemma_first_end_concat(a, b);
        lemma_stream_concat(state.escaped, a, b, room);
        lemma_stream_stops_at_end(state.escaped, a, room);
        lemma_stream_bounds(state.escaped, a, room);
        assert(whole[0] == a[0]);
        if step_a.next == boundary() {
            // the call ends at a delimiter that stands in `a`
            let taken = step_a.consumed as int;
            let rest = link_drain(boundary(), a.skip(taken));
            assert(step_w == step_a);
            assert(whole.skip(taken) =~= a.skip(taken) + b);
            lemma_drain_concat(boundary(), a.skip(taken), b);
            assert(handed_out(step_a.message) + (rest.messages + second.messages) =~= (handed_out(
                step_a.message,
            ) + rest.messages) + second.messages);
        } else {
            // the call drops the frame under way, and `a` holds no delimiter
            let after = link_drain(step_w.next, whole.skip(step_w.consumed as int));
            assert(step_a == resync(a));
            assert(step_w == resync(whole));
            assert(first_end(a) == a.len());
            assert(a.skip(a.len() as int) =~= Seq::<u8>::empty());
            lemma_drain_nothing(unsynced());
            lemma_drain_after_drop(a, b);
            assert(handed_out(None) + after.messages =~= after.messages);
            assert(Seq::<Message>::empty() + second.messages =~= second.messages);
        }
    }
}

} // verus!
