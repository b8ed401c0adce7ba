//! SLIP framing (RFC 1055) as `serial_line_ip` performs it.
//!
//! The first half of this file is a mathematical account of the framing: what
//! a payload looks like on the wire and what a decoder makes of a piece of the
//! byte stream. The second half gives the outside encoder and decoder their
//! contracts in those terms. Those contracts are taken on trust; everything
//! else in the crate is proved from them.

use serial_line_ip::Error as SlipFault;
use serial_line_ip::{Decoder, Encoder};
use vstd::prelude::*;

verus! {

/// The byte that delimits frames.
pub const END: u8 = 0xC0;

/// The byte that opens an escape sequence.
pub const ESC: u8 = 0xDB;

/// Second byte of the escape sequence that stands for [`END`].
pub const ESC_END: u8 = 0xDC;

/// Second byte of the escape sequence that stands for [`ESC`].
pub const ESC_ESC: u8 = 0xDD;

/// What one payload byte becomes on the wire.
pub open spec fn escape_byte(b: u8) -> Seq<u8> {
    if b == END {
        seq![ESC, ESC_END]
    } else if b == ESC {
        seq![ESC, ESC_ESC]
    } else {
        seq![b]
    }
}

/// What a payload becomes on the wire, without the delimiters around it.
pub open spec fn escape(payload: Seq<u8>) -> Seq<u8>
    decreases payload.len(),
{
    if payload.len() == 0 {
        Seq::empty()
    } else {
        escape_byte(payload[0]) + escape(payload.skip(1))
    }
}

/// A whole frame: a delimiter, the escaped payload, a delimiter.
pub open spec fn frame(payload: Seq<u8>) -> Seq<u8> {
    seq![END] + escape(payload) + seq![END]
}

/// The payload byte that the second byte of an escape sequence stands for.
pub open spec fn unescaped(second: u8) -> u8 {
    if second == ESC_END {
        END
    } else {
        ESC
    }
}

/// What a decoder makes of a piece of the stream.
pub struct SlipRun {
    /// How many bytes of the input were taken.
    pub read: nat,
    /// The payload bytes that came out.
    pub out: Seq<u8>,
    /// Whether the last byte taken was the delimiter that closes a frame.
    pub end: bool,
    /// Whether the decoder stopped inside an escape sequence: behind an
    /// escape marker and before the byte that belongs to it.
    pub escaped: bool,
    /// Whether an escape marker was followed by a byte that cannot follow it.
    pub fault: bool,
}

/// Decoding `input` into a buffer with `room` free bytes, by a decoder that
/// has passed the opening delimiter of the stream. `escaped` says whether the
/// byte before `input` opened an escape sequence.
///
/// The decoder stops before the first byte for which input or room is
/// lacking, after the first delimiter, and at a malformed escape sequence.
pub open spec fn slip_stream(escaped: bool, input: Seq<u8>, room: nat) -> SlipRun
    decreases input.len(),
{
    if input.len() == 0 || room == 0 {
        SlipRun { read: 0, out: Seq::empty(), end: false, escaped, fault: false }
    } else if escaped {
        if input[0] == ESC_END || input[0] == ESC_ESC {
            let rest = slip_stream(false, input.skip(1), (room - 1) as nat);
            SlipRun { read: rest.read + 1, out: seq![unescaped(input[0])] + rest.out, ..rest }
        } else {
            SlipRun { read: 0, out: Seq::empty(), end: false, escaped, fault: true }
        }
    } else if input[0] == END {
        SlipRun { read: 1, out: Seq::empty(), end: true, escaped: false, fault: false }
    } else if input[0] == ESC {
        let rest = slip_stream(true, input.skip(1), room);
        SlipRun { read: rest.read + 1, ..rest }
    } else {
        let rest = slip_stream(false, input.skip(1), (room - 1) as nat);
        SlipRun { read: rest.read + 1, out: seq![input[0]] + rest.out, ..rest }
    }
}

/// Decoding `input` by a decoder of which `found` says whether it has passed
/// the opening delimiter of the stream. One that has not takes that delimiter
/// first, and is at fault where the input is empty or starts with another
/// byte.
pub open spec fn slip_decoding(found: bool, escaped: bool, input: Seq<u8>, room: nat) -> SlipRun {
    if found {
        slip_stream(escaped, input, room)
    } else if input.len() == 0 || input[0] != END {
        SlipRun { read: 0, out: Seq::empty(), end: false, escaped, fault: true }
    } else {
        let run = slip_stream(escaped, input.skip(1), room);
        SlipRun { read: run.read + 1, ..run }
    }
}

/// The position of the first delimiter in `input`, or its length if it holds
/// none.
pub open spec fn first_end(input: Seq<u8>) -> nat
    decreases input.len(),
{
    if input.len() == 0 || input[0] == END {
        0
    } else {
        1 + first_end(input.skip(1))
    }
}

/// `serial_line_ip::Decoder`, of which nothing is known but what
/// [`decoder_header_found`] and [`decoder_escaped`] name.
#[verifier::external_type_specification]
#[verifier::external_body]
pub struct ExDecoder(Decoder);

/// `serial_line_ip::Encoder`, of which nothing is known but what
/// [`encoder_header_written`] names.
#[verifier::external_type_specification]
#[verifier::external_body]
pub struct ExEncoder(Encoder);

/// `serial_line_ip::Error`, of which nothing is known.
#[verifier::external_type_specification]
#[verifier::external_body]
pub struct ExSlipFault(SlipFault);

/// Whether the encoder has written the delimiter that opens its frame.
pub uninterp spec fn encoder_header_written(e: Encoder) -> bool;

/// Whether the decoder has taken the delimiter that opens the stream.
pub uninterp spec fn decoder_header_found(d: Decoder) -> bool;

/// Whether the decoder stands inside an escape sequence: behind an escape
/// marker and before the byte that belongs to it.
pub uninterp spec fn decoder_escaped(d: Decoder) -> bool;

/// What the encoder writes before the first payload byte.
pub open spec fn encoder_lead(e: Encoder) -> Seq<u8> {
    if encoder_header_written(e) {
        Seq::empty()
    } else {
        seq![END]
    }
}

/// What the decoder makes of `input` with `room` free bytes to decode into.
pub open spec fn decoder_run(d: Decoder, input: Seq<u8>, room: nat) -> SlipRun {
    slip_decoding(decoder_header_found(d), decoder_escaped(d), input, room)
}

/// `Encoder::new` returns an encoder that has written nothing.
pub assume_specification[ Encoder::new ]() -> (e: Encoder)
    ensures
        !encoder_header_written(e),
;

/// `Decoder::new` returns a decoder that has seen nothing.
pub assume_specification[ Decoder::new ]() -> (d: Decoder)
    ensures
        !decoder_header_found(d),
        !decoder_escaped(d),
;

/// `Encoder::encode`: writes the opening delimiter unless this encoder has
/// done so before, then the escaped form of each input byte in turn, and
/// stops before the first byte whose escaped form no longer fits. It reports
/// how many input bytes it took and how many bytes it wrote. It fails, and
/// writes nothing, only where there is no room for the opening delimiter.
#[verifier::external_body]
pub(crate) fn slip_encode(enc: &mut Encoder, input: &[u8], output: &mut [u8]) -> (r: Result<
    (usize, usize),
    SlipFault,
>)
    ensures
        final(output)@.len() == old(output)@.len(),
        r is Err <==> !encoder_header_written(*old(enc)) && old(output)@.len() == 0,
        r is Err ==> final(output)@ == old(output)@ && encoder_header_written(*final(enc))
            == encoder_header_written(*old(enc)),
        r matches Ok((read, written)) ==> {
            &&& encoder_header_written(*final(enc))
            &&& read <= input@.len()
            &&& written <= old(output)@.len()
            &&& written == encoder_lead(*old(enc)).len() + escape(input@.take(read as int)).len()
            &&& final(output)@ == encoder_lead(*old(enc)) + escape(input@.take(read as int))
                + old(output)@.skip(written as int)
            &&& read < input@.len() ==> written + escape_byte(input@[read as int]).len() > old(
                output,
            )@.len()
        },
    no_unwind
{
    match enc.encode(input, output) {
        Ok(totals) => Ok((totals.read, totals.written)),
        Err(e) => Err(e),
    }
}

/// `Encoder::finish` on the part of `output` from `at` on: writes the closing
/// delimiter at `at` and reports one byte written. It fails, and writes
/// nothing, only where `at` is the end of `output`.
#[verifier::external_body]
pub(crate) fn slip_finish(enc: Encoder, output: &mut [u8], at: usize) -> (r: Result<
    usize,
    SlipFault,
>)
    requires
        at <= old(output)@.len(),
    ensures
        r is Err <==> at == old(output)@.len(),
        r is Err ==> final(output)@ == old(output)@,
        r matches Ok(written) ==> written == 1 && final(output)@ == old(output)@.update(
            at as int,
            END,
        ),
    no_unwind
{
    match enc.finish(&mut output[at..]) {
        Ok(totals) => Ok(totals.written),
        Err(e) => Err(e),
    }
}

/// `Decoder::decode` into the part of `scratch` from `offset` on.
///
/// The call does what [`slip_decoding`] says of a decoder in this state, and
/// fails where that is at fault: where the opening delimiter of the stream is
/// due and the input is empty or starts with another byte, and at a malformed
/// escape sequence. On success it reports how many input bytes it took, how
/// many payload bytes it put into `scratch` from `offset` on, and whether it
/// stopped behind a closing delimiter. Whether it fails or not, the payload
/// bytes that it got out stand in `scratch` from `offset` on, the rest of
/// `scratch` is as before, and the decoder remembers whether it has taken the
/// opening delimiter and whether it stopped inside an escape sequence.
#[verifier::external_body]
pub(crate) fn slip_decode(
    dec: &mut Decoder,
    input: &[u8],
    scratch: &mut [u8; 256],
    offset: usize,
) -> (r: Result<(usize, usize, bool), SlipFault>)
    requires
        offset <= 256,
    ensures
        r is Err <==> decoder_run(*old(dec), input@, (256 - offset) as nat).fault,
        r matches Ok((read, written, end)) ==> {
            &&& read == decoder_run(*old(dec), input@, (256 - offset) as nat).read
            &&& written == decoder_run(*old(dec), input@, (256 - offset) as nat).out.len()
            &&& end == decoder_run(*old(dec), input@, (256 - offset) as nat).end
        },
        decoder_header_found(*final(dec)) == (decoder_header_found(*old(dec)) || (input@.len() > 0
            && input@[0] == END)),
        decoder_escaped(*final(dec)) == decoder_run(
            *old(dec),
            input@,
            (256 - offset) as nat,
        ).escaped,
        final(scratch)@ == old(scratch)@.take(offset as int) + decoder_run(
            *old(dec),
            input@,
            (256 - offset) as nat,
        ).out + old(scratch)@.skip(
            offset + decoder_run(*old(dec), input@, (256 - offset) as nat).out.len(),
        ),
    no_unwind
{
    match dec.decode(input, &mut scratch[offset..]) {
        Ok((read, packet, end)) => Ok((read, packet.len(), end)),
        Err(e) => Err(e),
    }
}

} // verus!
