//! The messages that travel over the link, and their encoding.
//!
//! A message is encoded as one CBOR data item (RFC 8949). A variant without
//! fields is a text string that holds its name. A variant with fields is a map
//! with one entry, from the name to the fields: `Mag` to an array of three
//! integers in their shortest form, `Accel` to an array of three
//! single-precision floats, `Log` to a byte string of 128 bytes. Decoding
//! accepts these encodings and nothing else.

use crate::cbor::{
    equals, float_bytes, float_item, holds, int_bytes, int_item, lemma_build,
    lemma_float_item_unique, lemma_int_item_first, lemma_int_item_unique, lemma_layout, put,
    read_float, read_int, starts_at,
};
use vstd::prelude::*;
use vstd::slice::slice_subrange;

verus! {

/// Number of bytes a log message carries.
pub const LOG_SIZE: usize = 128;

/// Why a message could not be written or read.
#[derive(Clone, Copy, Debug, PartialEq, Eq)]
pub enum CodecError {
    /// The destination is too small for the encoded message.
    Encoding,
    /// The bytes are not the encoding of any message.
    Decoding,
}

/// A fixed block of bytes carried by [`Message::Log`].
#[derive(Clone, Copy, Debug, PartialEq, Eq)]
pub struct InternalBuffer {
    b: [u8; 128],
}

/// One message of the protocol.
#[derive(Clone, Copy, Debug, PartialEq, Eq)]
pub enum Message {
    /// Nothing to say.
    Nop,
    /// A greeting.
    Hello,
    /// The answer to a greeting.
    HelloAck,
    /// Text for the log of the other side.
    Log(InternalBuffer),
    /// Asks for the acceleration.
    AccelReq,
    /// The acceleration along the three axes: single-precision readings, each
    /// held as its IEEE 754 bit pattern.
    Accel(u32, u32, u32),
    /// Asks for the magnetic field.
    MagReq,
    /// The magnetic field along the three axes, raw.
    Mag(i16, i16, i16),
}

/// `len` zero bytes.
pub open spec fn zeros(len: nat) -> Seq<u8> {
    Seq::new(len, |i: int| 0u8)
}

/// The text string `Nop`.
pub open spec fn nop_item() -> Seq<u8> {
    seq![0x63u8, 0x4e, 0x6f, 0x70]
}

/// The text string `Hello`.
pub open spec fn hello_item() -> Seq<u8> {
    seq![0x65u8, 0x48, 0x65, 0x6c, 0x6c, 0x6f]
}

/// The text string `HelloAck`.
pub open spec fn hello_ack_item() -> Seq<u8> {
    seq![0x68u8, 0x48, 0x65, 0x6c, 0x6c, 0x6f, 0x41, 0x63, 0x6b]
}

/// The text string `AccelReq`.
pub open spec fn accel_req_item() -> Seq<u8> {
    seq![0x68u8, 0x41, 0x63, 0x63, 0x65, 0x6c, 0x52, 0x65, 0x71]
}

/// The text string `MagReq`.
pub open spec fn mag_req_item() -> Seq<u8> {
    seq![0x66u8, 0x4d, 0x61, 0x67, 0x52, 0x65, 0x71]
}

/// A map of one entry whose key is `Log` and whose value is a byte string of
/// 128 bytes, up to where the bytes begin.
pub open spec fn log_head() -> Seq<u8> {
    seq![0xa1u8, 0x63, 0x4c, 0x6f, 0x67, 0x58, 0x80]
}

/// A map of one entry whose key is `Accel` and whose value is an array of
/// three items, up to where the items begin.
pub open spec fn accel_head() -> Seq<u8> {
    seq![0xa1u8, 0x65, 0x41, 0x63, 0x63, 0x65, 0x6c, 0x83]
}

/// A map of one entry whose key is `Mag` and whose value is an array of three
/// items, up to where the items begin.
pub open spec fn mag_head() -> Seq<u8> {
    seq![0xa1u8, 0x63, 0x4d, 0x61, 0x67, 0x83]
}

impl View for InternalBuffer {
    type V = Seq<u8>;

    /// The 128 bytes.
    closed spec fn view(&self) -> Seq<u8> {
        self.b@
    }
}

impl InternalBuffer {
    /// A buffer always holds 128 bytes.
    pub proof fn lemma_len(self)
        ensures
            self@.len() == LOG_SIZE,
    {
    }

    /// Two buffers with the same bytes are the same buffer.
    pub proof fn lemma_ext(self, other: InternalBuffer)
        requires
            self@ == other@,
        ensures
            self == other,
    {
        assert(self.b =~= other.b);
    }

    /// The buffer that starts with the bytes of `t` and is zero after them.
    pub fn from(t: &[u8]) -> (r: InternalBuffer)
        requires
            t@.len() <= LOG_SIZE,
        ensures
            r@ == t@ + zeros((LOG_SIZE - t@.len()) as nat),
    {
        let mut b = [0u8; 128];
        let mut i: usize = 0;
        while i < t.len()
            invariant
                i <= t@.len() <= 128,
                forall|j: int| 0 <= j < i ==> b@[j] == t@[j],
                forall|j: int| i <= j < 128 ==> b@[j] == 0,
            decreases t@.len() - i,
        {
            b[i] = t[i];
            i += 1;
        }
        let r = InternalBuffer { b };
        assert(r@ =~= t@ + zeros((LOG_SIZE - t@.len()) as nat));
        r
    }

    /// The 128 bytes.
    pub fn as_bytes(&self) -> (r: &[u8; 128])
        ensures
            r@ == self@,
    {
        &self.b
    }
}

impl Default for Message {
    fn default() -> (m: Message)
        ensures
            m == Message::Nop,
    {
        Message::Nop
    }
}

impl Message {
    /// No encoded message is as long as this.
    pub const MAX_SIZE: usize = 256;

    /// The bytes that stand for this message.
    pub open spec fn encoding(self) -> Seq<u8> {
        match self {
            Message::Nop => nop_item(),
            Message::Hello => hello_item(),
            Message::HelloAck => hello_ack_item(),
            Message::Log(buffer) => log_head() + buffer@,
            Message::AccelReq => accel_req_item(),
            Message::Accel(x, y, z) => accel_head() + float_item(x) + float_item(y) + float_item(
                z,
            ),
            Message::MagReq => mag_req_item(),
            Message::Mag(x, y, z) => mag_head() + int_item(x) + int_item(y) + int_item(z),
        }
    }

    /// The message that `bytes` stand for, if they stand for one.
    pub open spec fn decoded(bytes: Seq<u8>) -> Option<Message> {
        if exists|m: Message| #[trigger] m.encoding() == bytes {
            Some(choose|m: Message| #[trigger] m.encoding() == bytes)
        } else {
            None
        }
    }

    /// A log message that carries the bytes of `t`, padded with zeros.
    pub fn log(t: &[u8]) -> (m: Message)
        requires
            t@.len() <= LOG_SIZE,
        ensures
            m matches Message::Log(buffer) && buffer@ == t@ + zeros((LOG_SIZE - t@.len()) as nat),
    {
        Message::Log(InternalBuffer::from(t))
    }
}

/// How an encoding begins and how long it is, variant by variant.
proof fn lemma_shape(m: Message)
    ensures
        m is Nop ==> m.encoding().len() == 4 && m.encoding()[0] == 0x63,
        m is Hello ==> m.encoding().len() == 6 && m.encoding()[0] == 0x65,
        m is HelloAck ==> m.encoding().len() == 9 && m.encoding()[0] == 0x68 && m.encoding()[1]
            == 0x48,
        m is AccelReq ==> m.encoding().len() == 9 && m.encoding()[0] == 0x68 && m.encoding()[1]
            == 0x41,
        m is MagReq ==> m.encoding().len() == 7 && m.encoding()[0] == 0x66,
        m is Log ==> m.encoding().len() == 135 && starts_at(m.encoding(), 0, log_head())
            && m.encoding()[0] == 0xa1 && m.encoding()[2] == 0x4c,
        m is Accel ==> m.encoding().len() == 23 && starts_at(m.encoding(), 0, accel_head())
            && m.encoding()[0] == 0xa1 && m.encoding()[1] == 0x65,
        m is Mag ==> 9 <= m.encoding().len() <= 15 && starts_at(m.encoding(), 0, mag_head())
            && m.encoding()[0] == 0xa1 && m.encoding()[2] == 0x4d,
{
    match m {
        Message::Log(buffer) => {
            buffer.lemma_len();
            assert(m.encoding().subrange(0, 7) =~= log_head());
        },
        Message::Accel(x, y, z) => {
            lemma_layout(accel_head(), float_item(x), float_item(y), float_item(z));
        },
        Message::Mag(x, y, z) => {
            lemma_int_item_first(x);
            lemma_int_item_first(y);
            lemma_int_item_first(z);
            lemma_layout(mag_head(), int_item(x), int_item(y), int_item(z));
        },
        _ => {},
    }
}

/// Reads the log message that `buf` is the encoding of.
fn read_log(buf: &[u8]) -> (r: Option<Message>)
    ensures
        r matches Some(m) ==> m is Log && buf@ == m.encoding(),
        r is None ==> forall|buffer: InternalBuffer|
            buf@ != #[trigger] Message::Log(buffer).encoding(),
{
    let head: [u8; 7] = [0xa1, 0x63, 0x4c, 0x6f, 0x67, 0x58, 0x80];
    assert(head@ =~= log_head());
    if buf.len() == 135 && holds(buf, 0, &head) {
        let buffer = InternalBuffer::from(slice_subrange(buf, 7, 135));
        let m = Message::Log(buffer);
        proof {
            assert(buffer@ =~= buf@.subrange(7, 135));
            assert(buf@ =~= buf@.subrange(0, 7) + buf@.subrange(7, 135));
        }
        Some(m)
    } else {
        proof {
            assert forall|buffer: InternalBuffer|
                buf@ != #[trigger] Message::Log(buffer).encoding() by {
                lemma_shape(Message::Log(buffer));
            }
        }
        None
    }
}

/// Reads the message of three floats that `buf` is the encoding of.
fn read_accel(buf: &[u8]) -> (r: Option<Message>)
    ensures
        r matches Some(m) ==> m is Accel && buf@ == m.encoding(),
        r is None ==> forall|x: u32, y: u32, z: u32|
            buf@ != #[trigger] Message::Accel(x, y, z).encoding(),
{
    let head: [u8; 8] = [0xa1, 0x65, 0x41, 0x63, 0x63, 0x65, 0x6c, 0x83];
    assert(head@ =~= accel_head());
    if buf.len() == 23 && holds(buf, 0, &head) {
        match (read_float(buf, 8), read_float(buf, 13), read_float(buf, 18)) {
            (Some(x), Some(y), Some(z)) => {
                proof {
                    lemma_build(buf@, accel_head(), float_item(x), float_item(y), float_item(z));
                }
                return Some(Message::Accel(x, y, z));
            },
            _ => {
                proof {
                    assert forall|x: u32, y: u32, z: u32|
                        buf@ != #[trigger] Message::Accel(x, y, z).encoding() by {
                        lemma_layout(accel_head(), float_item(x), float_item(y), float_item(z));
                        if buf@ == Message::Accel(x, y, z).encoding() {
                            assert(buf@.subrange(8, 13)[0] == float_item(x)[0]);
                            assert(buf@.subrange(13, 18)[0] == float_item(y)[0]);
                            assert(buf@.subrange(18, 23)[0] == float_item(z)[0]);
                        }
                    }
                }
                return None;
            },
        }
    }
    proof {
        assert forall|x: u32, y: u32, z: u32|
            buf@ != #[trigger] Message::Accel(x, y, z).encoding() by {
            lemma_shape(Message::Accel(x, y, z));
        }
    }
    None
}

/// Reads the message of three integers that `buf` is the encoding of.
fn read_mag(buf: &[u8]) -> (r: Option<Message>)
    ensures
        r matches Some(m) ==> m is Mag && buf@ == m.encoding(),
        r is None ==> forall|x: i16, y: i16, z: i16|
            buf@ != #[trigger] Message::Mag(x, y, z).encoding(),
{
    let head: [u8; 6] = [0xa1, 0x63, 0x4d, 0x61, 0x67, 0x83];
    assert(head@ =~= mag_head());
    if !holds(buf, 0, &head) {
        proof {
            assert forall|x: i16, y: i16, z: i16|
                buf@ != #[trigger] Message::Mag(x, y, z).encoding() by {
                lemma_shape(Message::Mag(x, y, z));
            }
        }
        return None;
    }
    let first = read_int(buf, 6);
    let (x, after_x) = match first {
        Some(found) => found,
        None => {
            proof {
                assert forall|x: i16, y: i16, z: i16|
                    buf@ != #[trigger] Message::Mag(x, y, z).encoding() by {
                    lemma_layout(mag_head(), int_item(x), int_item(y), int_item(z));
                }
            }
            return None;
        },
    };
    let second = read_int(buf, after_x);
    let (y, after_y) = match second {
        Some(found) => found,
        None => {
            proof {
                assert forall|x0: i16, y0: i16, z0: i16|
                    buf@ != #[trigger] Message::Mag(x0, y0, z0).encoding() by {
                    lemma_layout(mag_head(), int_item(x0), int_item(y0), int_item(z0));
                    if buf@ == Message::Mag(x0, y0, z0).encoding() {
                        lemma_int_item_unique(buf@, 6, x, x0);
                    }
                }
            }
            return None;
        },
    };
    let third = read_int(buf, after_y);
    let (z, after_z) = match third {
        Some(found) => found,
        None => {
            proof {
                assert forall|x0: i16, y0: i16, z0: i16|
                    buf@ != #[trigger] Message::Mag(x0, y0, z0).encoding() by {
                    lemma_layout(mag_head(), int_item(x0), int_item(y0), int_item(z0));
                    if buf@ == Message::Mag(x0, y0, z0).encoding() {
                        lemma_int_item_unique(buf@, 6, x, x0);
                        lemma_int_item_unique(buf@, after_x as int, y, y0);
                    }
                }
            }
            return None;
        },
    };
    if after_z != buf.len() {
        proof {
            assert forall|x0: i16, y0: i16, z0: i16|
                buf@ != #[trigger] Message::Mag(x0, y0, z0).encoding() by {
                lemma_layout(mag_head(), int_item(x0), int_item(y0), int_item(z0));
                if buf@ == Message::Mag(x0, y0, z0).encoding() {
                    lemma_int_item_unique(buf@, 6, x, x0);
                    lemma_int_item_unique(buf@, after_x as int, y, y0);
                    lemma_int_item_unique(buf@, after_y as int, z, z0);
                }
            }
        }
        return None;
    }
    proof {
        lemma_build(buf@, mag_head(), int_item(x), int_item(y), int_item(z));
    }
    Some(Message::Mag(x, y, z))
}

/// Writes `item` to the start of `buf`, if it fits.
fn write_item(buf: &mut [u8], item: &[u8]) -> (r: Result<usize, CodecError>)
    ensures
        final(buf)@.len() == old(buf)@.len(),
        r is Ok <==> item@.len() <= old(buf)@.len(),
        r matches Ok(n) ==> n == item@.len() && final(buf)@ == item@ + old(buf)@.skip(n as int),
        r matches Err(e) ==> e == CodecError::Encoding && final(buf)@ == old(buf)@,
{
    if item.len() > buf.len() {
        return Err(CodecError::Encoding);
    }
    let n = put(buf, 0, item);
    assert(buf@ =~= item@ + old(buf)@.skip(n as int));
    Ok(n)
}

/// Writes a head and three pieces, one behind the other, to the start of
/// `buf`, if they fit.
fn write_parts(buf: &mut [u8], head: &[u8], a: &[u8], b: &[u8], c: &[u8]) -> (r: Result<
    usize,
    CodecError,
>)
    requires
        head@.len() + a@.len() + b@.len() + c@.len() < 256,
    ensures
        final(buf)@.len() == old(buf)@.len(),
        r is Ok <==> (head@ + a@ + b@ + c@).len() <= old(buf)@.len(),
        r matches Ok(n) ==> n == (head@ + a@ + b@ + c@).len() && final(buf)@ == head@ + a@ + b@
            + c@ + old(buf)@.skip(n as int),
        r matches Err(e) ==> e == CodecError::Encoding && final(buf)@ == old(buf)@,
{
    if buf.len() < head.len() + a.len() + b.len() + c.len() {
        return Err(CodecError::Encoding);
    }
    let at = put(buf, 0, head);
    let at = put(buf, at, a);
    let at = put(buf, at, b);
    let at = put(buf, at, c);
    assert(buf@ =~= head@ + a@ + b@ + c@ + old(buf)@.skip(at as int));
    Ok(at)
}

impl Message {
    /// Every message has one encoding, and it is shorter than
    /// [`Message::MAX_SIZE`].
    pub proof fn lemma_encoding_len(self)
        ensures
            4 <= self.encoding().len() <= 135,
            self.encoding().len() < Message::MAX_SIZE,
    {
        lemma_shape(self);
    }

    /// Two messages with the same encoding are the same message.
    pub proof fn lemma_encoding_injective(self, other: Message)
        requires
            self.encoding() == other.encoding(),
        ensures
            self == other,
    {
        lemma_shape(self);
        lemma_shape(other);
        let s = self.encoding();
        match (self, other) {
            (Message::Log(a), Message::Log(b)) => {
                a.lemma_len();
                b.lemma_len();
                assert(a@ =~= s.subrange(7, 135));
                assert(b@ =~= s.subrange(7, 135));
                a.lemma_ext(b);
            },
            (Message::Accel(x, y, z), Message::Accel(x0, y0, z0)) => {
                lemma_layout(accel_head(), float_item(x), float_item(y), float_item(z));
                lemma_layout(accel_head(), float_item(x0), float_item(y0), float_item(z0));
                lemma_float_item_unique(x, x0);
                lemma_float_item_unique(y, y0);
                lemma_float_item_unique(z, z0);
            },
            (Message::Mag(x, y, z), Message::Mag(x0, y0, z0)) => {
                lemma_layout(mag_head(), int_item(x), int_item(y), int_item(z));
                lemma_layout(mag_head(), int_item(x0), int_item(y0), int_item(z0));
                lemma_int_item_unique(s, 6, x, x0);
                lemma_int_item_unique(s, 6 + int_item(x).len() as int, y, y0);
                lemma_int_item_unique(
                    s,
                    6 + int_item(x).len() as int + int_item(y).len() as int,
                    z,
                    z0,
                );
            },
            _ => {},
        }
    }

    /// Decoding what a message was encoded to gives the message back.
    pub proof fn lemma_round_trip(self)
        ensures
            Message::decoded(self.encoding()) == Some(self),
    {
        let found = choose|m: Message| #[trigger] m.encoding() == self.encoding();
        found.lemma_encoding_injective(self);
    }

    /// Writes the encoding of this message to the start of `buf`, and returns
    /// its length. Fails, and leaves `buf` as it was, where `buf` is shorter
    /// than the encoding.
    pub fn write_bytes(&self, buf: &mut [u8]) -> (r: Result<usize, CodecError>)
        ensures
            final(buf)@.len() == old(buf)@.len(),
            r is Ok <==> self.encoding().len() <= old(buf)@.len(),
            r matches Ok(n) ==> n == self.encoding().len() && final(buf)@ == self.encoding() + old(
                buf,
            )@.skip(n as int),
            r matches Err(e) ==> e == CodecError::Encoding && final(buf)@ == old(buf)@,
    {
        match self {
            Message::Nop => {
                let item: [u8; 4] = [0x63, 0x4e, 0x6f, 0x70];
                assert(item@ =~= nop_item());
                write_item(buf, &item)
            },
            Message::Hello => {
                let item: [u8; 6] = [0x65, 0x48, 0x65, 0x6c, 0x6c, 0x6f];
                assert(item@ =~= hello_item());
                write_item(buf, &item)
            },
            Message::HelloAck => {
                let item: [u8; 9] = [0x68, 0x48, 0x65, 0x6c, 0x6c, 0x6f, 0x41, 0x63, 0x6b];
                assert(item@ =~= hello_ack_item());
                write_item(buf, &item)
            },
            Message::AccelReq => {
                let item: [u8; 9] = [0x68, 0x41, 0x63, 0x63, 0x65, 0x6c, 0x52, 0x65, 0x71];
                assert(item@ =~= accel_req_item());
                write_item(buf, &item)
            },
            Message::MagReq => {
                let item: [u8; 7] = [0x66, 0x4d, 0x61, 0x67, 0x52, 0x65, 0x71];
                assert(item@ =~= mag_req_item());
                write_item(buf, &item)
            },
            Message::Log(buffer) => {
                let head: [u8; 7] = [0xa1, 0x63, 0x4c, 0x6f, 0x67, 0x58, 0x80];
                let none: [u8; 0] = [];
                proof {
                    buffer.lemma_len();
                    assert(head@ =~= log_head());
                    assert(head@ + buffer@ + none@ + none@ =~= self.encoding());
                }
                write_parts(buf, &head, buffer.as_bytes(), &none, &none)
            },
            Message::Accel(x, y, z) => {
                let head: [u8; 8] = [0xa1, 0x65, 0x41, 0x63, 0x63, 0x65, 0x6c, 0x83];
                assert(head@ =~= accel_head());
                write_parts(buf, &head, &float_bytes(*x), &float_bytes(*y), &float_bytes(*z))
            },
            Message::Mag(x, y, z) => {
                let head: [u8; 6] = [0xa1, 0x63, 0x4d, 0x61, 0x67, 0x83];
                assert(head@ =~= mag_head());
                let (xs, xn) = int_bytes(*x);
                let (ys, yn) = int_bytes(*y);
                let (zs, zn) = int_bytes(*z);
                write_parts(
                    buf,
                    &head,
                    slice_subrange(&xs, 0, xn),
                    slice_subrange(&ys, 0, yn),
                    slice_subrange(&zs, 0, zn),
                )
            },
        }
    }

    /// Reads the message that `buf` is the encoding of. Fails where `buf` is
    /// the encoding of no message.
    pub fn from_bytes(buf: &[u8]) -> (r: Result<Message, CodecError>)
        ensures
            r matches Ok(m) ==> buf@ == m.encoding(),
            r matches Err(e) ==> e == CodecError::Decoding && forall|m: Message|
                buf@ != #[trigger] m.encoding(),
            Message::decoded(buf@) == r.ok(),
    {
        let nop: [u8; 4] = [0x63, 0x4e, 0x6f, 0x70];
        let hello: [u8; 6] = [0x65, 0x48, 0x65, 0x6c, 0x6c, 0x6f];
        let hello_ack: [u8; 9] = [0x68, 0x48, 0x65, 0x6c, 0x6c, 0x6f, 0x41, 0x63, 0x6b];
        let accel_req: [u8; 9] = [0x68, 0x41, 0x63, 0x63, 0x65, 0x6c, 0x52, 0x65, 0x71];
        let mag_req: [u8; 7] = [0x66, 0x4d, 0x61, 0x67, 0x52, 0x65, 0x71];
        proof {
            assert(nop@ =~= nop_item());
            assert(hello@ =~= hello_item());
            assert(hello_ack@ =~= hello_ack_item());
            assert(accel_req@ =~= accel_req_item());
            assert(mag_req@ =~= mag_req_item());
        }
        let found = if equals(buf, &nop) {
            Some(Message::Nop)
        } else if equals(buf, &hello) {
            Some(Message::Hello)
        } else if equals(buf, &hello_ack) {
            Some(Message::HelloAck)
        } else if equals(buf, &accel_req) {
            Some(Message::AccelReq)
        } else if equals(buf, &mag_req) {
            Some(Message::MagReq)
        } else {
            match read_log(buf) {
                Some(m) => Some(m),
                None => match read_accel(buf) {
                    Some(m) => Some(m),
                    None => read_mag(buf),
                },
            }
        };
        match found {
            Some(m) => {
                proof {
                    m.lemma_round_trip();
                }
                Ok(m)
            },
            None => {
                proof {
                    assert forall|m: Message| buf@ != #[trigger] m.encoding() by {
                        match m {
                            Message::Log(buffer) => {
                                assert(buf@ != Message::Log(buffer).encoding());
                            },
                            Message::Accel(x, y, z) => {
                                assert(buf@ != Message::Accel(x, y, z).encoding());
                            },
                            Message::Mag(x, y, z) => {
                                assert(buf@ != Message::Mag(x, y, z).encoding());
                            },
                            _ => {},
                        }
                    }
                }
                Err(CodecError::Decoding)
            },
        }
    }
}

} // verus!
