use common::message::{CodecError, InternalBuffer};
use common::Message;
use serde_cbor::Value;

fn get_size(msg: &Message, buf: &mut [u8]) -> usize {
    msg.write_bytes(buf).unwrap()
}

#[test]
fn check_size() {
    let mut buf = [0u8; Message::MAX_SIZE];

    assert!(std::mem::size_of::<Message>() < Message::MAX_SIZE);
    assert!(get_size(&Message::Nop, &mut buf) < Message::MAX_SIZE);
    assert!(get_size(&Message::Hello, &mut buf) < Message::MAX_SIZE);
    assert!(get_size(&Message::Log(InternalBuffer::from(&[0u8; 128])), &mut buf) < Message::MAX_SIZE);
}

#[test]
fn tx_rx() {
    let msg = Message::Hello;
    let mut buf = [0u8; Message::MAX_SIZE];
    let size = msg.write_bytes(&mut buf).unwrap();
    let rx_msg = Message::from_bytes(&mut buf[..size]).unwrap();
    assert_eq!(msg, rx_msg);
}

fn encoded(msg: &Message) -> Vec<u8> {
    let mut buf = [0xEEu8; Message::MAX_SIZE];
    let size = msg.write_bytes(&mut buf).unwrap();
    assert!(buf[size..].iter().all(|b| *b == 0xEE));
    buf[..size].to_vec()
}

#[test]
fn names_are_text_strings() {
    assert_eq!(encoded(&Message::Nop), b"\x63Nop");
    assert_eq!(encoded(&Message::Hello), b"\x65Hello");
    assert_eq!(encoded(&Message::HelloAck), b"\x68HelloAck");
    assert_eq!(encoded(&Message::AccelReq), b"\x68AccelReq");
    assert_eq!(encoded(&Message::MagReq), b"\x66MagReq");
}

#[test]
fn integers_take_their_shortest_form() {
    assert_eq!(encoded(&Message::Mag(0, 23, 24)), b"\xa1\x63Mag\x83\x00\x17\x18\x18");
    assert_eq!(encoded(&Message::Mag(255, 256, 32767)), b"\xa1\x63Mag\x83\x18\xff\x19\x01\x00\x19\x7f\xff");
    assert_eq!(encoded(&Message::Mag(-1, -24, -25)), b"\xa1\x63Mag\x83\x20\x37\x38\x18");
    assert_eq!(
        encoded(&Message::Mag(-256, -257, -32768)),
        b"\xa1\x63Mag\x83\x38\xff\x39\x01\x00\x39\x7f\xff"
    );
}

#[test]
fn floats_are_four_bytes_each() {
    let msg = Message::Accel(1.0f32.to_bits(), (-2.5f32).to_bits(), 0);
    assert_eq!(
        encoded(&msg),
        b"\xa1\x65Accel\x83\xfa\x3f\x80\x00\x00\xfa\xc0\x20\x00\x00\xfa\x00\x00\x00\x00"
    );
    assert_eq!(Message::from_bytes(&encoded(&msg)), Ok(msg));
    match Message::from_bytes(&encoded(&msg)).unwrap() {
        Message::Accel(x, y, z) => {
            assert_eq!(f32::from_bits(x), 1.0);
            assert_eq!(f32::from_bits(y), -2.5);
            assert_eq!(f32::from_bits(z), 0.0);
        }
        other => panic!("{:?}", other),
    }
}

#[test]
fn a_log_is_a_byte_string() {
    let msg = Message::log(b"Hello, World");
    let bytes = encoded(&msg);
    assert_eq!(bytes.len(), 135);
    assert_eq!(&bytes[..7], b"\xa1\x63Log\x58\x80");
    assert_eq!(&bytes[7..19], b"Hello, World");
    assert!(bytes[19..].iter().all(|b| *b == 0));
    assert_eq!(Message::from_bytes(&bytes), Ok(msg));
}

#[test]
fn a_log_is_padded_with_zeros() {
    let buffer = InternalBuffer::from(&[1, 2, 3]);
    let mut expected = [0u8; 128];
    expected[..3].copy_from_slice(&[1, 2, 3]);
    assert_eq!(buffer.as_bytes(), &expected);
    assert_eq!(InternalBuffer::from(&[]).as_bytes(), &[0u8; 128]);
    assert_eq!(InternalBuffer::from(&[9u8; 128]).as_bytes(), &[9u8; 128]);
    assert_eq!(Message::log(&[1, 2, 3]), Message::Log(buffer));
}

#[test]
fn the_default_message_is_nop() {
    assert_eq!(Message::default(), Message::Nop);
}

#[test]
fn every_encoding_is_shorter_than_the_maximum() {
    let all = [
        Message::Nop,
        Message::Hello,
        Message::HelloAck,
        Message::log(&[0xFF; 128]),
        Message::AccelReq,
        Message::Accel(u32::MAX, u32::MAX, u32::MAX),
        Message::MagReq,
        Message::Mag(i16::MIN, i16::MIN, i16::MIN),
    ];
    for msg in all {
        let bytes = encoded(&msg);
        assert!(bytes.len() < Message::MAX_SIZE);
        assert_eq!(Message::from_bytes(&bytes), Ok(msg));
    }
}

#[test]
fn write_bytes_refuses_a_short_buffer() {
    let mut buf = [0xEEu8; 5];
    assert_eq!(Message::Hello.write_bytes(&mut buf), Err(CodecError::Encoding));
    assert_eq!(buf, [0xEE; 5]);
    let mut buf = [0xEEu8; 134];
    assert_eq!(Message::log(b"x").write_bytes(&mut buf), Err(CodecError::Encoding));
    assert_eq!(buf, [0xEE; 134]);
    let mut buf = [0xEEu8; 8];
    assert_eq!(Message::Mag(1, 2, 3).write_bytes(&mut buf), Err(CodecError::Encoding));
    assert_eq!(Message::Mag(1, 2, 3).write_bytes(&mut [0u8; 9]), Ok(9));
    assert_eq!(Message::Accel(1, 2, 3).write_bytes(&mut [0u8; 22]), Err(CodecError::Encoding));
    assert_eq!(Message::Accel(1, 2, 3).write_bytes(&mut [0u8; 23]), Ok(23));
}

#[test]
fn from_bytes_refuses_what_is_no_encoding() {
    let bad: Vec<&[u8]> = vec![
        b"",
        b"\x65Hell",
        b"\x65Hello\x00",
        b"\x65hello",
        b"\x64Nop",
        b"\x68HelloAcc",
        b"\x00",
        b"\xa1",
        b"\xa1\x63Mag",
        b"\xa1\x63Mag\x83\x01\x02",
        b"\xa1\x63Mag\x83\x01\x02\x03\x04",
        b"\xa1\x63Mag\x82\x01\x02\x03",
        b"\xa1\x63Mag\x83\x18\x17\x02\x03",
        b"\xa1\x63Mag\x83\x19\x00\xff\x02\x03",
        b"\xa1\x63Mag\x83\x19\x80\x00\x02\x03",
        b"\xa1\x63Mag\x83\x39\x80\x00\x02\x03",
        b"\xa1\x63Mag\x83\x1a\x00\x00\x00\x01\x02\x03",
        b"\xa1\x63Mag\x83\x01\x02\x18",
        b"\xa1\x63Mag\x83\x01\x02\x19\x01",
        b"\xa1\x63Mag\x83\x41\x02\x03",
        b"\xa1\x65Accel\x83\xfa\x3f\x80\x00\x00\xfa\xc0\x20\x00\x00\xfa\x00\x00\x00",
        b"\xa1\x65Accel\x83\xfa\x3f\x80\x00\x00\xfb\xc0\x20\x00\x00\xfa\x00\x00\x00\x00",
        b"\xa1\x65Accel\x83\xf9\x3c\x00\xf9\x3c\x00\xf9\x3c\x00",
        b"\xa1\x63Log\x58\x80",
        b"\xa2\x63Mag\x83\x01\x02\x03",
    ];
    for bytes in bad {
        assert_eq!(Message::from_bytes(bytes), Err(CodecError::Decoding), "{:?}", bytes);
    }
    let mut log = b"\xa1\x63Log\x58\x80".to_vec();
    log.extend([5u8; 127]);
    assert_eq!(Message::from_bytes(&log), Err(CodecError::Decoding));
    log.push(5);
    assert_eq!(Message::from_bytes(&log), Ok(Message::log(&[5u8; 128])));
    log.push(5);
    assert_eq!(Message::from_bytes(&log), Err(CodecError::Decoding));
}

#[test]
fn every_integer_comes_back() {
    for v in i16::MIN..=i16::MAX {
        let msg = Message::Mag(v, v.wrapping_neg(), v.wrapping_mul(31));
        assert_eq!(Message::from_bytes(&encoded(&msg)), Ok(msg));
    }
}

#[test]
fn encodings_are_what_a_cbor_reader_sees() {
    let text = |name: &str| Value::Text(name.to_string());
    let entry = |name: &str, value: Value| {
        let mut map = std::collections::BTreeMap::new();
        map.insert(text(name), value);
        Value::Map(map)
    };
    let read = |msg: &Message| serde_cbor::from_slice::<Value>(&encoded(msg)).unwrap();
    assert_eq!(read(&Message::Nop), text("Nop"));
    assert_eq!(read(&Message::Hello), text("Hello"));
    assert_eq!(read(&Message::HelloAck), text("HelloAck"));
    assert_eq!(read(&Message::AccelReq), text("AccelReq"));
    assert_eq!(read(&Message::MagReq), text("MagReq"));
    assert_eq!(
        read(&Message::Mag(-300, 24, 32767)),
        entry(
            "Mag",
            Value::Array(vec![Value::Integer(-300), Value::Integer(24), Value::Integer(32767)])
        )
    );
    assert_eq!(
        read(&Message::Accel(0.1f32.to_bits(), (-1e30f32).to_bits(), 65504.0f32.to_bits())),
        entry(
            "Accel",
            Value::Array(vec![
                Value::Float(0.1f32 as f64),
                Value::Float(-1e30f32 as f64),
                Value::Float(65504.0)
            ])
        )
    );
    let mut bytes = [0u8; 128];
    bytes[..3].copy_from_slice(b"abc");
    assert_eq!(read(&Message::log(b"abc")), entry("Log", Value::Bytes(bytes.to_vec())));
    // and what the same crate writes for names and integers is read back
    let written = serde_cbor::to_vec(&entry(
        "Mag",
        Value::Array(vec![Value::Integer(-300), Value::Integer(24), Value::Integer(32767)]),
    ))
    .unwrap();
    assert_eq!(Message::from_bytes(&written), Ok(Message::Mag(-300, 24, 32767)));
    assert_eq!(Message::from_bytes(&serde_cbor::to_vec(&text("HelloAck")).unwrap()), Ok(Message::HelloAck));
}
