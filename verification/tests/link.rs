use common::link::{Link, LinkError, SlipError, MAX_PACKET_SIZE};
use common::Message;

fn echo_test(msg: Message) {
    let mut buf = [0u8; MAX_PACKET_SIZE];
    let mut link = Link::new();
    let size = link.encode(&msg, &mut buf).unwrap();
    let (_size, rx) = link.decode(&buf[..size]).unwrap();
    assert_eq!(msg, rx.unwrap());
}

fn multi_message_encode(msgs: &Vec<Message>, link: &mut Link) -> (usize, Vec<u8>) {
    let mut buf = vec![0u8; msgs.len() * MAX_PACKET_SIZE];
    println!("Buffer size: {}", buf.len());
    let mut offset = 0;
    for msg in msgs {
        let size = link.encode(&msg, &mut buf[offset..]).unwrap();
        println!("SIZE: {} Offset: {} Buf: {:?}", size, offset, &buf[offset..size + offset]);
        offset += size;
    }
    (offset, buf)
}

fn multi_message_decode(msgs: &Vec<Message>, link: &mut Link, buf: &[u8]) {
    let mut msgindex = 0;
    let mut offset = 0;
    loop {
        let (size, rx) = link.decode(&buf[offset..]).unwrap();
        println!("Buf {:?}", &buf[offset..]);
        if size == 0 {
            break;
        }
        if rx.is_some() {
            assert_eq!(msgs[msgindex], rx.unwrap());
            msgindex += 1;
        }
        offset += size;
    }
    assert_eq!(msgindex, msgs.len());
    assert_eq!(offset, buf.len());
}

#[test]
fn say_hello() {
    echo_test(Message::Hello);
}

#[test]
fn large_buffer() {
    echo_test(Message::log(b"Hello, World"))
}

#[test]
fn multiple_message() {
    let msgs = vec![Message::Hello, Message::Hello];
    let mut link = Link::new();
    let (length, buf) = multi_message_encode(&msgs, &mut link);
    multi_message_decode(&msgs, &mut link, &buf[..length]);
}

#[test]
fn bad_message() {
    let mut offset = 0;
    let input = vec![
        192, 111, 73, 111, 118, 118, 111, 192, 192, 101, 72, 101, 108, 108, 111, 192,
    ];
    let mut link = Link::new();
    let (sz, msg) = link.decode(&input).unwrap();
    offset += sz;
    assert!(msg.is_none());
    let (sz, msg) = link.decode(&input[offset..]).unwrap();
    offset += sz;
    assert!(msg.is_none());
    let (_, msg) = link.decode(&input[offset..]).unwrap();
    assert_eq!(Message::Hello, msg.unwrap());
}

#[test]
fn partial_decodes() {
    let input = vec![192, 101, 72, 101, 108, 108, 111, 192];
    let mut link = Link::new();
    let (sz, msg) = link.decode(&input[..2]).unwrap();
    assert!(msg.is_none());
    assert_eq!(sz, 2);
    let (sz, msg) = link.decode(&input[sz..]).unwrap();
    assert!(msg.is_some());
    assert_eq!(sz, 6);
}

fn every_kind() -> Vec<Message> {
    let mut text = [0u8; 128];
    for (i, b) in text.iter_mut().enumerate() {
        *b = (i as u8).wrapping_mul(3).wrapping_add(0xC0);
    }
    vec![
        Message::Nop,
        Message::Hello,
        Message::HelloAck,
        Message::log(&text),
        Message::log(&[0xC0; 128]),
        Message::log(&[0xDB; 128]),
        Message::AccelReq,
        Message::Accel(1.5f32.to_bits(), (-0.25f32).to_bits(), f32::NAN.to_bits()),
        Message::Accel(0xC0C0_C0C0, 0xDBDB_DBDB, 0xDCDD_C0DB),
        Message::MagReq,
        Message::Mag(0, -1, 23),
        Message::Mag(24, -25, 255),
        Message::Mag(256, -257, 0x00C0),
        Message::Mag(i16::MAX, i16::MIN, -0x24FF),
    ]
}

#[test]
fn round_trip_of_every_kind() {
    for msg in every_kind() {
        let mut buf = [0u8; 2 * MAX_PACKET_SIZE];
        let mut link = Link::new();
        let size = link.encode(&msg, &mut buf).unwrap();
        let (consumed, rx) = link.decode(&buf[..size]).unwrap();
        assert_eq!(consumed, size);
        assert_eq!(rx, Some(msg));
    }
}

#[test]
fn frame_of_hello_is_delimited() {
    let mut buf = [0u8; 16];
    let mut link = Link::new();
    let size = link.encode(&Message::Hello, &mut buf).unwrap();
    assert_eq!(&buf[..size], &[192, 101, 72, 101, 108, 108, 111, 192]);
    assert_eq!(&buf[size..], &[0u8; 8]);
}

#[test]
fn reserved_bytes_are_escaped() {
    let mut buf = [0u8; 32];
    let mut link = Link::new();
    let size = link.encode(&Message::Mag(0x00C0, 0x00DB, 1), &mut buf).unwrap();
    assert_eq!(
        &buf[..size],
        &[0xC0, 0xA1, 0x63, 0x4D, 0x61, 0x67, 0x83, 0x18, 0xDB, 0xDC, 0x18, 0xDB, 0xDD, 0x01, 0xC0]
    );
    let (consumed, rx) = link.decode(&buf[..size]).unwrap();
    assert_eq!(consumed, size);
    assert_eq!(rx, Some(Message::Mag(0x00C0, 0x00DB, 1)));
}

#[test]
fn encode_refuses_short_output() {
    let mut link = Link::new();
    let mut none: [u8; 0] = [];
    assert_eq!(
        link.encode(&Message::Hello, &mut none),
        Err(LinkError::Slip(SlipError::NoOutputSpaceForHeader))
    );
    for room in 1..7 {
        let mut buf = vec![0u8; room];
        assert_eq!(
            link.encode(&Message::Hello, &mut buf),
            Err(LinkError::Slip(SlipError::NoOutputSpaceForPayload))
        );
    }
    let mut buf = [0u8; 7];
    assert_eq!(
        link.encode(&Message::Hello, &mut buf),
        Err(LinkError::Slip(SlipError::NoOutputSpaceForEndByte))
    );
    let mut buf = [0u8; 8];
    assert_eq!(link.encode(&Message::Hello, &mut buf), Ok(8));
}

#[test]
fn encode_refuses_output_that_splits_an_escape() {
    // 0xC0 needs two bytes on the wire; one free byte is not enough.
    let msg = Message::Mag(1, 2, 0x00C0);
    let mut link = Link::new();
    let mut buf = [0u8; 11];
    assert_eq!(
        link.encode(&msg, &mut buf),
        Err(LinkError::Slip(SlipError::NoOutputSpaceForPayload))
    );
    let mut buf = [0u8; 12];
    assert_eq!(
        link.encode(&msg, &mut buf),
        Err(LinkError::Slip(SlipError::NoOutputSpaceForEndByte))
    );
    let mut buf = [0u8; 13];
    assert_eq!(link.encode(&msg, &mut buf), Ok(13));
}

#[test]
fn two_frames_in_one_buffer() {
    let first = Message::Mag(-3, 0x00C0, 4000);
    let second = Message::log(b"second");
    let mut buf = [0u8; 2 * MAX_PACKET_SIZE];
    let mut link = Link::new();
    let a = link.encode(&first, &mut buf).unwrap();
    let b = link.encode(&second, &mut buf[a..]).unwrap();
    let mut rx = Link::new();
    assert_eq!(rx.decode_all(&buf[..a + b]), vec![first, second]);

    let mut rx = Link::new();
    let mut offset = 0;
    let mut seen = Vec::new();
    while offset < a + b {
        let (size, msg) = rx.decode(&buf[offset..a + b]).unwrap();
        assert!(size > 0);
        seen.extend(msg);
        offset += size;
    }
    assert_eq!(offset, a + b);
    assert_eq!(seen, vec![first, second]);
}

#[test]
fn a_frame_split_anywhere() {
    for msg in every_kind() {
        let mut buf = [0u8; 2 * MAX_PACKET_SIZE];
        let size = Link::new().encode(&msg, &mut buf).unwrap();
        for cut in 0..size {
            let mut link = Link::new();
            let (taken, rx) = link.decode(&buf[..cut]).unwrap();
            assert_eq!((taken, rx), (cut, None));
            let (taken, rx) = link.decode(&buf[cut..size]).unwrap();
            assert_eq!((taken, rx), (size - cut, Some(msg)));
        }
    }
}

#[test]
fn a_frame_fed_byte_by_byte() {
    let msg = Message::log(&[0xDB; 100]);
    let mut buf = [0u8; 2 * MAX_PACKET_SIZE];
    let size = Link::new().encode(&msg, &mut buf).unwrap();
    let mut link = Link::new();
    for i in 0..size - 1 {
        assert_eq!(link.decode(&buf[i..i + 1]), Ok((1, None)));
    }
    assert_eq!(link.decode(&buf[size - 1..size]), Ok((1, Some(msg))));
}

#[test]
fn empty_input_and_empty_frames() {
    let mut link = Link::new();
    assert_eq!(link.decode(&[]), Ok((0, None)));
    // the delimiter that opens the stream, then the frame behind it
    assert_eq!(link.decode(&[192, 192, 192]), Ok((2, None)));
    assert_eq!(link.decode(&[192]), Ok((1, None)));
    assert_eq!(link.decode(&[]), Ok((0, None)));
    assert_eq!(link.decode(&[101, 72, 101, 108, 108, 111, 192]), Ok((7, Some(Message::Hello))));
}

#[test]
fn noise_before_the_first_delimiter_is_passed_over() {
    let mut link = Link::new();
    assert_eq!(link.decode(&[1, 2, 3]), Ok((3, None)));
    assert_eq!(link.decode(&[4, 5, 192, 101, 72]), Ok((3, None)));
    assert_eq!(link.decode(&[101, 72, 101, 108, 108, 111, 192]), Ok((7, Some(Message::Hello))));
}

#[test]
fn a_malformed_escape_drops_the_frame() {
    let mut link = Link::new();
    let input = [192, 101, 72, 0xDB, 0x00, 108, 111, 192, 101, 72, 101, 108, 108, 111, 192];
    // the first delimiter of the input is where decoding starts again
    assert_eq!(link.decode(&input), Ok((1, None)));
    assert_eq!(link.decode(&input[1..]), Ok((7, None)));
    assert_eq!(link.decode(&input[8..]), Ok((7, Some(Message::Hello))));

    let mut link = Link::new();
    assert_eq!(link.decode(&[192, 101]), Ok((2, None)));
    assert_eq!(link.decode(&input[2..]), Ok((6, None)));
    assert_eq!(link.decode(&input[8..]), Ok((7, Some(Message::Hello))));
}

#[test]
fn a_delimiter_in_an_escape_drops_the_frame() {
    let mut link = Link::new();
    assert_eq!(link.decode(&[192, 101, 72, 0xDB]), Ok((4, None)));
    let rest = [192, 101, 72, 101, 108, 108, 111, 192];
    assert_eq!(link.decode(&rest), Ok((1, None)));
    assert_eq!(link.decode(&rest[1..]), Ok((7, Some(Message::Hello))));
}

#[test]
fn a_payload_that_outgrows_the_buffer_is_dropped() {
    let mut link = Link::new();
    let mut input = vec![192u8];
    input.extend(std::iter::repeat(7u8).take(300));
    input.push(192);
    input.extend([101, 72, 101, 108, 108, 111, 192]);
    assert_eq!(link.decode(&input), Ok((1, None)));
    assert_eq!(link.decode(&input[1..]), Ok((301, None)));
    assert_eq!(link.decode(&input[302..]), Ok((7, Some(Message::Hello))));

    // the same, with the payload arriving in pieces
    let mut link = Link::new();
    assert_eq!(link.decode(&input[..200]), Ok((200, None)));
    assert_eq!(link.decode(&input[200..257]), Ok((57, None)));
    assert_eq!(link.decode(&input[257..290]), Ok((33, None)));
    assert_eq!(link.decode(&input[290..]), Ok((12, None)));
    assert_eq!(link.decode(&input[302..]), Ok((7, Some(Message::Hello))));
}

#[test]
fn decode_all_of_nothing() {
    let mut link = Link::new();
    assert_eq!(link.decode_all(&[]), vec![]);
    assert_eq!(link.decode_all(&[192, 192, 1, 2, 3, 192]), vec![]);
    assert_eq!(link.decode_all(&[99, 78]), vec![]);
    assert_eq!(link.decode_all(&[111, 112, 192, 192]), vec![Message::Nop]);
}

#[test]
fn a_frame_comes_through_whatever_went_before() {
    let hello = [192u8, 101, 72, 101, 108, 108, 111, 192];
    let mut long = vec![0x11u8; 700];
    long[300] = 0xDB;
    let before: Vec<Vec<u8>> = vec![
        vec![],
        vec![192],
        vec![192, 192, 192],
        vec![1, 2, 3],
        vec![0xDB],
        vec![192, 0xDB],
        vec![192, 1, 0xDB, 0xDB, 2],
        vec![192, 101, 72, 101, 108],
        vec![0xDB, 0xDC, 0xDB, 0xDD, 0xDB],
        long,
    ];
    for first in &before {
        for second in &before {
            let mut link = Link::new();
            link.decode_all(first);
            let mut input = second.clone();
            input.extend(hello);
            let messages = link.decode_all(&input);
            assert_eq!(messages.last(), Some(&Message::Hello), "{:?} {:?}", first, second);
            // the link is between two frames now
            assert_eq!(link.decode(&hello[1..]), Ok((7, Some(Message::Hello))));
        }
    }
}

#[test]
fn a_frame_that_completes_what_was_under_way() {
    let mut link = Link::new();
    assert_eq!(link.decode(&[192, 99, 78, 111, 112]), Ok((5, None)));
    // the delimiter that opens the next frame closes this one
    assert_eq!(
        link.decode_all(&[192, 101, 72, 101, 108, 108, 111, 192]),
        vec![Message::Nop, Message::Hello]
    );
}

fn drained(pieces: &[&[u8]]) -> (Vec<Message>, Link) {
    let mut link = Link::new();
    let mut messages = Vec::new();
    for piece in pieces {
        messages.extend(link.decode_all(piece));
    }
    (messages, link)
}

#[test]
fn it_does_not_matter_where_the_stream_is_cut() {
    // streams of frames, delimiters, escape bytes and noise, from a fixed seed
    let mut seed: u32 = 0x2545_F491;
    let mut next = move || {
        seed = seed.wrapping_mul(1_664_525).wrapping_add(1_013_904_223);
        (seed >> 16) as u8
    };
    let mut frames: Vec<Vec<u8>> = Vec::new();
    for msg in every_kind() {
        let mut buf = [0u8; 2 * MAX_PACKET_SIZE];
        let size = Link::new().encode(&msg, &mut buf).unwrap();
        frames.push(buf[..size].to_vec());
    }
    for _ in 0..60 {
        let mut stream: Vec<u8> = Vec::new();
        while stream.len() < 80 {
            match next() % 8 {
                0 => stream.extend(&frames[next() as usize % frames.len()]),
                1 => stream.push(0xC0),
                2 => stream.push(0xDB),
                3 => stream.extend([0xDB, 0xDC]),
                4 => stream.extend([0xDB, 0xDD]),
                5 => stream.extend(std::iter::repeat(next()).take(next() as usize + 100)),
                _ => stream.push(next()),
            }
        }
        let (whole, mut at_end) = drained(&[&stream]);
        for cut in 0..=stream.len() {
            let (pieces, mut link) = drained(&[&stream[..cut], &stream[cut..]]);
            assert_eq!(pieces, whole, "cut at {} of {:?}", cut, stream);
            // both links go on alike
            let probe = [0xDC, 0xC0, 0x63, 0x4E, 0x6F, 0x70, 0xC0];
            assert_eq!(link.decode_all(&probe), at_end.decode_all(&probe));
            let (_, fresh) = drained(&[&stream]);
            at_end = fresh;
        }
    }
}
