use common::message_queue::{Error, MessageQueue};
use common::Message;

#[test]
fn capacity() {
    let mut mm = MessageQueue::new();
    let msg = Message::Nop;
    for _ in 0..mm.capacity() {
        mm.enqueue(&msg).unwrap();
    }
    assert!(mm.enqueue(&msg).is_err());

    for _ in 0..mm.capacity() {
        let _ = mm.dequeue().unwrap();
    }

    assert!(mm.dequeue().is_none());
}

#[test]
fn wrap() {
    let mut mm = MessageQueue::new();
    let msg = Message::Hello;

    for _ in 0..mm.capacity() {
        mm.enqueue(&msg).unwrap();
    }
    assert!(mm.enqueue(&msg).is_err());
    let _ = mm.dequeue().unwrap();
    assert!(mm.enqueue(&msg).is_ok());
}

#[test]
fn contents() {
    let mut mm = MessageQueue::new();
    let msg = Message::Hello;
    mm.enqueue(&msg).unwrap();
    let rmsg = mm.dequeue().unwrap();
    match rmsg {
        Message::Hello => {}
        _ => {
            assert!(false);
        }
    }
}

#[test]
fn a_new_queue_is_empty() {
    let mut mm = MessageQueue::new();
    assert_eq!(mm.capacity(), 10);
    assert_eq!(mm.count(), 0);
    assert_eq!(mm.available_empty(), 10);
    for _ in 0..25 {
        assert_eq!(mm.dequeue(), None);
        assert_eq!(mm.count(), 0);
    }
    mm.enqueue(&Message::MagReq).unwrap();
    assert_eq!(mm.dequeue(), Some(Message::MagReq));
    assert_eq!(mm.dequeue(), None);
}

#[test]
fn a_full_queue_refuses_and_keeps_what_it_holds() {
    let mut mm = MessageQueue::new();
    for i in 0..10 {
        assert_eq!(mm.enqueue(&Message::Mag(i, 0, 0)), Ok(()));
        assert_eq!(mm.count(), i as usize + 1);
        assert_eq!(mm.available_empty(), 9 - i as usize);
    }
    assert_eq!(mm.enqueue(&Message::Hello), Err(Error::Full));
    assert_eq!(mm.enqueue(&Message::Hello), Err(Error::Full));
    assert_eq!(mm.count(), 10);
    assert_eq!(mm.available_empty(), 0);
    for i in 0..10 {
        assert_eq!(mm.dequeue(), Some(Message::Mag(i, 0, 0)));
    }
    assert_eq!(mm.dequeue(), None);
}

#[test]
fn order_is_kept_across_the_end_of_the_ring() {
    let mut mm = MessageQueue::new();
    let mut next_in: i16 = 0;
    let mut next_out: i16 = 0;
    for _ in 0..10 {
        mm.enqueue(&Message::Mag(next_in, 1, 2)).unwrap();
        next_in += 1;
    }
    for _ in 0..30 {
        assert_eq!(mm.dequeue(), Some(Message::Mag(next_out, 1, 2)));
        next_out += 1;
        assert_eq!(mm.count(), 9);
        assert_eq!(mm.enqueue(&Message::Mag(next_in, 1, 2)), Ok(()));
        next_in += 1;
        assert_eq!(mm.count(), 10);
        assert_eq!(mm.enqueue(&Message::Nop), Err(Error::Full));
    }
    while let Some(msg) = mm.dequeue() {
        assert_eq!(msg, Message::Mag(next_out, 1, 2));
        next_out += 1;
    }
    assert_eq!(next_out, next_in);
    assert_eq!(next_in, 40);
    assert_eq!(mm.count(), 0);
}
