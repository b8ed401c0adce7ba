use common::board::{process_message, App};
use common::usb::{PROD_ID, VENDOR_ID};
use common::Message;

#[test]
fn a_greeting_is_acknowledged() {
    let app = App::new();
    assert_eq!(process_message(Message::Hello, &app), Some(Message::HelloAck));
}

#[test]
fn requests_are_answered_with_the_readings() {
    let mut app = App::new();
    assert_eq!(app.mag_data, (0, 0, 0));
    assert_eq!(app.accel_data, (0, 0, 0));
    assert_eq!(process_message(Message::MagReq, &app), Some(Message::Mag(0, 0, 0)));
    assert_eq!(process_message(Message::AccelReq, &app), Some(Message::Accel(0, 0, 0)));
    app.mag_data = (-7, 80, 900);
    app.accel_data = (0.5f32.to_bits(), (-9.81f32).to_bits(), 1e-3f32.to_bits());
    assert_eq!(process_message(Message::MagReq, &app), Some(Message::Mag(-7, 80, 900)));
    assert_eq!(
        process_message(Message::AccelReq, &app),
        Some(Message::Accel(0.5f32.to_bits(), (-9.81f32).to_bits(), 1e-3f32.to_bits()))
    );
}

#[test]
fn other_messages_call_for_no_answer() {
    let app = App::new();
    for msg in [
        Message::Nop,
        Message::HelloAck,
        Message::log(b"text"),
        Message::Accel(1, 2, 3),
        Message::Mag(1, 2, 3),
    ] {
        assert_eq!(process_message(msg, &app), None);
    }
}

#[test]
fn the_board_is_known_by_its_identifiers() {
    assert_eq!(VENDOR_ID, 0x1209);
    assert_eq!(PROD_ID, 0x0001);
}
