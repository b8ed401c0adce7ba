//! What the board answers to the messages of its host.

use crate::message::Message;
use vstd::prelude::*;

verus! {

/// The readings that the board last took from its sensors.
#[derive(Clone, Copy, Debug, PartialEq, Eq)]
pub struct App {
    /// Magnetic field, raw, along the three axes.
    pub mag_data: (i16, i16, i16),
    /// Acceleration along the three axes, each as the bits of a
    /// single-precision float.
    pub accel_data: (u32, u32, u32),
}

/// The answer that a message calls for, given the readings at hand.
pub open spec fn answer(msg: Message, app: App) -> Option<Message> {
    match msg {
        Message::Hello => Some(Message::HelloAck),
        Message::AccelReq => Some(
            Message::Accel(app.accel_data.0, app.accel_data.1, app.accel_data.2),
        ),
        Message::MagReq => Some(Message::Mag(app.mag_data.0, app.mag_data.1, app.mag_data.2)),
        _ => None,
    }
}

impl App {
    /// No readings yet: all are zero.
    pub fn new() -> (app: App)
        ensures
            app.mag_data == (0i16, 0i16, 0i16),
            app.accel_data == (0u32, 0u32, 0u32),
    {
        App { mag_data: (0, 0, 0), accel_data: (0, 0, 0) }
    }
}

/// The message to send back for `msg`, if it calls for one: a greeting is
/// acknowledged, a request is answered with the readings at hand.
pub fn process_message(msg: Message, app: &App) -> (reply: Option<Message>)
    ensures
        reply == answer(msg, *app),
{
    match msg {
        Message::Hello => Some(Message::HelloAck),
        Message::AccelReq => {
            let accel = &app.accel_data;
            Some(Message::Accel(accel.0, accel.1, accel.2))
        },
        Message::MagReq => {
            let mag = &app.mag_data;
            Some(Message::Mag(mag.0, mag.1, mag.2))
        },
        _ => None,
    }
}

} // verus!
