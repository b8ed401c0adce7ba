//! What follows from the definition of the framing: that a decoder can stop
//! anywhere in the stream and go on later, and that it gets out of a frame
//! the payload that was put in.

use crate::slip::{
    escape, escape_byte, first_end, slip_stream, SlipRun, END, ESC, ESC_END, ESC_ESC,
};
use vstd::prelude::*;

verus! {

/// A run followed by a second one that starts where the first stopped.
pub open spec fn run_then(first: SlipRun, second: SlipRun) -> SlipRun {
    SlipRun {
        read: first.read + second.read,
        out: first.out + second.out,
        end: second.end,
        escaped: second.escaped,
        fault: second.fault,
    }
}

/// A run that took all of its input and neither closed a frame nor met a
/// malformed escape sequence.
pub open spec fn unfinished(run: SlipRun, input: Seq<u8>) -> bool {
    !run.fault && !run.end && run.read == input.len()
}

/// A run takes no more bytes than the input has and puts out no more than
/// there is room for. One that closes a frame has taken the delimiter and is
/// not inside an escape sequence.
pub proof fn lemma_stream_bounds(escaped: bool, input: Seq<u8>, room: nat)
    ensures
        slip_stream(escaped, input, room).read <= input.len(),
        slip_stream(escaped, input, room).out.len() <= room,
        slip_stream(escaped, input, room).end ==> slip_stream(escaped, input, room).read >= 1
            && !slip_stream(escaped, input, room).escaped,
    decreases input.len(),
{
    if input.len() == 0 || room == 0 {
    } else if escaped {
        if input[0] == ESC_END || input[0] == ESC_ESC {
            lemma_stream_bounds(false, input.skip(1), (room - 1) as nat);
        }
    } else if input[0] == END {
    } else if input[0] == ESC {
        lemma_stream_bounds(true, input.skip(1), room);
    } else {
        lemma_stream_bounds(false, input.skip(1), (room - 1) as nat);
    }
}

/// Decoding can stop anywhere and go on later: a run over `a + b` is the run
/// over `a` where that one stops before the end of `a`, and else the run
/// over `a` followed by a run over `b` in the room that is left.
pub proof fn lemma_stream_concat(escaped: bool, a: Seq<u8>, b: Seq<u8>, room: nat)
    ensures
        slip_stream(escaped, a, room).out.len() <= room,
        !unfinished(slip_stream(escaped, a, room), a) ==> slip_stream(escaped, a + b, room)
            == slip_stream(escaped, a, room),
        unfinished(slip_stream(escaped, a, room), a) ==> slip_stream(escaped, a + b, room)
            == run_then(
            slip_stream(escaped, a, room),
            slip_stream(
                slip_stream(escaped, a, room).escaped,
                b,
                (room - slip_stream(escaped, a, room).out.len()) as nat,
            ),
        ),
    decreases a.len(),
{
    let first = slip_stream(escaped, a, room);
    let whole = slip_stream(escaped, a + b, room);
    lemma_stream_bounds(escaped, a, room);
    if a.len() == 0 {
        assert(a + b =~= b);
        let second = slip_stream(escaped, b, room);
        assert(run_then(first, second).out =~= second.out);
    } else if room == 0 {
    } else {
        assert((a + b)[0] == a[0]);
        assert((a + b).skip(1) =~= a.skip(1) + b);
        if escaped {
            if a[0] == ESC_END || a[0] == ESC_ESC {
                let less = (room - 1) as nat;
                lemma_stream_concat(false, a.skip(1), b, less);
                let rest = slip_stream(false, a.skip(1), less);
                if unfinished(rest, a.skip(1)) {
                    let second = slip_stream(rest.escaped, b, (less - rest.out.len()) as nat);
                    assert(run_then(first, second).out =~= whole.out);
                }
            }
        } else if a[0] == END {
        } else if a[0] == ESC {
            lemma_stream_concat(true, a.skip(1), b, room);
        } else {
            let less = (room - 1) as nat;
            lemma_stream_concat(false, a.skip(1), b, less);
            let rest = slip_stream(false, a.skip(1), less);
            if unfinished(rest, a.skip(1)) {
                let second = slip_stream(rest.escaped, b, (less - rest.out.len()) as nat);
                assert(run_then(first, second).out =~= whole.out);
            }
        }
    }
}

/// A decoder gets out of an escaped payload what was put in, and stops behind
/// the delimiter that follows it, whatever comes after that. The payload
/// must be shorter than the room: a decoder with no room left does not take
/// the delimiter.
pub proof fn lemma_stream_frame(payload: Seq<u8>, tail: Seq<u8>, room: nat)
    requires
        payload.len() < room,
    ensures
        slip_stream(false, escape(payload) + seq![END] + tail, room) == (SlipRun {
            read: escape(payload).len() + 1,
            out: payload,
            end: true,
            escaped: false,
            fault: false,
        }),
    decreases payload.len(),
{
    let input = escape(payload) + seq![END] + tail;
    let run = slip_stream(false, input, room);
    if payload.len() == 0 {
        assert(input[0] == END);
        assert(run.out =~= payload);
    } else {
        let first = payload[0];
        let rest = payload.skip(1);
        let less = (room - 1) as nat;
        lemma_stream_frame(rest, tail, less);
        let behind = escape(rest) + seq![END] + tail;
        assert(payload =~= seq![first] + rest);
        if first == END || first == ESC {
            assert(input[0] == ESC);
            assert(input.skip(1)[0] == escape_byte(first)[1]);
            assert(input.skip(1).skip(1) =~= behind);
            let inner = slip_stream(true, input.skip(1), room);
            assert(inner.out =~= payload);
        } else {
            assert(input[0] == first);
            assert(input.skip(1) =~= behind);
            assert(run.out =~= payload);
        }
    }
}

/// The escaped form of a payload is at least as long as the escaped form of
/// its first bytes together with that of the byte behind them.
pub proof fn lemma_escape_take(payload: Seq<u8>, n: int)
    requires
        0 <= n <= payload.len(),
    ensures
        escape(payload.take(n)).len() <= escape(payload).len(),
        n < payload.len() ==> escape(payload.take(n)).len() + escape_byte(payload[n]).len()
            <= escape(payload).len(),
    decreases n,
{
    if n == 0 {
        assert(payload.take(0) =~= Seq::<u8>::empty());
    } else {
        lemma_escape_take(payload.skip(1), n - 1);
        assert(payload.take(n).skip(1) =~= payload.skip(1).take(n - 1));
    }
}

/// A run does not pass a delimiter: one that closes a frame stops behind the
/// first delimiter of the input, and any other stops before it.
pub proof fn lemma_stream_stops_at_end(escaped: bool, input: Seq<u8>, room: nat)
    ensures
        slip_stream(escaped, input, room).end ==> slip_stream(escaped, input, room).read
            == first_end(input) + 1,
        !slip_stream(escaped, input, room).end ==> slip_stream(escaped, input, room).read
            <= first_end(input),
    decreases input.len(),
{
    if input.len() == 0 || room == 0 {
    } else if escaped {
        if input[0] == ESC_END || input[0] == ESC_ESC {
            lemma_stream_stops_at_end(false, input.skip(1), (room - 1) as nat);
        }
    } else if input[0] == END {
    } else if input[0] == ESC {
        lemma_stream_stops_at_end(true, input.skip(1), room);
    } else {
        lemma_stream_stops_at_end(false, input.skip(1), (room - 1) as nat);
    }
}

/// The first delimiter of `a + b` is that of `a` where `a` holds one, and
/// else that of `b`.
pub proof fn lemma_first_end_concat(a: Seq<u8>, b: Seq<u8>)
    ensures
        first_end(a) <= a.len(),
        first_end(a) < a.len() ==> first_end(a + b) == first_end(a),
        first_end(a) == a.len() ==> first_end(a + b) == a.len() + first_end(b),
    decreases a.len(),
{
    if a.len() == 0 {
        assert(a + b =~= b);
    } else {
        assert((a + b)[0] == a[0]);
        if a[0] != END {
            assert((a + b).skip(1) =~= a.skip(1) + b);
            lemma_first_end_concat(a.skip(1), b);
        }
    }
}

/// The position that [`first_end`] gives lies in the input or at its end, and
/// where it lies in the input, a delimiter stands there.
pub proof fn lemma_first_end_is_end(input: Seq<u8>)
    ensures
        first_end(input) <= input.len(),
        first_end(input) < input.len() ==> input[first_end(input) as int] == END,
    decreases input.len(),
{
    if input.len() > 0 && input[0] != END {
        lemma_first_end_is_end(input.skip(1));
    }
}

} // verus!
