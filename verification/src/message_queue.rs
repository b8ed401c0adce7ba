//! A bounded first-in, first-out queue of messages.

use crate::message::Message;
use vstd::prelude::*;

verus! {

/// Why an operation on the queue was refused.
#[derive(Clone, Copy, Debug, PartialEq, Eq)]
pub enum Error {
    /// The queue already holds as many messages as it has slots.
    Full,
}

/// Number of slots of a queue.
pub const CAPACITY: usize = 10;

/// A ring buffer of messages: `count` messages, the oldest in slot `read`.
pub struct MessageQueue {
    count: usize,
    read: usize,
    capacity: usize,
    buf: [Message; 10],
}

/// What a queue of `capacity` slots holds after an attempt to enqueue `msg`:
/// the message goes behind the others, unless the queue is full.
pub open spec fn after_enqueue(items: Seq<Message>, capacity: nat, msg: Message) -> Seq<Message> {
    if items.len() < capacity {
        items.push(msg)
    } else {
        items
    }
}

/// What a queue holds after an attempt to dequeue: all but the oldest message.
pub open spec fn after_dequeue(items: Seq<Message>) -> Seq<Message> {
    if items.len() > 0 {
        items.skip(1)
    } else {
        items
    }
}

/// What a queue holds after attempts to enqueue each of `msgs` in turn.
pub open spec fn after_enqueues(items: Seq<Message>, capacity: nat, msgs: Seq<Message>) -> Seq<
    Message,
>
    decreases msgs.len(),
{
    if msgs.len() == 0 {
        items
    } else {
        after_enqueues(after_enqueue(items, capacity, msgs[0]), capacity, msgs.skip(1))
    }
}

/// What a queue holds after one dequeue and one enqueue for each of `msgs` in
/// turn.
pub open spec fn after_cycles(items: Seq<Message>, capacity: nat, msgs: Seq<Message>) -> Seq<
    Message,
>
    decreases msgs.len(),
{
    if msgs.len() == 0 {
        items
    } else {
        after_cycles(
            after_enqueue(after_dequeue(items), capacity, msgs[0]),
            capacity,
            msgs.skip(1),
        )
    }
}

/// The slot that lies `a` steps after slot `x` in a ring of `capacity` slots.
pub open spec fn ring_next(x: int, a: int, capacity: int) -> int {
    (x + a) % capacity
}

impl View for MessageQueue {
    type V = Seq<Message>;

    /// The queued messages, oldest first.
    closed spec fn view(&self) -> Seq<Message> {
        Seq::new(
            self.count as nat,
            |i: int| self.buf@[ring_next(self.read as int, i, self.capacity as int)],
        )
    }
}

impl MessageQueue {
    #[verifier::type_invariant]
    spec fn inv(&self) -> bool {
        &&& self.capacity == CAPACITY
        &&& self.count <= self.capacity
        &&& self.read < self.capacity
    }

    /// The number of slots, as contracts speak of it.
    pub closed spec fn spec_capacity(&self) -> nat {
        self.capacity as nat
    }

    /// An empty queue.
    pub fn new() -> (q: MessageQueue)
        ensures
            q@ == Seq::<Message>::empty(),
            q.spec_capacity() == CAPACITY,
    {
        let buf = [Message::Nop; 10];
        MessageQueue { count: 0, read: 0, capacity: 10, buf }
    }

    /// Appends `msg` behind the newest message. Fails, and leaves the queue as
    /// it was, where the queue is full.
    pub fn enqueue(&mut self, msg: &Message) -> (r: Result<(), Error>)
        ensures
            final(self).spec_capacity() == old(self).spec_capacity(),
            final(self)@ == after_enqueue(old(self)@, old(self).spec_capacity(), *msg),
            final(self)@.len() <= final(self).spec_capacity(),
            r is Ok <==> old(self)@.len() < old(self).spec_capacity(),
            r matches Err(e) ==> e == Error::Full,
    {
        proof {
            use_type_invariant(&*self);
        }
        if self.count == self.capacity {
            Err(Error::Full)
        } else {
            let slot = self.next(self.read, self.count);
            let ghost before = *self;
            self.buf[slot] = *msg;
            self.count += 1;
            proof {
                assert(self@ =~= before@.push(*msg)) by {
                    assert forall|i: int| 0 <= i < before.count implies ring_next(
                        before.read as int,
                        i,
                        10,
                    ) != slot by {
                        lemma_ring_distinct(before.read as int, i, before.count as int, 10);
                    }
                }
            }
            Ok(())
        }
    }

    /// Removes and returns the oldest message, if there is one.
    pub fn dequeue(&mut self) -> (r: Option<Message>)
        ensures
            final(self).spec_capacity() == old(self).spec_capacity(),
            final(self)@ == after_dequeue(old(self)@),
            final(self)@.len() <= final(self).spec_capacity(),
            r is Some <==> old(self)@.len() > 0,
            r matches Some(m) ==> m == old(self)@[0],
    {
        proof {
            use_type_invariant(&*self);
        }
        if self.count == 0 {
            None
        } else {
            let ghost before = *self;
            let readloc = self.read;
            let following = self.next(self.read, 1);
            self.count -= 1;
            self.read = following;
            proof {
                assert(self@ =~= before@.skip(1)) by {
                    assert forall|i: int| 0 <= i < self.count implies ring_next(
                        self.read as int,
                        i,
                        10,
                    ) == ring_next(before.read as int, i + 1, 10) by {
                        lemma_ring_shift(before.read as int, i, 10);
                    }
                }
                assert(before@[0] == before.buf@[readloc as int]);
            }
            Some(self.buf[readloc])
        }
    }

    fn next(&self, x: usize, a: usize) -> (r: usize)
        requires
            x <= CAPACITY,
            a <= CAPACITY,
        ensures
            r == ring_next(x as int, a as int, self.spec_capacity() as int),
            r < self.spec_capacity(),
    {
        proof {
            use_type_invariant(self);
        }
        (x + a) % self.capacity
    }

    /// The number of slots.
    pub fn capacity(&self) -> (r: usize)
        ensures
            r == self.spec_capacity(),
            r == CAPACITY,
    {
        proof {
            use_type_invariant(self);
        }
        self.capacity
    }

    /// The number of queued messages.
    pub fn count(&self) -> (r: usize)
        ensures
            r == self@.len(),
            r <= self.spec_capacity(),
    {
        proof {
            use_type_invariant(self);
        }
        self.count
    }

    /// The number of messages that can still be enqueued.
    pub fn available_empty(&self) -> (r: usize)
        ensures
            r == self.spec_capacity() - self@.len(),
    {
        proof {
            use_type_invariant(self);
        }
        self.capacity - self.count
    }
}

/// Messages for which there is room all go in, in their order.
pub proof fn lemma_enqueues_fit(items: Seq<Message>, capacity: nat, msgs: Seq<Message>)
    requires
        items.len() + msgs.len() <= capacity,
    ensures
        after_enqueues(items, capacity, msgs) == items + msgs,
    decreases msgs.len(),
{
    if msgs.len() == 0 {
        assert(items + msgs =~= items);
    } else {
        lemma_enqueues_fit(items.push(msgs[0]), capacity, msgs.skip(1));
        assert(items.push(msgs[0]) + msgs.skip(1) =~= items + msgs);
    }
}

/// A queue that was filled from empty holds what went in, and refuses one
/// message more: it stays as it is, with as many messages as it has slots and
/// the same message at its head.
pub proof fn lemma_full_refuses(capacity: nat, msgs: Seq<Message>, extra: Message)
    requires
        msgs.len() == capacity,
    ensures
        after_enqueues(Seq::empty(), capacity, msgs) == msgs,
        after_enqueue(msgs, capacity, extra) == msgs,
        after_enqueues(Seq::empty(), capacity, msgs.push(extra)) == msgs,
{
    lemma_enqueues_fit(Seq::empty(), capacity, msgs);
    assert(Seq::<Message>::empty() + msgs =~= msgs);
    let one = seq![extra];
    lemma_enqueues_split(Seq::empty(), capacity, msgs, one);
    assert(msgs + one =~= msgs.push(extra));
    assert(one.len() == 1 && one[0] == extra);
    assert(after_enqueues(msgs, capacity, one.skip(1)) == msgs);
    assert(after_enqueues(msgs, capacity, one) == msgs);
}

/// Enqueuing `first` and then `second` is enqueuing both, one behind the
/// other.
pub proof fn lemma_enqueues_split(
    items: Seq<Message>,
    capacity: nat,
    first: Seq<Message>,
    second: Seq<Message>,
)
    ensures
        after_enqueues(items, capacity, first + second) == after_enqueues(
            after_enqueues(items, capacity, first),
            capacity,
            second,
        ),
    decreases first.len(),
{
    if first.len() == 0 {
        assert(first + second =~= second);
    } else {
        lemma_enqueues_split(
            after_enqueue(items, capacity, first[0]),
            capacity,
            first.skip(1),
            second,
        );
        assert((first + second).skip(1) =~= first.skip(1) + second);
    }
}

/// Messages leave in the order in which they came, however often the ring
/// wraps around: after one dequeue and one enqueue for each of `msgs`, a queue
/// that held `items` holds what is left of `items` and `msgs`, in that order,
/// without the messages that have left; it holds as many as before.
pub proof fn lemma_cycles_keep_order(items: Seq<Message>, capacity: nat, msgs: Seq<Message>)
    requires
        1 <= items.len() <= capacity,
    ensures
        after_cycles(items, capacity, msgs) == (items + msgs).skip(msgs.len() as int),
        after_cycles(items, capacity, msgs).len() == items.len(),
    decreases msgs.len(),
{
    if msgs.len() == 0 {
        assert((items + msgs).skip(0) =~= items);
    } else {
        let next = items.skip(1).push(msgs[0]);
        lemma_cycles_keep_order(next, capacity, msgs.skip(1));
        assert((next + msgs.skip(1)).skip(msgs.len() - 1) =~= (items + msgs).skip(
            msgs.len() as int,
        ));
    }
}

/// An empty queue stays empty under dequeues.
pub proof fn lemma_empty_stays_empty()
    ensures
        after_dequeue(Seq::empty()) == Seq::<Message>::empty(),
{
}

/// Two different offsets below the ring's size lead to different slots.
proof fn lemma_ring_distinct(read: int, i: int, j: int, capacity: int)
    requires
        0 <= read < capacity,
        0 <= i < j < capacity,
    ensures
        ring_next(read, i, capacity) != ring_next(read, j, capacity),
{
    let a = read + i;
    let b = read + j;
    if a < capacity {
        assert(a % capacity == a) by (nonlinear_arith)
            requires
                0 <= a < capacity,
        ;
    } else {
        assert(a % capacity == a - capacity) by (nonlinear_arith)
            requires
                capacity <= a < 2 * capacity,
        ;
    }
    if b < capacity {
        assert(b % capacity == b) by (nonlinear_arith)
            requires
                0 <= b < capacity,
        ;
    } else {
        assert(b % capacity == b - capacity) by (nonlinear_arith)
            requires
                capacity <= b < 2 * capacity,
        ;
    }
}

/// Stepping once and then `i` times is stepping `i + 1` times.
proof fn lemma_ring_shift(read: int, i: int, capacity: int)
    requires
        0 <= read < capacity,
        0 <= i < capacity,
    ensures
        ring_next(ring_next(read, 1, capacity), i, capacity) == ring_next(read, i + 1, capacity),
{
    vstd::arithmetic::div_mod::lemma_add_mod_noop(read + 1, i, capacity);
    vstd::arithmetic::div_mod::lemma_small_mod(i as nat, capacity as nat);
}

} // verus!
