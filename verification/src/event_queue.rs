use vstd::prelude::*;

use crate::errors::ErrorCode;

verus! {

/// Number of slots in the fill-event ring buffer. One slot always stays
/// unused, so the queue holds at most `MAX_EVENTS - 1` events.
pub const MAX_EVENTS: usize = 256;

/// One queued settlement record: a fill whose maker-side balance credit is
/// still owed. Fixed-width fields with explicit trailing padding, since the
/// queue's layout is part of the persisted format. The side of the maker's
/// resting order is a tag: 0 for bid, 1 for ask.
#[derive(Clone, Copy, Debug, PartialEq, Eq)]
pub struct FillEvent {
    pub maker_order_id: u64,
    pub taker_order_id: u64,
    pub price: u64,
    pub quantity: u64,
    pub timestamp: i64,
    pub maker_owner: u64,
    pub taker_owner: u64,
    pub market: u64,
    pub maker_side: u8,
    pub padding: [u8; 7],
}

/// Bounded FIFO of fill events awaiting maker-side settlement: a ring buffer
/// over a fixed array of slots, with `head` the next event to pop and `tail`
/// the next free slot.
pub struct EventQueue {
    pub head: u64,
    pub tail: u64,
    pub capacity: u64,
    pub events: Vec<FillEvent>,
}

impl EventQueue {
    pub open spec fn wf(self) -> bool {
        &&& self.capacity == MAX_EVENTS as u64
        &&& self.events@.len() == self.capacity
        &&& self.head < self.capacity
        &&& self.tail < self.capacity
    }

    /// The queued events, oldest first.
    pub open spec fn contents(self) -> Seq<FillEvent> {
        if self.tail >= self.head {
            self.events@.subrange(self.head as int, self.tail as int)
        } else {
            self.events@.subrange(self.head as int, self.capacity as int) + self.events@.subrange(
                0,
                self.tail as int,
            )
        }
    }

    pub open spec fn spec_is_empty(self) -> bool {
        self.head == self.tail
    }

    pub open spec fn spec_is_full(self) -> bool {
        (self.tail + 1) % (self.capacity as int) == self.head
    }

    pub proof fn lemma_len(self)
        requires
            self.wf(),
        ensures
            self.contents().len() == if self.tail >= self.head {
                self.tail - self.head
            } else {
                self.capacity - self.head + self.tail
            },
            self.spec_is_empty() <==> self.contents().len() == 0,
            self.spec_is_full() <==> self.contents().len() == self.capacity - 1,
    {
    }

    pub fn new() -> (q: Self)
        ensures
            q.wf(),
            q.contents() == Seq::<FillEvent>::empty(),
    {
        let blank = FillEvent {
            maker_order_id: 0,
            taker_order_id: 0,
            price: 0,
            quantity: 0,
            timestamp: 0,
            maker_owner: 0,
            taker_owner: 0,
            market: 0,
            maker_side: 0,
            padding: [0, 0, 0, 0, 0, 0, 0],
        };
        let mut events: Vec<FillEvent> = Vec::new();
        let mut i: usize = 0;
        while i < MAX_EVENTS
            invariant
                events@.len() == i,
                i <= MAX_EVENTS,
            decreases MAX_EVENTS - i,
        {
            events.push(blank);
            i = i + 1;
        }
        let q = EventQueue { head: 0, tail: 0, capacity: MAX_EVENTS as u64, events };
        proof {
            assert(q.contents() =~= Seq::<FillEvent>::empty());
        }
        q
    }

    pub fn is_empty(&self) -> (b: bool)
        requires
            self.wf(),
        ensures
            b == self.spec_is_empty(),
            b == (self.contents().len() == 0),
    {
        proof {
            self.lemma_len();
        }
        self.head == self.tail
    }

    pub fn is_full(&self) -> (b: bool)
        requires
            self.wf(),
        ensures
            b == self.spec_is_full(),
            b == (self.contents().len() == self.capacity - 1),
    {
        proof {
            self.lemma_len();
        }
        (self.tail + 1) % self.capacity == self.head
    }

    pub fn len(&self) -> (n: u64)
        requires
            self.wf(),
        ensures
            n == self.contents().len(),
    {
        proof {
            self.lemma_len();
        }
        if self.tail >= self.head {
            self.tail - self.head
        } else {
            self.capacity - self.head + self.tail
        }
    }

    /// Append an event at the tail. Fails only when the queue is full (one
    /// slot shy of `MAX_EVENTS`), and then changes nothing.
    pub fn push_event(&mut self, event: FillEvent) -> (r: Result<(), ErrorCode>)
        requires
            old(self).wf(),
        ensures
            final(self).wf(),
            old(self).spec_is_full() ==> r == Err::<(), ErrorCode>(ErrorCode::EventQueueFull)
                && *final(self) == *old(self),
            !old(self).spec_is_full() ==> r == Ok::<(), ErrorCode>(()) && final(self).contents()
                == old(self).contents().push(event),
    {
        if self.is_full() {
            return Err(ErrorCode::EventQueueFull);
        }
        let ghost pre = *self;
        self.events.set(self.tail as usize, event);
        self.tail = (self.tail + 1) % self.capacity;
        proof {
            let c = pre.capacity as int;
            let t = pre.tail as int;
            if t + 1 == c {
                vstd::arithmetic::div_mod::lemma_mod_self_0(c);
                assert(self.tail == 0);
            } else {
                vstd::arithmetic::div_mod::lemma_small_mod((t + 1) as nat, c as nat);
                assert(self.tail == t + 1);
            }
            assert(self.contents() =~= pre.contents().push(event));
        }
        Ok(())
    }

    /// Pop the oldest event from the head. Fails only when the queue is
    /// empty, and then changes nothing.
    pub fn pop_event(&mut self) -> (r: Result<FillEvent, ErrorCode>)
        requires
            old(self).wf(),
        ensures
            final(self).wf(),
            old(self).spec_is_empty() ==> r == Err::<FillEvent, ErrorCode>(
                ErrorCode::EventQueueEmpty,
            ) && *final(self) == *old(self),
            !old(self).spec_is_empty() ==> r == Ok::<FillEvent, ErrorCode>(
                old(self).contents()[0],
            ) && final(self).contents() == old(self).contents().drop_first(),
    {
        if self.is_empty() {
            return Err(ErrorCode::EventQueueEmpty);
        }
        let ghost pre = *self;
        let event = self.events[self.head as usize];
        self.head = (self.head + 1) % self.capacity;
        proof {
            let c = pre.capacity as int;
            let h = pre.head as int;
            if h + 1 == c {
                vstd::arithmetic::div_mod::lemma_mod_self_0(c);
                assert(self.head == 0);
            } else {
                vstd::arithmetic::div_mod::lemma_small_mod((h + 1) as nat, c as nat);
                assert(self.head == h + 1);
            }
            assert(self.contents() =~= pre.contents().drop_first());
        }
        Ok(event)
    }

    /// Read the oldest event without removing it.
    pub fn peek_event(&self) -> (r: Result<FillEvent, ErrorCode>)
        requires
            self.wf(),
        ensures
            self.spec_is_empty() ==> r == Err::<FillEvent, ErrorCode>(ErrorCode::EventQueueEmpty),
            !self.spec_is_empty() ==> r == Ok::<FillEvent, ErrorCode>(self.contents()[0]),
    {
        if self.is_empty() {
            return Err(ErrorCode::EventQueueEmpty);
        }
        Ok(self.events[self.head as usize])
    }
}

} // verus!
