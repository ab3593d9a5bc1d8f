//! Queueing observed document updates for a caller that drains them one at a time.
//!
//! The queue is bounded in events and in bytes. Overflowing either bound drops everything
//! queued and asks the caller to resynchronise from a state vector instead.
use std::collections::VecDeque;

use vstd::prelude::*;

use crate::model::{UpdateEvent, UpdateOrigin};

verus! {

pub const MAX_PENDING_UPDATE_EVENTS: usize = 1024;

pub const MAX_PENDING_UPDATE_BYTES: usize = 8388608;

/// The marker a drained resync request consists of.
pub const RESYNC_MARKER: u8 = 2;

/// Total length of a list of updates.
pub open spec fn total_len(events: Seq<UpdateEvent>) -> nat
    decreases events.len(),
{
    if events.len() == 0 {
        0
    } else {
        total_len(events.drop_last()) + events.last().update@.len()
    }
}

/// The byte that tags a drained update with its origin.
pub open spec fn origin_byte(origin: UpdateOrigin) -> u8 {
    match origin {
        UpdateOrigin::Local => 0,
        UpdateOrigin::Remote => 1,
    }
}

/// A drained update: its origin byte, then the update itself.
pub open spec fn encoded_event(event: UpdateEvent) -> Seq<u8> {
    seq![origin_byte(event.origin)] + event.update@
}

/// Updates observed and not yet drained.
pub struct PendingUpdates {
    events: VecDeque<UpdateEvent>,
    queued_bytes: usize,
    resync_required: bool,
}

impl PendingUpdates {
    /// The queued updates, oldest first.
    pub closed spec fn queue(&self) -> Seq<UpdateEvent> {
        self.events@
    }

    /// The byte count the queue tracks.
    pub closed spec fn queued_bytes(&self) -> nat {
        self.queued_bytes as nat
    }

    /// Whether the caller must resynchronise before draining more updates.
    pub closed spec fn resync_required(&self) -> bool {
        self.resync_required
    }

    /// The queue holds at most the bounds, counts its bytes exactly, and is empty while a
    /// resync is pending.
    pub open spec fn wf(&self) -> bool {
        &&& self.queue().len() <= MAX_PENDING_UPDATE_EVENTS
        &&& self.queued_bytes() == total_len(self.queue())
        &&& self.queued_bytes() <= MAX_PENDING_UPDATE_BYTES
        &&& self.resync_required() ==> self.queue().len() == 0
    }

    /// An empty queue.
    pub fn new() -> (result: Self)
        ensures
            result.wf(),
            result.queue().len() == 0,
            !result.resync_required(),
    {
        PendingUpdates { events: VecDeque::new(), queued_bytes: 0, resync_required: false }
    }

    /// Whether one more event of `len` bytes would overflow a queue holding `count` events
    /// of `bytes` bytes.
    pub open spec fn overflows(count: nat, bytes: nat, len: nat) -> bool {
        count == MAX_PENDING_UPDATE_EVENTS || bytes + len > MAX_PENDING_UPDATE_BYTES
    }

    /// Records one observed update. While a resync is pending the update is dropped; if it
    /// would overflow the queue, everything queued is dropped and a resync is requested.
    pub fn record(&mut self, event: UpdateEvent)
        requires
            old(self).wf(),
        ensures
            final(self).wf(),
            old(self).resync_required() ==> final(self).queue() == old(self).queue()
                && final(self).resync_required(),
            !old(self).resync_required() && Self::overflows(
                old(self).queue().len(),
                old(self).queued_bytes(),
                event.update@.len(),
            ) ==> final(self).queue().len() == 0 && final(self).resync_required(),
            !old(self).resync_required() && !Self::overflows(
                old(self).queue().len(),
                old(self).queued_bytes(),
                event.update@.len(),
            ) ==> final(self).queue() == old(self).queue().push(event)
                && !final(self).resync_required(),
    {
        if self.resync_required {
            return;
        }
        let len = event.update.len();
        if self.events.len() == MAX_PENDING_UPDATE_EVENTS || self.queued_bytes.saturating_add(len)
            > MAX_PENDING_UPDATE_BYTES {
            self.events.clear();
            self.queued_bytes = 0;
            self.resync_required = true;
            return;
        }
        let ghost before = self.events@;
        self.queued_bytes = self.queued_bytes + len;
        self.events.push_back(event);
        assert(self.events@.drop_last() == before);
    }

    /// Takes the next thing the caller should act on: the resync marker `[2]` once after an
    /// overflow, else the oldest update tagged with its origin byte, else nothing.
    pub fn drain(&mut self) -> (result: Vec<u8>)
        requires
            old(self).wf(),
        ensures
            final(self).wf(),
            old(self).resync_required() ==> result@ == seq![RESYNC_MARKER]
                && final(self).queue().len() == 0 && !final(self).resync_required(),
            !old(self).resync_required() && old(self).queue().len() == 0 ==> result@.len() == 0
                && final(self).queue().len() == 0 && !final(self).resync_required(),
            !old(self).resync_required() && old(self).queue().len() > 0 ==> result@
                == encoded_event(old(self).queue()[0])
                && final(self).queue() == old(self).queue().drop_first()
                && !final(self).resync_required(),
    {
        if self.resync_required {
            self.resync_required = false;
            let mut marker = Vec::new();
            marker.push(RESYNC_MARKER);
            return marker;
        }
        let ghost before = self.events@;
        let event = match self.events.pop_front() {
            Some(event) => event,
            None => return Vec::new(),
        };
        proof {
            lemma_total_len_drop_first(before);
        }
        self.queued_bytes = self.queued_bytes - event.update.len();
        let mut encoded: Vec<u8> = Vec::new();
        encoded.push(
            match event.origin {
                UpdateOrigin::Local => 0,
                UpdateOrigin::Remote => 1,
            },
        );
        let mut i: usize = 0;
        while i < event.update.len()
            invariant
                i <= event.update@.len(),
                encoded@ == seq![origin_byte(event.origin)] + event.update@.take(i as int),
            decreases event.update.len() - i,
        {
            encoded.push(event.update[i]);
            assert(event.update@.take(i + 1) == event.update@.take(i as int).push(
                event.update@[i as int],
            ));
            i = i + 1;
        }
        assert(event.update@.take(event.update@.len() as int) == event.update@);
        encoded
    }
}

/// Removing the oldest update removes its length from the total.
pub proof fn lemma_total_len_drop_first(events: Seq<UpdateEvent>)
    requires
        events.len() > 0,
    ensures
        total_len(events) == events[0].update@.len() + total_len(events.drop_first()),
    decreases events.len(),
{
    let rest = events.drop_first();
    if events.len() > 1 {
        lemma_total_len_drop_first(events.drop_last());
        assert(events.drop_last().drop_first() == rest.drop_last());
        assert(rest.last() == events.last());
        assert(events.drop_last()[0] == events[0]);
        assert(total_len(rest) == total_len(rest.drop_last()) + rest.last().update@.len());
        assert(total_len(events) == total_len(events.drop_last()) + events.last().update@.len());
    } else {
        assert(events.last() == events[0]);
        assert(rest.len() == 0);
        assert(total_len(rest) == 0);
        assert(events.drop_last().len() == 0);
        assert(total_len(events.drop_last()) == 0);
        assert(total_len(events) == total_len(events.drop_last()) + events.last().update@.len());
    }
}

} // verus!
