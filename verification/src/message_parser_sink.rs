//! The terminal stage: a sink that records every event it is handed, for
//! inspection once the pipeline is done.

use vstd::prelude::*;

use crate::events::{event_eq, MessageParserEvent, MessageParserStage};

verus! {

/// Collects the events that reach the end of the pipeline.
pub struct MessageParserSink {
    events: Vec<MessageParserEvent>,
}

impl MessageParserSink {
    /// The events recorded so far, in arrival order.
    pub closed spec fn recorded(&self) -> Seq<MessageParserEvent> {
        self.events@
    }

    pub fn new() -> (s: MessageParserSink)
        ensures
            s.recorded() == Seq::<MessageParserEvent>::empty(),
    {
        MessageParserSink { events: Vec::new() }
    }

    /// A copy of the recorded events.
    pub fn events(&self) -> (r: Vec<MessageParserEvent>)
        ensures
            r@.len() == self.recorded().len(),
            forall|i: int| 0 <= i < r@.len() ==> event_eq(#[trigger] r@[i], self.recorded()[i]),
    {
        let mut r: Vec<MessageParserEvent> = Vec::new();
        let mut i: usize = 0;
        while i < self.events.len()
            invariant
                i <= self.events.len(),
                r@.len() == i,
                forall|j: int|
                    0 <= j < i ==> event_eq(#[trigger] r@[j], self.events@[j]),
            decreases self.events.len() - i,
        {
            r.push(self.events[i].clone());
            i = i + 1;
        }
        r
    }

    /// Was this event recorded?
    pub fn contains(&self, event: &MessageParserEvent) -> (r: bool)
        ensures
            r == exists|i: int|
                0 <= i < self.recorded().len() && event_eq(self.recorded()[i], *event),
    {
        let mut i: usize = 0;
        while i < self.events.len()
            invariant
                i <= self.events.len(),
                forall|j: int| 0 <= j < i ==> !event_eq(self.events@[j], *event),
            decreases self.events.len() - i,
        {
            if self.events[i].eq(event) {
                proof {
                    assert(event_eq(self.recorded()[i as int], *event));
                }
                return true;
            }
            i = i + 1;
        }
        false
    }

    /// Record one event.
    pub fn record(&mut self, event: MessageParserEvent)
        ensures
            final(self).recorded() == old(self).recorded().push(event),
    {
        self.events.push(event);
    }
}

impl MessageParserStage for MessageParserSink {
    fn process_event(&mut self, event: MessageParserEvent) {
        self.record(event);
    }
}

} // verus!
