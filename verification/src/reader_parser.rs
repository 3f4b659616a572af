//! The byte source: feeds a message, byte by byte, into the pipeline,
//! normalizing bare LF line endings to CRLF so the scanner may assume
//! RFC 5322 framing, and closing the stream with `End`.

use vstd::prelude::*;

use crate::events::{MessageParserEvent, MessageParserStage};

verus! {

/// What one input byte becomes: a bare LF gains a CR in front.
pub open spec fn normalize_step(prev: u8, b: u8) -> Seq<u8> {
    if b == 10 && prev != 13 {
        seq![13u8, 10u8]
    } else {
        seq![b]
    }
}

/// The last byte of `s`, or `prev` while `s` is empty.
pub open spec fn last_or(prev: u8, s: Seq<u8>) -> u8 {
    if s.len() == 0 {
        prev
    } else {
        s.last()
    }
}

pub open spec fn normalize_from(prev: u8, input: Seq<u8>) -> Seq<u8>
    decreases input.len(),
{
    if input.len() == 0 {
        Seq::empty()
    } else {
        normalize_from(prev, input.drop_last()) + normalize_step(
            last_or(prev, input.drop_last()),
            input.last(),
        )
    }
}

/// The message with every bare LF line ending turned into CRLF.
pub open spec fn crlf_normalize(input: Seq<u8>) -> Seq<u8> {
    normalize_from(0, input)
}

/// One `MessageByte` event per byte.
pub open spec fn byte_events(s: Seq<u8>) -> Seq<MessageParserEvent> {
    s.map_values(|b: u8| MessageParserEvent::MessageByte(b))
}

/// Reads a message held in memory and pushes each byte downstream as a
/// `MessageByte` event, then `End`.
pub struct ReaderParser<N: MessageParserStage> {
    data: Vec<u8>,
    next_stage: N,
    sent: Ghost<Seq<MessageParserEvent>>,
}

impl<N: MessageParserStage> ReaderParser<N> {
    /// Every event pushed downstream so far, in order.
    pub closed spec fn sent(&self) -> Seq<MessageParserEvent> {
        self.sent@
    }

    /// The message this source reads.
    pub closed spec fn data(&self) -> Seq<u8> {
        self.data@
    }

    pub fn new(next_stage: N, data: Vec<u8>) -> (r: ReaderParser<N>)
        ensures
            r.data() == data@,
            r.sent() == Seq::<MessageParserEvent>::empty(),
    {
        ReaderParser { data, next_stage, sent: Ghost(Seq::empty()) }
    }

    /// Push the whole message downstream: one `MessageByte` event for each
    /// of its CRLF-normalized bytes, in order, then exactly one `End`
    /// event, and nothing else.
    pub fn read_to_end(&mut self)
        ensures
            final(self).data() == old(self).data(),
            final(self).sent() == old(self).sent() + byte_events(
                crlf_normalize(old(self).data()),
            ) + seq![MessageParserEvent::End],
    {
        let ghost sent0 = self.sent@;
        let ghost data_snap = self.data@;
        let mut prev: u8 = 0;
        let mut i: usize = 0;
        while i < self.data.len()
            invariant
                i <= self.data@.len(),
                self.data@ == data_snap,
                prev == last_or(0, data_snap.take(i as int)),
                self.sent@ == sent0 + byte_events(normalize_from(0, data_snap.take(i as int))),
            decreases self.data@.len() - i,
        {
            let byte = self.data[i];
            let ghost before = data_snap.take(i as int);
            if byte == 10 && prev != 13 {
                proof {
                    self.sent@ = self.sent@.push(MessageParserEvent::MessageByte(13));
                }
                self.next_stage.process_event(MessageParserEvent::MessageByte(13));
            }
            proof {
                self.sent@ = self.sent@.push(MessageParserEvent::MessageByte(byte));
            }
            self.next_stage.process_event(MessageParserEvent::MessageByte(byte));
            prev = byte;
            proof {
                assert(data_snap.take(i + 1 as int).drop_last() =~= before);
                assert(data_snap.take(i + 1 as int).last() == byte);
                assert(normalize_from(0, data_snap.take(i + 1 as int)) == normalize_from(
                    0,
                    before,
                ) + normalize_step(last_or(0, before), byte));
                assert(self.sent@ =~= sent0 + byte_events(
                    normalize_from(0, data_snap.take(i + 1 as int)),
                ));
            }
            i = i + 1;
        }
        proof {
            assert(data_snap.take(data_snap.len() as int) =~= data_snap);
            self.sent@ = self.sent@.push(MessageParserEvent::End);
        }
        self.next_stage.process_event(MessageParserEvent::End);
        proof {
            assert(self.sent@ =~= (sent0 + byte_events(crlf_normalize(data_snap))) + seq![
                MessageParserEvent::End,
            ]);
        }
    }

    /// A look at the downstream stage, for taking results back out.
    pub fn next_stage(&self) -> &N {
        &self.next_stage
    }
}

} // verus!
