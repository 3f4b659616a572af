//! The event model of the message-parsing pipeline: every stage consumes
//! events and pushes events to its downstream stage.

use vstd::prelude::*;

verus! {

/// An event flowing between pipeline stages.
///
/// `Header(name, value, raw)` carries the colon-stripped name, the trimmed
/// value, and the exact wire bytes of the logical header line (folding and
/// terminal CRLF included).
#[derive(Debug)]
pub enum MessageParserEvent {
    MessageByte(u8),
    HeaderName(String),
    HeaderValue(String),
    Header(String, String, Vec<u8>),
    EndOfHeaders,
    BodyChunk(Vec<u8>),
    ParseError,
    End,
    NonEvent,
}

/// Structural equality of two events, field by field, with strings and byte
/// buffers compared by contents.
pub open spec fn event_eq(a: MessageParserEvent, b: MessageParserEvent) -> bool {
    match (a, b) {
        (MessageParserEvent::MessageByte(x), MessageParserEvent::MessageByte(y)) => x == y,
        (MessageParserEvent::HeaderName(x), MessageParserEvent::HeaderName(y)) => x@ == y@,
        (MessageParserEvent::HeaderValue(x), MessageParserEvent::HeaderValue(y)) => x@ == y@,
        (
            MessageParserEvent::Header(n1, v1, r1),
            MessageParserEvent::Header(n2, v2, r2),
        ) => n1@ == n2@ && v1@ == v2@ && r1@ == r2@,
        (MessageParserEvent::EndOfHeaders, MessageParserEvent::EndOfHeaders) => true,
        (MessageParserEvent::BodyChunk(x), MessageParserEvent::BodyChunk(y)) => x@ == y@,
        (MessageParserEvent::ParseError, MessageParserEvent::ParseError) => true,
        (MessageParserEvent::End, MessageParserEvent::End) => true,
        (MessageParserEvent::NonEvent, MessageParserEvent::NonEvent) => true,
        _ => false,
    }
}

impl vstd::std_specs::cmp::PartialEqSpecImpl for MessageParserEvent {
    open spec fn obeys_eq_spec() -> bool {
        true
    }

    open spec fn eq_spec(&self, other: &Self) -> bool {
        event_eq(*self, *other)
    }
}

impl PartialEq for MessageParserEvent {
    fn eq(&self, other: &Self) -> (r: bool) {
        match (self, other) {
            (MessageParserEvent::MessageByte(x), MessageParserEvent::MessageByte(y)) => *x == *y,
            (MessageParserEvent::HeaderName(x), MessageParserEvent::HeaderName(y)) => *x == *y,
            (MessageParserEvent::HeaderValue(x), MessageParserEvent::HeaderValue(y)) => *x == *y,
            (
                MessageParserEvent::Header(n1, v1, r1),
                MessageParserEvent::Header(n2, v2, r2),
            ) => {
                let req: bool = *r1 == *r2;
                proof {
                    if req {
                        assert(r1@ =~= r2@);
                    } else {
                        assert(r1@ != r2@);
                    }
                }
                *n1 == *n2 && *v1 == *v2 && req
            },
            (MessageParserEvent::EndOfHeaders, MessageParserEvent::EndOfHeaders) => true,
            (MessageParserEvent::BodyChunk(x), MessageParserEvent::BodyChunk(y)) => {
                let req: bool = *x == *y;
                proof {
                    if req {
                        assert(x@ =~= y@);
                    } else {
                        assert(x@ != y@);
                    }
                }
                req
            },
            (MessageParserEvent::ParseError, MessageParserEvent::ParseError) => true,
            (MessageParserEvent::End, MessageParserEvent::End) => true,
            (MessageParserEvent::NonEvent, MessageParserEvent::NonEvent) => true,
            _ => false,
        }
    }
}

impl Clone for MessageParserEvent {
    /// A clone carries the same contents, field for field.
    fn clone(&self) -> (res: Self)
        ensures
            event_eq(res, *self),
    {
        match self {
            MessageParserEvent::MessageByte(b) => MessageParserEvent::MessageByte(*b),
            MessageParserEvent::HeaderName(n) => MessageParserEvent::HeaderName(n.clone()),
            MessageParserEvent::HeaderValue(v) => MessageParserEvent::HeaderValue(v.clone()),
            MessageParserEvent::Header(n, v, r) => {
                let rc = r.clone();
                proof {
                    assert(rc@ =~= r@);
                }
                MessageParserEvent::Header(n.clone(), v.clone(), rc)
            },
            MessageParserEvent::EndOfHeaders => MessageParserEvent::EndOfHeaders,
            MessageParserEvent::BodyChunk(b) => {
                let bc = b.clone();
                proof {
                    assert(bc@ =~= b@);
                }
                MessageParserEvent::BodyChunk(bc)
            },
            MessageParserEvent::ParseError => MessageParserEvent::ParseError,
            MessageParserEvent::End => MessageParserEvent::End,
            MessageParserEvent::NonEvent => MessageParserEvent::NonEvent,
        }
    }
}

/// A pipeline stage: takes one event and pushes whatever it produces to its
/// downstream stage.
pub trait MessageParserStage {
    fn process_event(&mut self, event: MessageParserEvent);
}

/// A stage that is constructed around the stage it feeds.
pub trait MessageParserFilter<N: MessageParserStage>: MessageParserStage {
    fn new(next_stage: N) -> Self where Self: Sized;
}

/// Acceptor phase for the shape of a scanner's output stream.
pub enum StreamPhase {
    /// Between complete headers: a header name, the end of the header
    /// section, or the end of the stream may come next.
    Heads,
    /// A `HeaderName` was emitted and its `HeaderValue` is still owed.
    AfterName,
    /// The header section is finished; only body chunks and the end may come.
    Body,
    /// The stream ended with `End`.
    Done,
    /// The stream ended with `ParseError`.
    Failed,
}

/// One step of the acceptor: `None` means the event is not allowed in this
/// phase.
pub open spec fn phase_step(p: StreamPhase, e: MessageParserEvent) -> Option<StreamPhase> {
    match p {
        StreamPhase::Heads => match e {
            MessageParserEvent::HeaderName(_) => Some(StreamPhase::AfterName),
            MessageParserEvent::EndOfHeaders => Some(StreamPhase::Body),
            MessageParserEvent::End => Some(StreamPhase::Done),
            MessageParserEvent::ParseError => Some(StreamPhase::Failed),
            _ => None,
        },
        StreamPhase::AfterName => match e {
            MessageParserEvent::HeaderValue(_) => Some(StreamPhase::Heads),
            MessageParserEvent::ParseError => Some(StreamPhase::Failed),
            _ => None,
        },
        StreamPhase::Body => match e {
            MessageParserEvent::BodyChunk(_) => Some(StreamPhase::Body),
            MessageParserEvent::End => Some(StreamPhase::Done),
            MessageParserEvent::ParseError => Some(StreamPhase::Failed),
            _ => None,
        },
        StreamPhase::Done => None,
        StreamPhase::Failed => match e {
            MessageParserEvent::ParseError => Some(StreamPhase::Failed),
            _ => None,
        },
    }
}

/// The phase the acceptor reaches after reading `s`, if `s` is accepted.
pub open spec fn stream_phase(s: Seq<MessageParserEvent>) -> Option<StreamPhase>
    decreases s.len(),
{
    if s.len() == 0 {
        Some(StreamPhase::Heads)
    } else {
        match stream_phase(s.drop_last()) {
            Some(p) => phase_step(p, s.last()),
            None => None,
        }
    }
}

/// A scanner output stream is well formed when the acceptor reads it to the
/// end: `(HeaderName HeaderValue)* (EndOfHeaders BodyChunk*)? End?`, possibly
/// cut short, possibly closed by `ParseError`.
pub open spec fn event_stream_wf(s: Seq<MessageParserEvent>) -> bool {
    stream_phase(s) is Some
}

/// Reading one more event steps the acceptor once.
pub proof fn lemma_stream_phase_push(s: Seq<MessageParserEvent>, e: MessageParserEvent)
    ensures
        stream_phase(s.push(e)) == match stream_phase(s) {
            Some(p) => phase_step(p, e),
            None => None::<StreamPhase>,
        },
{
    assert(s.push(e).drop_last() =~= s);
    assert(s.push(e).last() == e);
}

/// Number of `EndOfHeaders` events in `s`.
pub open spec fn count_end_of_headers(s: Seq<MessageParserEvent>) -> nat
    decreases s.len(),
{
    if s.len() == 0 {
        0
    } else {
        count_end_of_headers(s.drop_last()) + (if s.last() is EndOfHeaders {
            1nat
        } else {
            0nat
        })
    }
}

/// In a well-formed stream `EndOfHeaders` appears at most once, and every
/// `HeaderValue` directly follows its `HeaderName`.
pub proof fn lemma_stream_shape(s: Seq<MessageParserEvent>)
    requires
        event_stream_wf(s),
    ensures
        count_end_of_headers(s) <= 1,
        count_end_of_headers(s) == 1 ==> !(stream_phase(s) matches Some(
            StreamPhase::Heads | StreamPhase::AfterName,
        )),
        forall|i: int|
            0 <= i < s.len() && (#[trigger] s[i]) is HeaderValue ==> i > 0 && s[i
                - 1] is HeaderName,
    decreases s.len(),
{
    if s.len() > 0 {
        let prefix = s.drop_last();
        lemma_stream_shape(prefix);
        assert(forall|i: int| 0 <= i < prefix.len() ==> s[i] == prefix[i]);
        if s.last() is HeaderValue {
            assert(stream_phase(prefix) matches Some(StreamPhase::AfterName));
            assert(prefix.len() > 0);
            assert(prefix.last() is HeaderName);
        }
    }
}

} // verus!
