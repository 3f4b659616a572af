//! The byte-level message scanner: a state machine over the incoming
//! `MessageByte` events that recognizes RFC 5322 framing and emits header
//! name and value tokens, the end-of-headers marker, and body chunks.
//!
//! The tokens carry the raw wire text: a header name keeps its colon, a
//! header value keeps its leading whitespace, its folded line breaks and
//! its terminal CRLF.  The ghost fields record every event emitted and
//! every byte that belongs to the header block, so that downstream raw
//! reconstruction can be stated exactly.

use vstd::prelude::*;
use vstd::utf8::encode_utf8;

use crate::events::{
    event_stream_wf, lemma_stream_phase_push, stream_phase, MessageParserEvent,
    MessageParserFilter, MessageParserStage, StreamPhase,
};
use crate::trusted::string_from_utf8;

verus! {

/// Where the scanner stands between two bytes.
pub enum ParserState {
    /// Inside a header name, before its colon.
    ParseHeaderName,
    /// Inside a header value.
    ParseHeaderValue,
    /// A CR was seen inside a header value; its LF is owed.
    ParseEndOfHeader,
    /// At the start of a line just after a header line's CRLF.
    ParseStartHeaderLine,
    /// A CR was seen at the start of a line: a blank line is under way.
    ParseEndOfHeaderSection,
    /// Past the blank line: everything is body.
    ParseBody,
    /// The stream ended.
    ParseFinished,
    /// A framing error was reported; nothing more is produced.
    ParseStateError,
}

/// The header-block bytes an emitted token stands for.
pub open spec fn event_payload(e: MessageParserEvent) -> Seq<u8> {
    match e {
        MessageParserEvent::HeaderName(s) => encode_utf8(s@),
        MessageParserEvent::HeaderValue(s) => encode_utf8(s@),
        _ => Seq::empty(),
    }
}

/// The header-block bytes a whole event stream stands for.
pub open spec fn payload_bytes(s: Seq<MessageParserEvent>) -> Seq<u8>
    decreases s.len(),
{
    if s.len() == 0 {
        Seq::empty()
    } else {
        payload_bytes(s.drop_last()) + event_payload(s.last())
    }
}

pub proof fn lemma_payload_push(s: Seq<MessageParserEvent>, e: MessageParserEvent)
    ensures
        payload_bytes(s.push(e)) == payload_bytes(s) + event_payload(e),
{
    assert(s.push(e).drop_last() =~= s);
    assert(s.push(e).last() == e);
}

/// The body bytes an emitted chunk stands for.
pub open spec fn chunk_bytes(e: MessageParserEvent) -> Seq<u8> {
    match e {
        MessageParserEvent::BodyChunk(b) => b@,
        _ => Seq::empty(),
    }
}

/// The body bytes a whole event stream stands for.
pub open spec fn chunks_concat(s: Seq<MessageParserEvent>) -> Seq<u8>
    decreases s.len(),
{
    if s.len() == 0 {
        Seq::empty()
    } else {
        chunks_concat(s.drop_last()) + chunk_bytes(s.last())
    }
}

pub proof fn lemma_chunks_push(s: Seq<MessageParserEvent>, e: MessageParserEvent)
    ensures
        chunks_concat(s.push(e)) == chunks_concat(s) + chunk_bytes(e),
{
    assert(s.push(e).drop_last() =~= s);
    assert(s.push(e).last() == e);
}

/// Consumes `MessageByte` and `End` events; emits header tokens, the
/// end-of-headers marker and body chunks to its downstream stage.
pub struct MessageScanner<N: MessageParserStage> {
    state: ParserState,
    buf: Vec<u8>,
    chunk_size: usize,
    next_stage: N,
    emitted: Ghost<Seq<MessageParserEvent>>,
    header_bytes: Ghost<Seq<u8>>,
    body_bytes: Ghost<Seq<u8>>,
}

impl<N: MessageParserStage> MessageScanner<N> {
    /// Every event this scanner has emitted downstream, in order.
    pub closed spec fn emitted(&self) -> Seq<MessageParserEvent> {
        self.emitted@
    }

    /// The input bytes that belong to the header block: every consumed
    /// byte up to, and not including, the blank line.
    pub closed spec fn header_block(&self) -> Seq<u8> {
        self.header_bytes@
    }

    /// The body bytes consumed past the blank line.
    pub closed spec fn body_block(&self) -> Seq<u8> {
        self.body_bytes@
    }

    /// Where the scanner stands.
    pub closed spec fn state(&self) -> ParserState {
        self.state
    }

    /// The bytes buffered towards the next token or chunk.
    pub closed spec fn buffered(&self) -> Seq<u8> {
        self.buf@
    }

    /// How many bytes make a full body chunk.
    pub closed spec fn chunk_limit(&self) -> nat {
        self.chunk_size as nat
    }

    /// The emitted stream is well formed for the current state, and the
    /// header tokens emitted so far, plus the bytes still buffered, are
    /// exactly the header-block bytes consumed so far.
    pub closed spec fn wf(&self) -> bool {
        &&& self.chunk_size >= 1
        &&& match self.state {
            ParserState::ParseHeaderName => {
                &&& stream_phase(self.emitted@) == Some(StreamPhase::Heads)
                &&& payload_bytes(self.emitted@) + self.buf@ == self.header_bytes@
                &&& chunks_concat(self.emitted@) == self.body_bytes@
                &&& self.body_bytes@.len() == 0
            },
            ParserState::ParseHeaderValue | ParserState::ParseEndOfHeader
                | ParserState::ParseStartHeaderLine => {
                &&& stream_phase(self.emitted@) == Some(StreamPhase::AfterName)
                &&& payload_bytes(self.emitted@) + self.buf@ == self.header_bytes@
                &&& chunks_concat(self.emitted@) == self.body_bytes@
                &&& self.body_bytes@.len() == 0
            },
            ParserState::ParseEndOfHeaderSection => {
                &&& stream_phase(self.emitted@) == Some(StreamPhase::Heads)
                &&& payload_bytes(self.emitted@) == self.header_bytes@
                &&& self.buf@.len() == 0
                &&& chunks_concat(self.emitted@) == self.body_bytes@
                &&& self.body_bytes@.len() == 0
            },
            ParserState::ParseBody => {
                &&& stream_phase(self.emitted@) == Some(StreamPhase::Body)
                &&& payload_bytes(self.emitted@) == self.header_bytes@
                &&& chunks_concat(self.emitted@) + self.buf@ == self.body_bytes@
                &&& self.buf@.len() < self.chunk_size
            },
            ParserState::ParseFinished => {
                &&& stream_phase(self.emitted@) == Some(StreamPhase::Done)
                &&& payload_bytes(self.emitted@) == self.header_bytes@
                &&& chunks_concat(self.emitted@) == self.body_bytes@
            },
            ParserState::ParseStateError => stream_phase(self.emitted@) == Some(
                StreamPhase::Failed,
            ),
        }
    }

    /// Past the header section, the emitted body chunks, put together, are
    /// exactly the body bytes consumed, minus what is still buffered.
    pub proof fn lemma_body_reconstruction(&self)
        requires
            self.wf(),
        ensures
            self.state() is ParseFinished ==> chunks_concat(self.emitted())
                == self.body_block(),
            self.state() is ParseBody ==> chunks_concat(self.emitted()) + self.buffered()
                == self.body_block(),
    {
    }

    /// Is the scanner past its header section?
    pub closed spec fn headers_done(&self) -> bool {
        match self.state {
            ParserState::ParseEndOfHeaderSection | ParserState::ParseBody
                | ParserState::ParseFinished => true,
            _ => false,
        }
    }

    /// Once the header section is over, the emitted header tokens account
    /// for the header block byte for byte.
    pub proof fn lemma_header_block_reconstruction(&self)
        requires
            self.wf(),
            self.headers_done(),
        ensures
            payload_bytes(self.emitted()) == self.header_block(),
    {
    }

}

/// A framing failure: the one `ParseError` event goes out and the scanner
/// is dead.
pub open spec fn scanner_failed<N: MessageParserStage>(
    pre: &MessageScanner<N>,
    post: &MessageScanner<N>,
) -> bool {
    &&& post.state() is ParseStateError
    &&& post.emitted() == pre.emitted() + seq![MessageParserEvent::ParseError]
    &&& post.body_block() == pre.body_block()
}

/// What one byte does to the scanner, state by state, exactly as the
/// framing table says.  A token boundary emits its token exactly when the
/// buffered bytes are UTF-8; otherwise, and only then, the scanner fails.
pub open spec fn scanner_byte_step<N: MessageParserStage>(
    pre: &MessageScanner<N>,
    post: &MessageScanner<N>,
    byte: u8,
) -> bool {
    &&& post.chunk_limit() == pre.chunk_limit()
    &&& match pre.state() {
        ParserState::ParseHeaderName => if byte == 58 {
            if vstd::utf8::valid_utf8(pre.buffered() + seq![58u8]) {
                &&& post.state() is ParseHeaderValue
                &&& post.emitted().len() == pre.emitted().len() + 1
                &&& pre.emitted().is_prefix_of(post.emitted())
                &&& match post.emitted().last() {
                    MessageParserEvent::HeaderName(n) => encode_utf8(n@) == pre.buffered()
                        + seq![58u8],
                    _ => false,
                }
                &&& post.buffered() == Seq::<u8>::empty()
                &&& post.header_block() == pre.header_block() + seq![byte]
                &&& post.body_block() == pre.body_block()
            } else {
                scanner_failed(pre, post)
            }
        } else {
            &&& post.state() is ParseHeaderName
            &&& post.emitted() == pre.emitted()
            &&& post.buffered() == pre.buffered() + seq![byte]
            &&& post.header_block() == pre.header_block() + seq![byte]
            &&& post.body_block() == pre.body_block()
        },
        ParserState::ParseHeaderValue => {
            &&& if byte == 13 {
                post.state() is ParseEndOfHeader
            } else if byte == 10 {
                post.state() is ParseStartHeaderLine
            } else {
                post.state() is ParseHeaderValue
            }
            &&& post.emitted() == pre.emitted()
            &&& post.buffered() == pre.buffered() + seq![byte]
            &&& post.header_block() == pre.header_block() + seq![byte]
            &&& post.body_block() == pre.body_block()
        },
        ParserState::ParseEndOfHeader => if byte == 10 {
            &&& post.state() is ParseStartHeaderLine
            &&& post.emitted() == pre.emitted()
            &&& post.buffered() == pre.buffered() + seq![byte]
            &&& post.header_block() == pre.header_block() + seq![byte]
            &&& post.body_block() == pre.body_block()
        } else {
            scanner_failed(pre, post)
        },
        ParserState::ParseStartHeaderLine => if byte == 13 {
            if vstd::utf8::valid_utf8(pre.buffered()) {
                &&& post.state() is ParseEndOfHeaderSection
                &&& post.emitted().len() == pre.emitted().len() + 1
                &&& pre.emitted().is_prefix_of(post.emitted())
                &&& match post.emitted().last() {
                    MessageParserEvent::HeaderValue(v) => encode_utf8(v@) == pre.buffered(),
                    _ => false,
                }
                &&& post.buffered() == Seq::<u8>::empty()
                &&& post.header_block() == pre.header_block()
                &&& post.body_block() == pre.body_block()
            } else {
                scanner_failed(pre, post)
            }
        } else if byte == 10 {
            if vstd::utf8::valid_utf8(pre.buffered()) {
                &&& post.state() is ParseBody
                &&& post.emitted().len() == pre.emitted().len() + 2
                &&& pre.emitted().is_prefix_of(post.emitted())
                &&& match post.emitted()[post.emitted().len() - 2] {
                    MessageParserEvent::HeaderValue(v) => encode_utf8(v@) == pre.buffered(),
                    _ => false,
                }
                &&& post.emitted().last() is EndOfHeaders
                &&& post.buffered() == Seq::<u8>::empty()
                &&& post.header_block() == pre.header_block()
                &&& post.body_block() == pre.body_block()
            } else {
                scanner_failed(pre, post)
            }
        } else if byte == 9 || byte == 32 {
            &&& post.state() is ParseHeaderValue
            &&& post.emitted() == pre.emitted()
            &&& post.buffered() == pre.buffered() + seq![byte]
            &&& post.header_block() == pre.header_block() + seq![byte]
            &&& post.body_block() == pre.body_block()
        } else {
            if vstd::utf8::valid_utf8(pre.buffered()) {
                &&& post.state() is ParseHeaderName
                &&& post.emitted().len() == pre.emitted().len() + 1
                &&& pre.emitted().is_prefix_of(post.emitted())
                &&& match post.emitted().last() {
                    MessageParserEvent::HeaderValue(v) => encode_utf8(v@) == pre.buffered(),
                    _ => false,
                }
                &&& post.buffered() == seq![byte]
                &&& post.header_block() == pre.header_block() + seq![byte]
                &&& post.body_block() == pre.body_block()
            } else {
                scanner_failed(pre, post)
            }
        },
        ParserState::ParseEndOfHeaderSection => if byte == 10 {
            &&& post.state() is ParseBody
            &&& post.emitted() == pre.emitted() + seq![MessageParserEvent::EndOfHeaders]
            &&& post.buffered() == pre.buffered()
            &&& post.header_block() == pre.header_block()
            &&& post.body_block() == pre.body_block()
        } else {
            scanner_failed(pre, post)
        },
        ParserState::ParseBody => {
            &&& post.state() is ParseBody
            &&& post.header_block() == pre.header_block()
            &&& post.body_block() == pre.body_block() + seq![byte]
            &&& if pre.buffered().len() + 1 < pre.chunk_limit() {
                &&& post.emitted() == pre.emitted()
                &&& post.buffered() == pre.buffered() + seq![byte]
            } else {
                &&& post.emitted().len() == pre.emitted().len() + 1
                &&& pre.emitted().is_prefix_of(post.emitted())
                &&& match post.emitted().last() {
                    MessageParserEvent::BodyChunk(c) => c@ == pre.buffered() + seq![byte],
                    _ => false,
                }
                &&& post.buffered() == Seq::<u8>::empty()
            }
        },
        ParserState::ParseFinished | ParserState::ParseStateError => {
            &&& post.state() == pre.state()
            &&& post.emitted() == pre.emitted()
            &&& post.buffered() == pre.buffered()
            &&& post.header_block() == pre.header_block()
            &&& post.body_block() == pre.body_block()
        },
    }
}

/// What the end of the stream does to the scanner: in the body, the
/// buffered tail goes out as one final chunk before `End`; after the
/// blank-line CR, only `End`; an already finished scanner stays still;
/// anywhere else the stream was cut short.
pub open spec fn scanner_end_step<N: MessageParserStage>(
    pre: &MessageScanner<N>,
    post: &MessageScanner<N>,
) -> bool {
    &&& post.chunk_limit() == pre.chunk_limit()
    &&& match pre.state() {
        ParserState::ParseBody => {
            &&& post.state() is ParseFinished
            &&& post.emitted().len() == pre.emitted().len() + 2
            &&& pre.emitted().is_prefix_of(post.emitted())
            &&& match post.emitted()[post.emitted().len() - 2] {
                MessageParserEvent::BodyChunk(c) => c@ == pre.buffered(),
                _ => false,
            }
            &&& post.emitted().last() is End
            &&& post.buffered() == Seq::<u8>::empty()
            &&& post.header_block() == pre.header_block()
            &&& post.body_block() == pre.body_block()
        },
        ParserState::ParseEndOfHeaderSection => {
            &&& post.state() is ParseFinished
            &&& post.emitted() == pre.emitted() + seq![MessageParserEvent::End]
            &&& post.buffered() == pre.buffered()
            &&& post.header_block() == pre.header_block()
            &&& post.body_block() == pre.body_block()
        },
        ParserState::ParseFinished => {
            &&& post.state() is ParseFinished
            &&& post.emitted() == pre.emitted()
            &&& post.buffered() == pre.buffered()
            &&& post.header_block() == pre.header_block()
            &&& post.body_block() == pre.body_block()
        },
        _ => scanner_failed(pre, post),
    }
}

impl<N: MessageParserStage> MessageScanner<N> {
    fn forward_all(&mut self, events: &Vec<MessageParserEvent>)
        ensures
            final(self).state == old(self).state,
            final(self).buf == old(self).buf,
            final(self).chunk_size == old(self).chunk_size,
            final(self).emitted@ == old(self).emitted@,
            final(self).header_bytes@ == old(self).header_bytes@,
            final(self).body_bytes@ == old(self).body_bytes@,
    {
        let mut i: usize = 0;
        while i < events.len()
            invariant
                self.state == old(self).state,
                self.buf == old(self).buf,
                self.chunk_size == old(self).chunk_size,
                self.emitted@ == old(self).emitted@,
                self.header_bytes@ == old(self).header_bytes@,
                self.body_bytes@ == old(self).body_bytes@,
            decreases events.len() - i,
        {
            let e = events[i].clone();
            self.next_stage.process_event(e);
            i = i + 1;
        }
    }

    /// Record `events` as emitted and push them downstream.
    fn emit(&mut self, events: Vec<MessageParserEvent>)
        ensures
            final(self).state == old(self).state,
            final(self).buf == old(self).buf,
            final(self).chunk_size == old(self).chunk_size,
            final(self).emitted@ == old(self).emitted@ + events@,
            final(self).header_bytes@ == old(self).header_bytes@,
            final(self).body_bytes@ == old(self).body_bytes@,
    {
        proof {
            self.emitted@ = self.emitted@ + events@;
        }
        self.forward_all(&events);
    }

    fn parse_header_name(&mut self, byte: u8)
        requires
            old(self).state is ParseHeaderName,
        ensures
            scanner_byte_step(old(self), final(self), byte),
            old(self).wf() ==> final(self).wf(),
            old(self).wf() ==> final(self).header_bytes@ == old(self).header_bytes@ + seq![
                byte,
            ],
            old(self).emitted@.is_prefix_of(final(self).emitted@),
    {
        let ghost emitted0 = self.emitted@;
        proof {
            self.header_bytes@ = self.header_bytes@ + seq![byte];
        }
        if byte == 58 {
            self.buf.push(58);
            let mut name_bytes: Vec<u8> = Vec::new();
            core::mem::swap(&mut name_bytes, &mut self.buf);
            let ghost nb = name_bytes@;
            proof {
                assert(nb =~= old(self).buf@ + seq![58u8]);
            }
            match string_from_utf8(name_bytes) {
                Some(name) => {
                    self.state = ParserState::ParseHeaderValue;
                    proof {
                        lemma_stream_phase_push(emitted0,
                            MessageParserEvent::HeaderName(name),
                        );
                lemma_chunks_push(emitted0, MessageParserEvent::HeaderName(name),);
                        lemma_payload_push(emitted0, MessageParserEvent::HeaderName(name));
                    }
                    self.emit(vec![MessageParserEvent::HeaderName(name)]);
                    proof {
                        assert(self.emitted@ =~= emitted0.push(
                            MessageParserEvent::HeaderName(name),
                        ));
                        assert(self.buf@ =~= Seq::<u8>::empty());
                        assert(nb =~= old(self).buf@ + seq![58u8]);
                        if old(self).wf() {
                            assert(payload_bytes(self.emitted@) =~= payload_bytes(emitted0)
                                + nb);
                            assert(payload_bytes(self.emitted@) + self.buf@ =~= payload_bytes(
                                emitted0,
                            ) + nb);
                            assert(payload_bytes(emitted0) + (old(self).buf@ + seq![58u8]) =~= (
                            payload_bytes(emitted0) + old(self).buf@) + seq![58u8]);
                            assert(self.header_bytes@ =~= (payload_bytes(emitted0) + old(
                                self,
                            ).buf@) + seq![58u8]);
                            assert(payload_bytes(self.emitted@) + self.buf@
                                == self.header_bytes@);
                        }
                    }
                },
                None => {
                    self.state = ParserState::ParseStateError;
                    proof {
                        lemma_stream_phase_push(emitted0, MessageParserEvent::ParseError);
                lemma_chunks_push(emitted0, MessageParserEvent::ParseError);
                    }
                    self.emit(vec![MessageParserEvent::ParseError]);
                    proof {
                        assert(self.emitted@ =~= emitted0.push(MessageParserEvent::ParseError));
                        assert(self.emitted@ =~= emitted0 + seq![MessageParserEvent::ParseError]);
                    }
                },
            }
        } else {
            self.buf.push(byte);
            proof {
                assert(self.buf@ =~= old(self).buf@ + seq![byte]);
                if old(self).wf() {
                    assert(payload_bytes(self.emitted@) + self.buf@ =~= (payload_bytes(
                        self.emitted@,
                    ) + old(self).buf@) + seq![byte]);
                }
            }
        }
        proof {
            assert(old(self).emitted@.is_prefix_of(self.emitted@));
        }
    }

    fn parse_header_value(&mut self, byte: u8)
        requires
            old(self).state is ParseHeaderValue,
        ensures
            scanner_byte_step(old(self), final(self), byte),
            old(self).wf() ==> final(self).wf(),
            old(self).wf() ==> final(self).header_bytes@ == old(self).header_bytes@ + seq![
                byte,
            ],
            old(self).emitted@.is_prefix_of(final(self).emitted@),
    {
        proof {
            self.header_bytes@ = self.header_bytes@ + seq![byte];
        }
        self.buf.push(byte);
        if byte == 13 {
            self.state = ParserState::ParseEndOfHeader;
        } else if byte == 10 {
            self.state = ParserState::ParseStartHeaderLine;
        }
        proof {
            assert(self.buf@ =~= old(self).buf@ + seq![byte]);
            if old(self).wf() {
                assert(payload_bytes(self.emitted@) + self.buf@ =~= (payload_bytes(self.emitted@)
                    + old(self).buf@) + seq![byte]);
            }
        }
    }

    fn parse_end_of_header(&mut self, byte: u8)
        requires
            old(self).state is ParseEndOfHeader,
        ensures
            scanner_byte_step(old(self), final(self), byte),
            old(self).wf() ==> final(self).wf(),
            old(self).wf() ==> final(self).header_bytes@ == old(self).header_bytes@ + (if byte
                == 10 {
                seq![byte]
            } else {
                Seq::<u8>::empty()
            }),
            old(self).emitted@.is_prefix_of(final(self).emitted@),
    {
        let ghost emitted0 = self.emitted@;
        if byte == 10 {
            proof {
                self.header_bytes@ = self.header_bytes@ + seq![byte];
            }
            self.buf.push(10);
            self.state = ParserState::ParseStartHeaderLine;
            proof {
                assert(self.buf@ =~= old(self).buf@ + seq![byte]);
                if old(self).wf() {
                    assert(payload_bytes(self.emitted@) + self.buf@ =~= (payload_bytes(
                        self.emitted@,
                    ) + old(self).buf@) + seq![byte]);
                    assert(self.header_bytes@ =~= old(self).header_bytes@ + seq![byte]);
                }
            }
        } else {
            self.state = ParserState::ParseStateError;
            proof {
                lemma_stream_phase_push(emitted0, MessageParserEvent::ParseError);
                lemma_chunks_push(emitted0, MessageParserEvent::ParseError);
            }
            self.emit(vec![MessageParserEvent::ParseError]);
            proof {
                assert(self.emitted@ =~= emitted0.push(MessageParserEvent::ParseError));
                assert(self.emitted@ =~= emitted0 + seq![MessageParserEvent::ParseError]);
                assert(old(self).header_bytes@ + Seq::<u8>::empty() =~= old(
                    self,
                ).header_bytes@);
            }
        }
    }

    #[verifier::rlimit(100)]
    #[verifier::spinoff_prover]
    fn parse_start_header_line(&mut self, byte: u8)
        requires
            old(self).state is ParseStartHeaderLine,
        ensures
            scanner_byte_step(old(self), final(self), byte),
            old(self).wf() ==> final(self).wf(),
            old(self).wf() ==> final(self).header_bytes@ == old(self).header_bytes@ + (if byte
                == 13 || byte == 10 {
                Seq::<u8>::empty()
            } else {
                seq![byte]
            }),
            old(self).emitted@.is_prefix_of(final(self).emitted@),
    {
        let ghost emitted0 = self.emitted@;
        if byte == 13 {
            // A blank line begins: the buffered value is complete.
            let mut value_bytes: Vec<u8> = Vec::new();
            core::mem::swap(&mut value_bytes, &mut self.buf);
            proof {
                assert(value_bytes@ == old(self).buf@);
            }
            match string_from_utf8(value_bytes) {
                Some(value) => {
                    self.state = ParserState::ParseEndOfHeaderSection;
                    proof {
                        lemma_stream_phase_push(emitted0,
                            MessageParserEvent::HeaderValue(value),
                        );
                lemma_chunks_push(emitted0, MessageParserEvent::HeaderValue(value),);
                        lemma_payload_push(emitted0, MessageParserEvent::HeaderValue(value));
                    }
                    self.emit(vec![MessageParserEvent::HeaderValue(value)]);
                    proof {
                        assert(self.emitted@ =~= emitted0.push(
                            MessageParserEvent::HeaderValue(value),
                        ));
                        assert(self.buf@ =~= Seq::<u8>::empty());
                    }
                },
                None => {
                    self.state = ParserState::ParseStateError;
                    proof {
                        lemma_stream_phase_push(emitted0, MessageParserEvent::ParseError);
                lemma_chunks_push(emitted0, MessageParserEvent::ParseError);
                    }
                    self.emit(vec![MessageParserEvent::ParseError]);
                    proof {
                        assert(self.emitted@ =~= emitted0.push(MessageParserEvent::ParseError));
                        assert(self.emitted@ =~= emitted0 + seq![
                            MessageParserEvent::ParseError,
                        ]);
                    }
                },
            }
            proof {
                assert(old(self).header_bytes@ + Seq::<u8>::empty() =~= old(
                    self,
                ).header_bytes@);
            }
        } else if byte == 10 {
            // A lone LF ends the header section at once.
            let mut value_bytes: Vec<u8> = Vec::new();
            core::mem::swap(&mut value_bytes, &mut self.buf);
            proof {
                assert(value_bytes@ == old(self).buf@);
            }
            match string_from_utf8(value_bytes) {
                Some(value) => {
                    self.state = ParserState::ParseBody;
                    proof {
                        lemma_stream_phase_push(emitted0,
                            MessageParserEvent::HeaderValue(value),
                        );
                lemma_chunks_push(emitted0, MessageParserEvent::HeaderValue(value),);
                        lemma_payload_push(emitted0, MessageParserEvent::HeaderValue(value));
                        lemma_stream_phase_push(emitted0.push(MessageParserEvent::HeaderValue(value)),
                            MessageParserEvent::EndOfHeaders,
                        );
                lemma_chunks_push(emitted0.push(MessageParserEvent::HeaderValue(value)), MessageParserEvent::EndOfHeaders,);
                        lemma_payload_push(
                            emitted0.push(MessageParserEvent::HeaderValue(value)),
                            MessageParserEvent::EndOfHeaders,
                        );
                    }
                    self.emit(
                        vec![
                            MessageParserEvent::HeaderValue(value),
                            MessageParserEvent::EndOfHeaders,
                        ],
                    );
                    proof {
                        assert(self.emitted@ =~= emitted0.push(
                            MessageParserEvent::HeaderValue(value),
                        ).push(MessageParserEvent::EndOfHeaders));
                        assert(self.buf@ =~= Seq::<u8>::empty());
                        assert(self.emitted@[self.emitted@.len() - 2]
                            == MessageParserEvent::HeaderValue(value));
                        assert(self.emitted@.last() == MessageParserEvent::EndOfHeaders);
                    }
                },
                None => {
                    self.state = ParserState::ParseStateError;
                    proof {
                        lemma_stream_phase_push(emitted0, MessageParserEvent::ParseError);
                lemma_chunks_push(emitted0, MessageParserEvent::ParseError);
                    }
                    self.emit(vec![MessageParserEvent::ParseError]);
                    proof {
                        assert(self.emitted@ =~= emitted0.push(MessageParserEvent::ParseError));
                        assert(self.emitted@ =~= emitted0 + seq![
                            MessageParserEvent::ParseError,
                        ]);
                    }
                },
            }
            proof {
                assert(old(self).header_bytes@ + Seq::<u8>::empty() =~= old(
                    self,
                ).header_bytes@);
            }
        } else if byte == 9 || byte == 32 {
            // A folded continuation line: the value goes on, bytes kept.
            proof {
                self.header_bytes@ = self.header_bytes@ + seq![byte];
            }
            self.buf.push(byte);
            self.state = ParserState::ParseHeaderValue;
            proof {
                assert(self.buf@ =~= old(self).buf@ + seq![byte]);
                if old(self).wf() {
                    assert(payload_bytes(self.emitted@) + self.buf@ =~= (payload_bytes(
                        self.emitted@,
                    ) + old(self).buf@) + seq![byte]);
                }
            }
        } else {
            // A new header begins: the buffered value is complete.
            proof {
                self.header_bytes@ = self.header_bytes@ + seq![byte];
            }
            let mut value_bytes: Vec<u8> = Vec::new();
            core::mem::swap(&mut value_bytes, &mut self.buf);
            self.buf.push(byte);
            proof {
                assert(value_bytes@ == old(self).buf@);
            }
            match string_from_utf8(value_bytes) {
                Some(value) => {
                    self.state = ParserState::ParseHeaderName;
                    proof {
                        lemma_stream_phase_push(emitted0,
                            MessageParserEvent::HeaderValue(value),
                        );
                lemma_chunks_push(emitted0, MessageParserEvent::HeaderValue(value),);
                        lemma_payload_push(emitted0, MessageParserEvent::HeaderValue(value));
                    }
                    self.emit(vec![MessageParserEvent::HeaderValue(value)]);
                    proof {
                        assert(self.emitted@ =~= emitted0.push(
                            MessageParserEvent::HeaderValue(value),
                        ));
                        assert(self.buf@ =~= seq![byte]);
                        if old(self).wf() {
                            assert(payload_bytes(self.emitted@) + self.buf@ =~= ((payload_bytes(
                                emitted0,
                            ) + old(self).buf@) + seq![byte]));
                        }
                    }
                },
                None => {
                    self.state = ParserState::ParseStateError;
                    proof {
                        lemma_stream_phase_push(emitted0, MessageParserEvent::ParseError);
                lemma_chunks_push(emitted0, MessageParserEvent::ParseError);
                    }
                    self.emit(vec![MessageParserEvent::ParseError]);
                    proof {
                        assert(self.emitted@ =~= emitted0.push(MessageParserEvent::ParseError));
                        assert(self.emitted@ =~= emitted0 + seq![
                            MessageParserEvent::ParseError,
                        ]);
                    }
                },
            }
        }
        proof {
            assert(old(self).emitted@.is_prefix_of(self.emitted@));
        }
    }

    fn parse_end_of_header_section(&mut self, byte: u8)
        requires
            old(self).state is ParseEndOfHeaderSection,
        ensures
            scanner_byte_step(old(self), final(self), byte),
            old(self).wf() ==> final(self).wf(),
            old(self).wf() ==> final(self).header_bytes@ == old(self).header_bytes@,
            old(self).emitted@.is_prefix_of(final(self).emitted@),
    {
        let ghost emitted0 = self.emitted@;
        if byte == 10 {
            self.state = ParserState::ParseBody;
            proof {
                lemma_stream_phase_push(emitted0, MessageParserEvent::EndOfHeaders);
                lemma_chunks_push(emitted0, MessageParserEvent::EndOfHeaders);
                lemma_payload_push(emitted0, MessageParserEvent::EndOfHeaders);
            }
            self.emit(vec![MessageParserEvent::EndOfHeaders]);
            proof {
                assert(self.emitted@ =~= emitted0.push(MessageParserEvent::EndOfHeaders));
                assert(self.emitted@ =~= emitted0 + seq![MessageParserEvent::EndOfHeaders]);
                if old(self).wf() {
                    assert(payload_bytes(self.emitted@) =~= payload_bytes(emitted0));
                }
            }
        } else {
            self.state = ParserState::ParseStateError;
            proof {
                lemma_stream_phase_push(emitted0, MessageParserEvent::ParseError);
                lemma_chunks_push(emitted0, MessageParserEvent::ParseError);
            }
            self.emit(vec![MessageParserEvent::ParseError]);
            proof {
                assert(self.emitted@ =~= emitted0.push(MessageParserEvent::ParseError));
                assert(self.emitted@ =~= emitted0 + seq![MessageParserEvent::ParseError]);
            }
        }
    }

    fn parse_body(&mut self, byte: u8)
        requires
            old(self).state is ParseBody,
        ensures
            scanner_byte_step(old(self), final(self), byte),
            old(self).wf() ==> final(self).wf(),
            old(self).wf() ==> final(self).header_bytes@ == old(self).header_bytes@,
            old(self).emitted@.is_prefix_of(final(self).emitted@),
    {
        let ghost emitted0 = self.emitted@;
        proof {
            self.body_bytes@ = self.body_bytes@ + seq![byte];
        }
        self.buf.push(byte);
        proof {
            assert(self.buf@ =~= old(self).buf@ + seq![byte]);
        }
        if self.buf.len() >= self.chunk_size {
            let mut chunk: Vec<u8> = Vec::new();
            core::mem::swap(&mut chunk, &mut self.buf);
            let ghost chunk_snap = chunk@;
            proof {
                lemma_stream_phase_push(emitted0, MessageParserEvent::BodyChunk(chunk));
                lemma_chunks_push(emitted0, MessageParserEvent::BodyChunk(chunk));
                lemma_payload_push(emitted0, MessageParserEvent::BodyChunk(chunk));
            }
            self.emit(vec![MessageParserEvent::BodyChunk(chunk)]);
            proof {
                assert(self.emitted@ =~= emitted0.push(MessageParserEvent::BodyChunk(chunk)));
                assert(self.buf@ =~= Seq::<u8>::empty());
                assert(chunk_snap =~= old(self).buf@ + seq![byte]);
                if old(self).wf() {
                    assert(payload_bytes(self.emitted@) =~= payload_bytes(emitted0));
                    assert(chunks_concat(self.emitted@) =~= chunks_concat(emitted0)
                        + chunk_snap);
                    assert(chunks_concat(emitted0) + (old(self).buf@ + seq![byte]) =~= (
                    chunks_concat(emitted0) + old(self).buf@) + seq![byte]);
                    assert(chunks_concat(self.emitted@) + self.buf@ =~= self.body_bytes@);
                }
            }
        } else {
            proof {
                if old(self).wf() {
                    assert(chunks_concat(self.emitted@) + (old(self).buf@ + seq![byte]) =~= (
                    chunks_concat(self.emitted@) + old(self).buf@) + seq![byte]);
                }
            }
        }
    }

    /// Hand one message byte to the scanner: the emitted stream stays
    /// well formed, so a `HeaderValue` only ever directly follows its
    /// `HeaderName`, `EndOfHeaders` comes at most once, and nothing
    /// follows `End`.
    pub fn process_byte(&mut self, byte: u8)
        ensures
            scanner_byte_step(old(self), final(self), byte),
            old(self).wf() ==> final(self).wf(),
            old(self).wf() ==> event_stream_wf(final(self).emitted()),
            old(self).emitted().is_prefix_of(final(self).emitted()),
    {
        match self.state {
            ParserState::ParseHeaderName => self.parse_header_name(byte),
            ParserState::ParseHeaderValue => self.parse_header_value(byte),
            ParserState::ParseEndOfHeader => self.parse_end_of_header(byte),
            ParserState::ParseStartHeaderLine => self.parse_start_header_line(byte),
            ParserState::ParseEndOfHeaderSection => self.parse_end_of_header_section(byte),
            ParserState::ParseBody => self.parse_body(byte),
            ParserState::ParseFinished => {
                proof {
                    assert(old(self).emitted@.is_prefix_of(self.emitted@));
                }
            },
            ParserState::ParseStateError => {
                proof {
                    assert(old(self).emitted@.is_prefix_of(self.emitted@));
                }
            },
        }
    }

    /// Tell the scanner the message is over.
    pub fn process_end(&mut self)
        ensures
            scanner_end_step(old(self), final(self)),
            old(self).wf() ==> final(self).wf(),
            old(self).wf() ==> event_stream_wf(final(self).emitted()),
            old(self).emitted().is_prefix_of(final(self).emitted()),
    {
        let ghost emitted0 = self.emitted@;
        match self.state {
            ParserState::ParseBody => {
                let mut chunk: Vec<u8> = Vec::new();
                core::mem::swap(&mut chunk, &mut self.buf);
                self.state = ParserState::ParseFinished;
                proof {
                    lemma_stream_phase_push(emitted0, MessageParserEvent::BodyChunk(chunk));
                lemma_chunks_push(emitted0, MessageParserEvent::BodyChunk(chunk));
                    lemma_payload_push(emitted0, MessageParserEvent::BodyChunk(chunk));
                    lemma_stream_phase_push(emitted0.push(MessageParserEvent::BodyChunk(chunk)),
                        MessageParserEvent::End,
                    );
                lemma_chunks_push(emitted0.push(MessageParserEvent::BodyChunk(chunk)), MessageParserEvent::End,);
                    lemma_payload_push(
                        emitted0.push(MessageParserEvent::BodyChunk(chunk)),
                        MessageParserEvent::End,
                    );
                }
                self.emit(
                    vec![MessageParserEvent::BodyChunk(chunk), MessageParserEvent::End],
                );
                proof {
                    let one = emitted0.push(MessageParserEvent::BodyChunk(chunk));
                    assert(self.emitted@ =~= one.push(MessageParserEvent::End));
                    assert(self.emitted@[self.emitted@.len() - 2]
                        == MessageParserEvent::BodyChunk(chunk));
                    assert(self.emitted@.last() == MessageParserEvent::End);
                    assert(self.buf@ =~= Seq::<u8>::empty());
                    if old(self).wf() {
                        assert(stream_phase(one) == Some(StreamPhase::Body));
                        assert(stream_phase(self.emitted@) == Some(StreamPhase::Done));
                        assert(payload_bytes(one) =~= payload_bytes(emitted0));
                        assert(payload_bytes(self.emitted@) =~= payload_bytes(emitted0));
                        assert(payload_bytes(self.emitted@) == self.header_bytes@);
                        assert(chunks_concat(self.emitted@) =~= chunks_concat(emitted0)
                            + old(self).buf@);
                        assert(chunks_concat(self.emitted@) == self.body_bytes@);
                    }
                }
            },
            ParserState::ParseEndOfHeaderSection => {
                self.state = ParserState::ParseFinished;
                proof {
                    lemma_stream_phase_push(emitted0, MessageParserEvent::End);
                lemma_chunks_push(emitted0, MessageParserEvent::End);
                    lemma_payload_push(emitted0, MessageParserEvent::End);
                }
                self.emit(vec![MessageParserEvent::End]);
                proof {
                    assert(self.emitted@ =~= emitted0.push(MessageParserEvent::End));
                    assert(self.emitted@ =~= emitted0 + seq![MessageParserEvent::End]);
                    if old(self).wf() {
                        assert(payload_bytes(self.emitted@) =~= payload_bytes(emitted0));
                        assert(chunks_concat(self.emitted@) =~= chunks_concat(emitted0));
                    }
                }
            },
            ParserState::ParseFinished => {
            },
            _ => {
                self.state = ParserState::ParseStateError;
                proof {
                    lemma_stream_phase_push(emitted0, MessageParserEvent::ParseError);
                lemma_chunks_push(emitted0, MessageParserEvent::ParseError);
                }
                self.emit(vec![MessageParserEvent::ParseError]);
                proof {
                    assert(self.emitted@ =~= emitted0.push(MessageParserEvent::ParseError));
                    assert(self.emitted@ =~= emitted0 + seq![MessageParserEvent::ParseError]);
                }
            },
        }
        proof {
            assert(old(self).emitted@.is_prefix_of(self.emitted@));
        }
    }
}

impl<N: MessageParserStage> MessageParserStage for MessageScanner<N> {
    fn process_event(&mut self, event: MessageParserEvent) {
        match event {
            MessageParserEvent::MessageByte(b) => self.process_byte(b),
            MessageParserEvent::End => self.process_end(),
            e => self.next_stage.process_event(e),
        }
    }
}

impl<N: MessageParserStage> MessageParserFilter<N> for MessageScanner<N> {
    fn new(next_stage: N) -> (s: Self) {
        MessageScanner::with_downstream(next_stage)
    }
}

impl<N: MessageParserStage> MessageScanner<N> {
    /// A fresh scanner: nothing emitted, nothing consumed.
    pub fn with_downstream(next_stage: N) -> (s: Self)
        ensures
            s.wf(),
            s.emitted() == Seq::<MessageParserEvent>::empty(),
            s.header_block() == Seq::<u8>::empty(),
            s.body_block() == Seq::<u8>::empty(),
            s.state() is ParseHeaderName,
            s.chunk_limit() == 2048,
    {
        let s = MessageScanner {
            state: ParserState::ParseHeaderName,
            buf: Vec::new(),
            chunk_size: 2048,
            next_stage,
            emitted: Ghost(Seq::empty()),
            header_bytes: Ghost(Seq::empty()),
            body_bytes: Ghost(Seq::empty()),
        };
        proof {
            assert(payload_bytes(s.emitted@) + s.buf@ =~= s.header_bytes@);
        }
        s
    }

    /// A look at the downstream stage, for taking results back out.
    pub fn next_stage(&self) -> &N {
        &self.next_stage
    }
}

} // verus!
