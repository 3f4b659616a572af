//! The header assembler: pairs the scanner's raw `HeaderName` and
//! `HeaderValue` tokens into `Header(name, value, raw)` events, where
//! `name` loses its colon, `value` is trimmed, and `raw` is the exact wire
//! text of the logical header — the bytes DKIM's simple header
//! canonicalization hashes.

use vstd::prelude::*;
use vstd::string::{StrSliceExecFns, StringExecFns};
use vstd::utf8::encode_utf8;

use crate::events::{MessageParserEvent, MessageParserFilter, MessageParserStage};
use crate::text::{
    is_text_ws, is_text_ws_exec, lemma_strip_char_id, lemma_strip_char_take, lemma_trim_end_id,
    lemma_trim_end_take, lemma_trim_start_id, lemma_trim_start_skip, strip_trailing_char,
    trim_chars,
};

verus! {

/// Where the assembler stands between two events.
pub enum ParserState {
    /// Waiting for the next header's name.
    ParseHeaderName,
    /// A name is stored; its value is owed.
    ParseHeaderValue,
    /// Past the header section, or failed: everything passes through.
    ParseFinished,
}

/// The trimmed logical value of a header: surrounding whitespace and then
/// any trailing colons removed.
pub open spec fn logical_value(v: Seq<char>) -> Seq<char> {
    strip_trailing_char(trim_chars(v), ':')
}

/// The logical name of a header: the raw name token less its final
/// character, the colon the scanner kept.
pub open spec fn logical_name(n: Seq<char>) -> Seq<char> {
    if n.len() == 0 {
        n
    } else {
        n.drop_last()
    }
}

/// The raw field of a `Header` event; nothing for any other event.
pub open spec fn raw_of(e: MessageParserEvent) -> Seq<u8> {
    match e {
        MessageParserEvent::Header(_, _, r) => r@,
        _ => Seq::empty(),
    }
}

/// The concatenated raw fields of a stream of events.
pub open spec fn raws_concat(s: Seq<MessageParserEvent>) -> Seq<u8>
    decreases s.len(),
{
    if s.len() == 0 {
        Seq::empty()
    } else {
        raws_concat(s.drop_last()) + raw_of(s.last())
    }
}

proof fn lemma_raws_push(s: Seq<MessageParserEvent>, e: MessageParserEvent)
    ensures
        raws_concat(s.push(e)) == raws_concat(s) + raw_of(e),
{
    assert(s.push(e).drop_last() =~= s);
    assert(s.push(e).last() == e);
}

/// Pairs name and value tokens into assembled `Header` events.
pub struct HeaderParser<N: MessageParserStage> {
    state: ParserState,
    name: Option<String>,
    buf: Vec<u8>,
    next_stage: N,
    consumed: Ghost<Seq<u8>>,
    headers: Ghost<Seq<MessageParserEvent>>,
    forwarded: Ghost<Seq<MessageParserEvent>>,
}

impl<N: MessageParserStage> HeaderParser<N> {
    /// The payload bytes of every name and value token consumed so far.
    pub closed spec fn consumed_tokens(&self) -> Seq<u8> {
        self.consumed@
    }

    /// The `Header` events emitted so far.
    pub closed spec fn headers_emitted(&self) -> Seq<MessageParserEvent> {
        self.headers@
    }

    /// Every event pushed downstream so far, in order.
    pub closed spec fn forwarded(&self) -> Seq<MessageParserEvent> {
        self.forwarded@
    }

    /// The concatenated raw fields of the emitted `Header` events.
    pub open spec fn raw_concat(&self) -> Seq<u8> {
        raws_concat(self.headers_emitted())
    }

    /// Is the assembler between two headers?
    pub closed spec fn expecting_name(&self) -> bool {
        self.state is ParseHeaderName
    }

    /// Is a name stored, its value owed?
    pub closed spec fn expecting_value(&self) -> bool {
        self.state is ParseHeaderValue
    }

    /// Is the assembler past the header section, or failed?
    pub closed spec fn finished(&self) -> bool {
        self.state is ParseFinished
    }

    /// The raw bytes of the header under assembly.
    pub closed spec fn raw_buffer(&self) -> Seq<u8> {
        self.buf@
    }

    /// While a value is owed, the raw buffer holds exactly the stored
    /// name's bytes.
    pub proof fn lemma_pending_raw(&self)
        requires
            self.wf(),
            self.expecting_value(),
        ensures
            match self.pending_name() {
                Some(pn) => self.raw_buffer() == encode_utf8(pn),
                None => false,
            },
    {
    }

    /// The raw bytes of completed headers, plus the buffered bytes of the
    /// one under assembly, are exactly the token bytes consumed.
    pub closed spec fn wf(&self) -> bool {
        match self.state {
            ParserState::ParseHeaderName => {
                &&& self.name is None
                &&& self.buf@.len() == 0
                &&& raws_concat(self.headers@) == self.consumed@
            },
            ParserState::ParseHeaderValue => {
                &&& match self.name {
                    Some(n) => self.buf@ == encode_utf8(n@),
                    None => false,
                }
                &&& raws_concat(self.headers@) + self.buf@ == self.consumed@
            },
            ParserState::ParseFinished => true,
        }
    }

    /// Between headers, the emitted raw fields reproduce the consumed
    /// token bytes exactly.
    pub proof fn lemma_raw_reconstruction(&self)
        requires
            self.wf(),
            self.expecting_name(),
        ensures
            self.raw_concat() == self.consumed_tokens(),
    {
    }

    /// A fresh assembler around its downstream stage.
    pub fn with_downstream(next_stage: N) -> (p: Self)
        ensures
            p.wf(),
            p.expecting_name(),
            p.consumed_tokens() == Seq::<u8>::empty(),
            p.headers_emitted() == Seq::<MessageParserEvent>::empty(),
            p.forwarded() == Seq::<MessageParserEvent>::empty(),
    {
        let p = HeaderParser {
            state: ParserState::ParseHeaderName,
            name: None,
            buf: Vec::new(),
            next_stage,
            consumed: Ghost(Seq::empty()),
            headers: Ghost(Seq::empty()),
            forwarded: Ghost(Seq::empty()),
        };
        proof {
            assert(raws_concat(p.headers@) =~= Seq::<u8>::empty());
        }
        p
    }

    /// A look at the downstream stage, for taking results back out.
    pub fn next_stage(&self) -> &N {
        &self.next_stage
    }

    fn parse_header_name(&mut self, event: MessageParserEvent)
        requires
            old(self).state is ParseHeaderName,
        ensures
            parser_step(old(self), final(self), event),
            old(self).wf() ==> final(self).wf(),
            final(self).headers_emitted() == old(self).headers_emitted(),
            (old(self).wf() && event matches MessageParserEvent::HeaderName(n))
                ==> match event {
                MessageParserEvent::HeaderName(n) => final(self).consumed_tokens() == old(
                    self,
                ).consumed_tokens() + encode_utf8(n@),
                _ => true,
            },
            !(event is HeaderName) ==> final(self).consumed_tokens() == old(self).consumed_tokens(),
    {
        match event {
            MessageParserEvent::HeaderName(n) => {
                let fwd = MessageParserEvent::HeaderName(n.clone());
                proof {
                    assert(fwd == MessageParserEvent::HeaderName(n));
                    self.forwarded@ = self.forwarded@.push(fwd);
                }
                self.next_stage.process_event(fwd);
                let mut nb = n.as_str().as_bytes_vec();
                proof {
                    self.consumed@ = self.consumed@ + nb@;
                }
                self.buf.append(&mut nb);
                self.name = Some(n);
                self.state = ParserState::ParseHeaderValue;
                proof {
                    assert(self.forwarded@ =~= old(self).forwarded@ + seq![event]);
                    if old(self).wf() {
                        assert(raws_concat(self.headers@) + self.buf@ =~= self.consumed@);
                    }
                }
            },
            MessageParserEvent::EndOfHeaders => {
                proof {
                    self.forwarded@ = self.forwarded@.push(MessageParserEvent::EndOfHeaders);
                    assert(self.forwarded@ =~= old(self).forwarded@ + seq![
                        MessageParserEvent::EndOfHeaders,
                    ]);
                }
                self.next_stage.process_event(MessageParserEvent::EndOfHeaders);
                self.state = ParserState::ParseFinished;
            },
            _ => {
                proof {
                    self.forwarded@ = self.forwarded@.push(MessageParserEvent::ParseError);
                    assert(self.forwarded@ =~= old(self).forwarded@ + seq![
                        MessageParserEvent::ParseError,
                    ]);
                }
                self.next_stage.process_event(MessageParserEvent::ParseError);
                self.state = ParserState::ParseFinished;
            },
        }
    }

    #[verifier::rlimit(50)]
    fn parse_header_value(&mut self, event: MessageParserEvent)
        requires
            old(self).state is ParseHeaderValue,
        ensures
            parser_step(old(self), final(self), event),
            old(self).wf() ==> final(self).wf(),
            old(self).wf() ==> match event {
                MessageParserEvent::HeaderValue(v) => {
                &&& final(self).consumed_tokens() == old(self).consumed_tokens() + encode_utf8(v@)
                &&& final(self).expecting_name()
                &&& final(self).raw_concat() == final(self).consumed_tokens()
                &&& final(self).headers_emitted().len() == old(self).headers_emitted().len()
                    + 1
                &&& match final(self).headers_emitted().last() {
                    MessageParserEvent::Header(hn, hv, hr) => {
                        &&& old(self).pending_name() matches Some(pn) && hn@ == logical_name(
                            pn,
                        ) && hr@ == encode_utf8(pn) + encode_utf8(v@)
                        &&& hv@ == logical_value(v@)
                    },
                    _ => false,
                }
                },
                _ => true,
            },
            !(event is HeaderValue) ==> final(self).consumed_tokens() == old(
                self,
            ).consumed_tokens() && final(self).headers_emitted() == old(self).headers_emitted(),
    {
        match event {
            MessageParserEvent::HeaderValue(v) => {
                let fwd = MessageParserEvent::HeaderValue(v.clone());
                proof {
                    assert(fwd == MessageParserEvent::HeaderValue(v));
                    self.forwarded@ = self.forwarded@.push(fwd);
                }
                self.next_stage.process_event(fwd);
                let mut vb = v.as_str().as_bytes_vec();
                let ghost vb_snap = vb@;
                proof {
                    self.consumed@ = self.consumed@ + vb@;
                }
                self.buf.append(&mut vb);
                let trimmed = trim_header_value(&v);
                let mut stored: Option<String> = None;
                core::mem::swap(&mut stored, &mut self.name);
                match stored {
                    Some(n) => {
                        let logical = drop_last_char(&n);
                        let mut raw: Vec<u8> = Vec::new();
                        core::mem::swap(&mut raw, &mut self.buf);
                        let ghost raw_snap = raw@;
                        let header = MessageParserEvent::Header(logical, trimmed, raw);
                        proof {
                            lemma_raws_push(self.headers@, header);
                            self.headers@ = self.headers@.push(header);
                            self.forwarded@ = self.forwarded@.push(header);
                        }
                        self.next_stage.process_event(header);
                        self.state = ParserState::ParseHeaderName;
                        proof {
                            assert(raw_snap =~= old(self).buf@ + vb_snap);
                            assert(self.headers@ =~= old(self).headers@.push(header));
                            assert(self.buf@ =~= Seq::<u8>::empty());
                            assert(self.forwarded@ =~= old(self).forwarded@ + seq![
                                event,
                                header,
                            ]);
                            if old(self).wf() {
                                assert(raws_concat(self.headers@) =~= raws_concat(
                                    old(self).headers@,
                                ) + raw_snap);
                                assert(raws_concat(self.headers@) =~= self.consumed@);
                            }
                        }
                    },
                    None => {
                        proof {
                            self.forwarded@ = self.forwarded@.push(
                                MessageParserEvent::ParseError,
                            );
                            assert(self.forwarded@ =~= old(self).forwarded@ + seq![
                                event,
                                MessageParserEvent::ParseError,
                            ]);
                        }
                        self.next_stage.process_event(MessageParserEvent::ParseError);
                        self.state = ParserState::ParseFinished;
                    },
                }
            },
            _ => {
                proof {
                    self.forwarded@ = self.forwarded@.push(MessageParserEvent::ParseError);
                    assert(self.forwarded@ =~= old(self).forwarded@ + seq![
                        MessageParserEvent::ParseError,
                    ]);
                }
                self.next_stage.process_event(MessageParserEvent::ParseError);
                self.state = ParserState::ParseFinished;
            },
        }
    }

    /// The name token waiting for its value, if any.
    pub closed spec fn pending_name(&self) -> Option<Seq<char>> {
        match self.name {
            Some(n) => Some(n@),
            None => None,
        }
    }

    /// Take one event: name and value tokens are paired into `Header`
    /// events whose raw field carries the exact wire bytes of the header.
    pub fn consume(&mut self, event: MessageParserEvent)
        ensures
            parser_step(old(self), final(self), event),
            old(self).wf() ==> final(self).wf(),
    {
        match self.state {
            ParserState::ParseHeaderName => self.parse_header_name(event),
            ParserState::ParseHeaderValue => self.parse_header_value(event),
            ParserState::ParseFinished => {
                proof {
                    self.forwarded@ = self.forwarded@.push(event);
                    assert(self.forwarded@ =~= old(self).forwarded@ + seq![event]);
                }
                self.next_stage.process_event(event);
            },
        }
    }
}

/// What one event does to the assembler.  Between headers, a name token is
/// stored; a stored name and its value token become one `Header` event
/// whose name loses the colon, whose value is trimmed, and whose raw field
/// is exactly the two tokens' bytes; the end-of-headers marker, or any
/// out-of-order event, ends the assembly.
pub open spec fn parser_step<N: MessageParserStage>(
    pre: &HeaderParser<N>,
    post: &HeaderParser<N>,
    event: MessageParserEvent,
) -> bool {
    if pre.expecting_name() {
        match event {
            MessageParserEvent::HeaderName(n) => {
                &&& post.expecting_value()
                &&& post.pending_name() == Some(n@)
                &&& post.consumed_tokens() == pre.consumed_tokens() + encode_utf8(n@)
                &&& post.headers_emitted() == pre.headers_emitted()
                &&& post.forwarded() == pre.forwarded() + seq![event]
            },
            MessageParserEvent::EndOfHeaders => {
                &&& post.finished()
                &&& post.consumed_tokens() == pre.consumed_tokens()
                &&& post.headers_emitted() == pre.headers_emitted()
                &&& post.forwarded() == pre.forwarded() + seq![event]
            },
            _ => {
                &&& post.finished()
                &&& post.consumed_tokens() == pre.consumed_tokens()
                &&& post.headers_emitted() == pre.headers_emitted()
                &&& post.forwarded() == pre.forwarded() + seq![
                    MessageParserEvent::ParseError,
                ]
            },
        }
    } else if pre.expecting_value() {
        match event {
            MessageParserEvent::HeaderValue(v) => {
                &&& post.consumed_tokens() == pre.consumed_tokens() + encode_utf8(v@)
                &&& match pre.pending_name() {
                    Some(pn) => {
                        &&& post.expecting_name()
                        &&& post.headers_emitted().len() == pre.headers_emitted().len() + 1
                        &&& pre.headers_emitted().is_prefix_of(post.headers_emitted())
                        &&& match post.headers_emitted().last() {
                            MessageParserEvent::Header(hn, hv, hr) => {
                                &&& hn@ == logical_name(pn)
                                &&& hv@ == logical_value(v@)
                                &&& hr@ == pre.raw_buffer() + encode_utf8(v@)
                            },
                            _ => false,
                        }
                        &&& post.forwarded() == pre.forwarded() + seq![
                            event,
                            post.headers_emitted().last(),
                        ]
                    },
                    None => {
                        &&& post.finished()
                        &&& post.headers_emitted() == pre.headers_emitted()
                        &&& post.forwarded() == pre.forwarded() + seq![
                            event,
                            MessageParserEvent::ParseError,
                        ]
                    },
                }
            },
            _ => {
                &&& post.finished()
                &&& post.consumed_tokens() == pre.consumed_tokens()
                &&& post.headers_emitted() == pre.headers_emitted()
                &&& post.forwarded() == pre.forwarded() + seq![
                    MessageParserEvent::ParseError,
                ]
            },
        }
    } else {
        &&& post.finished()
        &&& post.consumed_tokens() == pre.consumed_tokens()
        &&& post.headers_emitted() == pre.headers_emitted()
        &&& post.forwarded() == pre.forwarded() + seq![event]
    }
}

impl<N: MessageParserStage> MessageParserStage for HeaderParser<N> {
    fn process_event(&mut self, event: MessageParserEvent) {
        self.consume(event);
    }
}

impl<N: MessageParserStage> MessageParserFilter<N> for HeaderParser<N> {
    fn new(next_stage: N) -> (p: Self) {
        HeaderParser::with_downstream(next_stage)
    }
}

/// `s` without its last character; the empty string stays empty.
fn drop_last_char(s: &String) -> (r: String)
    ensures
        r@ == logical_name(s@),
{
    let ss = s.as_str();
    let n = ss.unicode_len();
    if n == 0 {
        String::new()
    } else {
        proof {
            assert(ss@.subrange(0, n - 1 as int) =~= ss@.drop_last());
        }
        String::from_str(ss.substring_char(0, n - 1))
    }
}

/// Trim whitespace around a value token, then any trailing colons.
#[verifier::loop_isolation(false)]
fn trim_header_value(s: &String) -> (r: String)
    ensures
        r@ == logical_value(s@),
{
    let ss = s.as_str();
    let n = ss.unicode_len();
    let mut a: usize = 0;
    while a < n && is_text_ws_exec(ss.get_char(a))
        invariant
            a <= n,
            forall|j: int| 0 <= j < a ==> is_text_ws(ss@[j]),
        decreases n - a,
    {
        a = a + 1;
    }
    let mut b: usize = n;
    while b > a && is_text_ws_exec(ss.get_char(b - 1))
        invariant
            a <= b <= n,
            forall|j: int| b <= j < n ==> is_text_ws(ss@[j]),
        decreases b,
    {
        b = b - 1;
    }
    let ghost trimmed = ss@.subrange(a as int, b as int);
    proof {
        lemma_trim_start_skip(ss@, a as int);
        let after_start = ss@.skip(a as int);
        if a < n {
            assert(!is_text_ws(after_start[0]));
        }
        lemma_trim_start_id(after_start);
        assert(forall|j: int|
            0 <= j < after_start.len() ==> #[trigger] after_start[j] == ss@[a + j]);
        assert(forall|j: int|
            b - a <= j < after_start.len() ==> is_text_ws(#[trigger] after_start[j]));
        lemma_trim_end_take(after_start, b - a as int);
        assert(after_start.take(b - a as int) =~= trimmed);
        if b > a {
            assert(!is_text_ws(trimmed.last()));
        }
        lemma_trim_end_id(trimmed);
        assert(trim_chars(ss@) == trimmed);
        assert(forall|j: int| 0 <= j < trimmed.len() ==> #[trigger] trimmed[j] == ss@[a + j]);
    }
    let mut c: usize = b;
    while c > a && ss.get_char(c - 1) == ':'
        invariant
            a <= c <= b,
            forall|j: int| c <= j < b ==> ss@[j] == ':',
        decreases c,
    {
        c = c - 1;
    }
    proof {
        let t2 = trimmed.take(c - a as int);
        assert(forall|j: int| c - a <= j < trimmed.len() ==> #[trigger] trimmed[j] == ':');
        lemma_strip_char_take(trimmed, ':', c - a as int);
        if c > a {
            assert(t2.last() != ':');
        }
        lemma_strip_char_id(t2, ':');
        assert(t2 =~= ss@.subrange(a as int, c as int));
    }
    String::from_str(ss.substring_char(a, c))
}


/// Concatenating the raw fields of the emitted `Header` events yields the
/// original header block: when an assembler has consumed exactly the
/// tokens a scanner emitted, and both stand between headers, the raw
/// fields put together are byte for byte the header block the scanner
/// consumed, the blank line excluded.
pub proof fn lemma_raw_header_block<N1: MessageParserStage, N2: MessageParserStage>(
    scanner: &crate::message_scanner::MessageScanner<N1>,
    parser: &HeaderParser<N2>,
)
    requires
        scanner.wf(),
        scanner.headers_done(),
        parser.wf(),
        parser.expecting_name(),
        parser.consumed_tokens() == crate::message_scanner::payload_bytes(scanner.emitted()),
    ensures
        parser.raw_concat() == scanner.header_block(),
{
    scanner.lemma_header_block_reconstruction();
    parser.lemma_raw_reconstruction();
}

} // verus!
