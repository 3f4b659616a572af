//! The header decoder stage: applies RFC 2047 decoding to the value of
//! each assembled `Header` event and passes everything else through.

use vstd::prelude::*;

use crate::events::{event_eq, MessageParserEvent, MessageParserFilter, MessageParserStage};
use crate::rfc2047::{decode_rfc2047, rfc2047_decoded};

verus! {

/// What this stage does to one event: a `Header`'s value is decoded, its
/// name and raw bytes are untouched, and every other event passes as is.
pub fn decode_header_event(event: MessageParserEvent) -> (r: MessageParserEvent)
    ensures
        match event {
            MessageParserEvent::Header(n, v, raw) => r matches MessageParserEvent::Header(
                n2,
                v2,
                r2,
            ) && n2@ == n@ && v2@ == rfc2047_decoded(v@) && r2@ == raw@,
            _ => event_eq(r, event),
        },
{
    match event {
        MessageParserEvent::Header(name, value, raw) => {
            let decoded = decode_rfc2047(value.as_str());
            MessageParserEvent::Header(name, decoded, raw)
        },
        e => {
            proof {
                assert(event_eq(e, e));
            }
            e
        },
    }
}

/// Decodes header values on their way downstream.
pub struct HeaderDecoder<N: MessageParserStage> {
    next_stage: N,
}

impl<N: MessageParserStage> HeaderDecoder<N> {
    /// A fresh decoder around its downstream stage.
    pub fn with_downstream(next_stage: N) -> Self {
        HeaderDecoder { next_stage }
    }

    /// A look at the downstream stage, for taking results back out.
    pub fn next_stage(&self) -> &N {
        &self.next_stage
    }
}

impl<N: MessageParserStage> MessageParserStage for HeaderDecoder<N> {
    fn process_event(&mut self, event: MessageParserEvent) {
        self.next_stage.process_event(decode_header_event(event));
    }
}

impl<N: MessageParserStage> MessageParserFilter<N> for HeaderDecoder<N> {
    fn new(next_stage: N) -> (d: Self) {
        HeaderDecoder { next_stage }
    }
}

} // verus!
