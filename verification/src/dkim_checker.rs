//! The DKIM checker stage: watches the event stream for `DKIM-Signature`
//! headers, opens a verifier for each one that parses, feeds every later
//! header and body chunk to all of them, and finalizes them when the
//! message ends.

use vstd::prelude::*;
use vstd::utf8::encode_utf8;

use crate::canonicalizer::{ascii_lower, body_canon_of};
use crate::dkim::{
    limit_take, parse_ok, sig_matches, tag_list_spec, DkimResults, DkimSignature,
    DkimVerificationError, DkimVerifier, HashAlgorithm,
};
use crate::events::{MessageParserEvent, MessageParserFilter, MessageParserStage};
use crate::trusted::{base64_standard, digest_of};

verus! {

/// Where the checker stands in the message.
pub enum DkimState {
    /// No signature seen yet.
    Start,
    /// At least one `DKIM-Signature` header went by; verifiers run.
    DkimSignatureSeen,
    /// The message ended; everything passes through.
    Finished,
}

/// Case-insensitive match of a header name, ASCII letters only, as header
/// names are ASCII.
#[verifier::loop_isolation(false)]
fn names_match(name: &String, expected: &str) -> (r: bool)
    ensures
        r == (ascii_lower(encode_utf8(name@)) == ascii_lower(encode_utf8(expected@))),
{
    let a = name.as_str().as_bytes_vec();
    let b = expected.as_bytes_vec();
    proof {
        assert(a@ == encode_utf8(name@));
        assert(b@ == encode_utf8(expected@));
    }
    if a.len() != b.len() {
        proof {
            assert(ascii_lower(a@).len() == a@.len());
            assert(ascii_lower(b@).len() == b@.len());
        }
        return false;
    }
    let mut i: usize = 0;
    while i < a.len()
        invariant
            a@.len() == b@.len(),
            i <= a@.len(),
            forall|j: int|
                0 <= j < i ==> #[trigger] ascii_lower(a@)[j] == ascii_lower(b@)[j],
        decreases a.len() - i,
    {
        let x = a[i];
        let y = b[i];
        proof {
            assert(ascii_lower(a@)[i as int] == crate::canonicalizer::ascii_lower_byte(
                a@[i as int],
            ));
            assert(ascii_lower(b@)[i as int] == crate::canonicalizer::ascii_lower_byte(
                b@[i as int],
            ));
        }
        let xl: u8 = if 65 <= x && x <= 90 {
            x + 32
        } else {
            x
        };
        let yl: u8 = if 65 <= y && y <= 90 {
            y + 32
        } else {
            y
        };
        if xl != yl {
            proof {
                assert(ascii_lower(a@)[i as int] == crate::canonicalizer::ascii_lower_byte(
                    a@[i as int],
                ));
                assert(ascii_lower(b@)[i as int] == crate::canonicalizer::ascii_lower_byte(
                    b@[i as int],
                ));
                assert(ascii_lower(a@)[i as int] != ascii_lower(b@)[i as int]);
                assert(ascii_lower(a@) != ascii_lower(b@));
            }
            return false;
        }
        i = i + 1;
    }
    proof {
        assert(ascii_lower(a@) =~= ascii_lower(b@));
    }
    true
}

/// Observes the stream and runs one verifier per `DKIM-Signature` header.
pub struct DkimChecker<N: MessageParserStage> {
    state: DkimState,
    signatures: Vec<DkimVerifier>,
    results: Vec<Result<DkimResults, DkimVerificationError>>,
    next_stage: N,
    forwarded: Ghost<Seq<MessageParserEvent>>,
}

impl<N: MessageParserStage> DkimChecker<N> {
    /// Every live verifier is well formed.
    pub closed spec fn wf(&self) -> bool {
        forall|i: int|
            0 <= i < self.signatures@.len() ==> (#[trigger] self.signatures@[i]).wf()
    }

    /// How many verifiers are live.
    pub closed spec fn verifier_count(&self) -> nat {
        self.signatures@.len()
    }

    /// The live verifiers, in the order their signatures were seen.
    pub closed spec fn verifiers(&self) -> Seq<DkimVerifier> {
        self.signatures@
    }

    /// Is the checker between the first signature and the end of the
    /// message, feeding verifiers?
    pub closed spec fn watching(&self) -> bool {
        self.state is DkimSignatureSeen
    }

    /// Is the checker still waiting for the first signature?
    pub closed spec fn at_start(&self) -> bool {
        self.state is Start
    }

    /// Is the message over, everything passing through?
    pub closed spec fn done(&self) -> bool {
        self.state is Finished
    }

    /// Every event pushed downstream so far, in order.
    pub closed spec fn forwarded(&self) -> Seq<MessageParserEvent> {
        self.forwarded@
    }

    /// The finalization outcomes recorded so far, in signature order.
    pub closed spec fn recorded_results(&self) -> Seq<
        Result<DkimResults, DkimVerificationError>,
    > {
        self.results@
    }

    /// A fresh checker around its downstream stage.
    pub fn with_downstream(next_stage: N) -> (c: Self)
        ensures
            c.wf(),
            c.verifier_count() == 0,
            c.at_start(),
            c.forwarded() == Seq::<MessageParserEvent>::empty(),
            c.recorded_results() == Seq::<Result<DkimResults, DkimVerificationError>>::empty(),
    {
        DkimChecker {
            state: DkimState::Start,
            signatures: Vec::new(),
            results: Vec::new(),
            next_stage,
            forwarded: Ghost(Seq::empty()),
        }
    }

    /// The finalization outcome of each drained verifier, in the order
    /// the signatures were seen.
    pub fn results(&self) -> (r: &Vec<Result<DkimResults, DkimVerificationError>>)
        ensures
            r@ == self.recorded_results(),
    {
        &self.results
    }

    /// Feed one assembled header to every live verifier: each one's
    /// canonicalized-header accumulator grows by this header's
    /// canonicalization, and nothing else about it moves.
    fn feed_header(&mut self, name: &String, value: &String, raw: &Vec<u8>)
        ensures
            old(self).wf() ==> final(self).wf(),
            final(self).verifier_count() == old(self).verifier_count(),
            final(self).state == old(self).state,
            final(self).recorded_results() == old(self).recorded_results(),
            final(self).forwarded() == old(self).forwarded(),
            forall|i: int|
                0 <= i < old(self).verifiers().len() ==> {
                    let pre = old(self).verifiers()[i];
                    let post = #[trigger] final(self).verifiers()[i];
                    &&& post.sig() == pre.sig()
                    &&& post.body_fed() == pre.body_fed()
                    &&& post.hashed() == pre.hashed()
                    &&& (pre.wf() ==> post.headers_canon() == pre.headers_canon()
                        + crate::canonicalizer::header_canon_of(
                        pre.sig().header_canon,
                        name@,
                        value@,
                        raw@,
                    ))
                },
    {
        let ghost n0 = self.signatures@.len();
        let ghost orig = self.signatures@;
        let mut tmp: Vec<DkimVerifier> = Vec::new();
        while self.signatures.len() > 0
            invariant
                tmp@.len() + self.signatures@.len() == n0,
                orig == old(self).signatures@,
                forall|i: int|
                    0 <= i < self.signatures@.len() ==> #[trigger] self.signatures@[i]
                        == orig[i],
                forall|i: int|
                    0 <= i < tmp@.len() ==> #[trigger] tmp@[i] == orig[n0 - 1 - i],
                self.state == old(self).state,
                self.results == old(self).results,
                self.forwarded@ == old(self).forwarded@,
            decreases self.signatures.len(),
        {
            match self.signatures.pop() {
                Some(sig) => tmp.push(sig),
                None => {},
            }
        }
        while tmp.len() > 0
            invariant
                tmp@.len() + self.signatures@.len() == n0,
                orig == old(self).signatures@,
                forall|i: int|
                    0 <= i < tmp@.len() ==> #[trigger] tmp@[i] == orig[n0 - 1 - i],
                forall|i: int|
                    0 <= i < self.signatures@.len() ==> {
                        let pre = orig[i];
                        let post = #[trigger] self.signatures@[i];
                        &&& post.sig() == pre.sig()
                        &&& post.body_fed() == pre.body_fed()
                        &&& post.hashed() == pre.hashed()
                        &&& post.hash_ok() == pre.hash_ok()
                        &&& (pre.wf() ==> post.wf())
                        &&& (pre.wf() ==> post.headers_canon() == pre.headers_canon()
                            + crate::canonicalizer::header_canon_of(
                            pre.sig().header_canon,
                            name@,
                            value@,
                            raw@,
                        ))
                    },
                self.state == old(self).state,
                self.results == old(self).results,
                self.forwarded@ == old(self).forwarded@,
            decreases tmp.len(),
        {
            let ghost k = self.signatures@.len() as int;
            match tmp.pop() {
                Some(mut sig) => {
                    proof {
                        assert(sig == orig[k]);
                    }
                    sig.add_header(name.clone(), value.clone(), raw.clone());
                    self.signatures.push(sig);
                },
                None => {},
            }
        }
    }

    /// Feed one body chunk to every live verifier: each one's body stream
    /// grows by this chunk, and the body length limit keeps holding.  A
    /// verifier whose hash context failed reports that at finalization;
    /// the message goes on regardless.
    fn feed_body(&mut self, data: &Vec<u8>)
        ensures
            old(self).wf() ==> final(self).wf(),
            final(self).verifier_count() == old(self).verifier_count(),
            final(self).state == old(self).state,
            final(self).recorded_results() == old(self).recorded_results(),
            final(self).forwarded() == old(self).forwarded(),
            forall|i: int|
                0 <= i < old(self).verifiers().len() ==> {
                    let pre = old(self).verifiers()[i];
                    let post = #[trigger] final(self).verifiers()[i];
                    &&& post.sig() == pre.sig()
                    &&& post.body_fed() == pre.body_fed() + data@
                    &&& post.headers_canon() == pre.headers_canon()
                    &&& (pre.wf() ==> match pre.sig().body_length {
                        Some(l) => post.hashed().len() <= l,
                        None => true,
                    })
                },
    {
        let ghost n0 = self.signatures@.len();
        let ghost orig = self.signatures@;
        let mut tmp: Vec<DkimVerifier> = Vec::new();
        while self.signatures.len() > 0
            invariant
                tmp@.len() + self.signatures@.len() == n0,
                orig == old(self).signatures@,
                forall|i: int|
                    0 <= i < self.signatures@.len() ==> #[trigger] self.signatures@[i]
                        == orig[i],
                forall|i: int|
                    0 <= i < tmp@.len() ==> #[trigger] tmp@[i] == orig[n0 - 1 - i],
                self.state == old(self).state,
                self.results == old(self).results,
                self.forwarded@ == old(self).forwarded@,
            decreases self.signatures.len(),
        {
            match self.signatures.pop() {
                Some(sig) => tmp.push(sig),
                None => {},
            }
        }
        while tmp.len() > 0
            invariant
                tmp@.len() + self.signatures@.len() == n0,
                orig == old(self).signatures@,
                forall|i: int|
                    0 <= i < tmp@.len() ==> #[trigger] tmp@[i] == orig[n0 - 1 - i],
                forall|i: int|
                    0 <= i < self.signatures@.len() ==> {
                        let pre = orig[i];
                        let post = #[trigger] self.signatures@[i];
                        &&& post.sig() == pre.sig()
                        &&& post.body_fed() == pre.body_fed() + data@
                        &&& post.headers_canon() == pre.headers_canon()
                        &&& (pre.wf() ==> post.wf())
                        &&& (pre.wf() ==> match pre.sig().body_length {
                            Some(l) => post.hashed().len() <= l,
                            None => true,
                        })
                    },
                self.state == old(self).state,
                self.results == old(self).results,
                self.forwarded@ == old(self).forwarded@,
            decreases tmp.len(),
        {
            let ghost k = self.signatures@.len() as int;
            match tmp.pop() {
                Some(mut sig) => {
                    proof {
                        assert(sig == orig[k]);
                    }
                    match sig.update_body(data) {
                        Ok(_) => {},
                        Err(_) => {},
                    }
                    self.signatures.push(sig);
                },
                None => {},
            }
        }
    }

    /// Finalize and drain every verifier, keeping each outcome in the
    /// order the signatures were seen.
    fn drain_verifiers(&mut self)
        ensures
            final(self).wf(),
            final(self).verifier_count() == 0,
            final(self).state == old(self).state,
            final(self).forwarded() == old(self).forwarded(),
            final(self).recorded_results().len() == old(self).recorded_results().len() + old(
                self,
            ).verifier_count(),
            old(self).recorded_results().is_prefix_of(final(self).recorded_results()),
            forall|i: int|
                0 <= i < old(self).verifiers().len() ==> outcome_for(
                    old(self).verifiers()[i],
                    #[trigger] final(self).recorded_results()[old(
                        self,
                    ).recorded_results().len() + i],
                ),
    {
        let ghost n0 = self.signatures@.len();
        let ghost orig = self.signatures@;
        let ghost results0 = self.results@;
        let mut tmp: Vec<DkimVerifier> = Vec::new();
        while self.signatures.len() > 0
            invariant
                tmp@.len() + self.signatures@.len() == n0,
                orig == old(self).signatures@,
                forall|i: int|
                    0 <= i < self.signatures@.len() ==> #[trigger] self.signatures@[i]
                        == orig[i],
                forall|i: int|
                    0 <= i < tmp@.len() ==> #[trigger] tmp@[i] == orig[n0 - 1 - i],
                self.state == old(self).state,
                self.results@ == results0,
                self.forwarded@ == old(self).forwarded@,
            decreases self.signatures.len(),
        {
            match self.signatures.pop() {
                Some(sig) => tmp.push(sig),
                None => {},
            }
        }
        while tmp.len() > 0
            invariant
                tmp@.len() <= n0,
                orig == old(self).signatures@,
                self.signatures@.len() == 0,
                forall|i: int|
                    0 <= i < tmp@.len() ==> #[trigger] tmp@[i] == orig[n0 - 1 - i],
                self.results@.len() == results0.len() + n0 - tmp@.len(),
                results0.is_prefix_of(self.results@),
                self.forwarded@ == old(self).forwarded@,
                forall|i: int|
                    0 <= i < n0 - tmp@.len() ==> outcome_for(
                        orig[i],
                        #[trigger] self.results@[results0.len() + i],
                    ),
                self.state == old(self).state,
            decreases tmp.len(),
        {
            let ghost k = n0 - tmp@.len();
            match tmp.pop() {
                Some(sig) => {
                    proof {
                        assert(sig == orig[k]);
                    }
                    let outcome = sig.finalize_body();
                    self.results.push(outcome);
                },
                None => {},
            }
        }
        proof {
            assert(self.results@.len() == results0.len() + n0);
        }
    }

    fn parse_dkim_headers(&mut self, event: MessageParserEvent)
        requires
            old(self).state is Start,
        ensures
            old(self).wf() ==> final(self).wf(),
            start_step(old(self), final(self), event),
    {
        match event {
            MessageParserEvent::Header(name, value, raw) => {
                if names_match(&name, "DKIM-Signature") {
                    match DkimSignature::parse(value.as_str()) {
                        Ok(s) => {
                            self.signatures.push(DkimVerifier::new(s));
                            proof {
                                assert(self.signatures@.drop_last() =~= old(
                                    self,
                                ).signatures@);
                            }
                        },
                        Err(_) => {
                            // An unparsable signature draws no verifier;
                            // the message itself goes on.
                        },
                    }
                    self.state = DkimState::DkimSignatureSeen;
                } else {
                    let fwd = MessageParserEvent::Header(name, value, raw);
                    proof {
                        self.forwarded@ = self.forwarded@.push(fwd);
                        assert(self.forwarded@ =~= old(self).forwarded@ + seq![fwd]);
                    }
                    self.next_stage.process_event(fwd);
                }
            },
            e => {
                proof {
                    self.forwarded@ = self.forwarded@.push(e);
                    assert(self.forwarded@ =~= old(self).forwarded@ + seq![e]);
                }
                self.next_stage.process_event(e);
            },
        }
    }

    fn parse_message(&mut self, event: MessageParserEvent)
        requires
            old(self).state is DkimSignatureSeen,
        ensures
            old(self).wf() ==> final(self).wf(),
            watched_step(old(self), final(self), event),
    {
        match event {
            MessageParserEvent::Header(name, value, raw) => {
                self.feed_header(&name, &value, &raw);
                let ghost fed_sigs = self.signatures@;
                if names_match(&name, "DKIM-Signature") {
                    // A further signature: it too gets its own verifier,
                    // running over the rest of the same stream.
                    match DkimSignature::parse(value.as_str()) {
                        Ok(s) => {
                            self.signatures.push(DkimVerifier::new(s));
                            proof {
                                assert(forall|i: int|
                                    0 <= i < fed_sigs.len() ==> #[trigger] self.signatures@[i]
                                        == fed_sigs[i]);
                            }
                        },
                        Err(_) => {},
                    }
                }
                let fwd = MessageParserEvent::Header(name, value, raw);
                proof {
                    self.forwarded@ = self.forwarded@.push(fwd);
                    assert(self.forwarded@ =~= old(self).forwarded@ + seq![fwd]);
                }
                self.next_stage.process_event(fwd);
            },
            MessageParserEvent::BodyChunk(data) => {
                self.feed_body(&data);
                let fwd = MessageParserEvent::BodyChunk(data);
                proof {
                    self.forwarded@ = self.forwarded@.push(fwd);
                    assert(self.forwarded@ =~= old(self).forwarded@ + seq![fwd]);
                }
                self.next_stage.process_event(fwd);
            },
            MessageParserEvent::End => {
                self.drain_verifiers();
                proof {
                    self.forwarded@ = self.forwarded@.push(MessageParserEvent::End);
                    assert(self.forwarded@ =~= old(self).forwarded@ + seq![
                        MessageParserEvent::End,
                    ]);
                }
                self.next_stage.process_event(MessageParserEvent::End);
                self.state = DkimState::Finished;
            },
            e => {
                proof {
                    self.forwarded@ = self.forwarded@.push(e);
                    assert(self.forwarded@ =~= old(self).forwarded@ + seq![e]);
                }
                self.next_stage.process_event(e);
            },
        }
    }

    /// Take one event, as the pipeline hands them over.  While verifiers
    /// are running, every header reaches each of them, every body chunk
    /// reaches each of them, and the end of the message drains them all.
    pub fn consume(&mut self, event: MessageParserEvent)
        ensures
            old(self).wf() ==> final(self).wf(),
            old(self).at_start() ==> start_step(old(self), final(self), event),
            old(self).watching() ==> watched_step(old(self), final(self), event),
            old(self).done() ==> {
                &&& final(self).done()
                &&& final(self).forwarded() == old(self).forwarded() + seq![event]
                &&& final(self).verifiers() == old(self).verifiers()
                &&& final(self).recorded_results() == old(self).recorded_results()
            },
    {
        match self.state {
            DkimState::Start => self.parse_dkim_headers(event),
            DkimState::DkimSignatureSeen => self.parse_message(event),
            DkimState::Finished => {
                proof {
                    self.forwarded@ = self.forwarded@.push(event);
                    assert(self.forwarded@ =~= old(self).forwarded@ + seq![event]);
                }
                self.next_stage.process_event(event);
            },
        }
    }

    /// A look at the downstream stage, for taking results back out.
    pub fn next_stage(&self) -> &N {
        &self.next_stage
    }
}

/// Is this header name `DKIM-Signature`, ASCII case aside?
pub open spec fn is_dkim_signature_name(n: Seq<char>) -> bool {
    ascii_lower(encode_utf8(n)) == ascii_lower(encode_utf8("DKIM-Signature"@))
}

/// A verifier just opened for the signature a header value parses to:
/// nothing fed yet, and its signature is what the value says.
pub open spec fn fresh_verifier_for(v: DkimVerifier, value: Seq<char>) -> bool {
    &&& v.wf()
    &&& sig_matches(v.sig(), tag_list_spec(value))
    &&& v.body_fed() == Seq::<u8>::empty()
    &&& v.hashed() == Seq::<u8>::empty()
    &&& v.headers_canon() == Seq::<u8>::empty()
}

/// What finalization may record for a verifier: a hash failure is
/// `HashError`, an unhealthy hash context never reports `Ok`, and a
/// healthy, well-formed verifier's `Ok` verdict is exactly the comparison
/// of the computed body hash with the declared one.
pub open spec fn outcome_for(
    v: DkimVerifier,
    out: Result<DkimResults, DkimVerificationError>,
) -> bool {
    &&& (!v.hash_ok() ==> out is Err)
    &&& match out {
        Err(e) => e is HashError,
        Ok(res) => (v.wf() && v.hash_ok()) ==> res.body_hash_ok == (base64_standard(
            digest_of(
                v.sig().hash_type == HashAlgorithm::Sha256,
                limit_take(body_canon_of(v.sig().body_canon, v.body_fed()), v.sig().body_length),
            ),
        ) == v.sig().body_hash@),
    }
}

/// How one event moves the checker before the first signature: a
/// `DKIM-Signature` header that parses opens the first verifier and the
/// watch begins; one that does not parse still begins the watch; any
/// other event passes through and changes nothing.
pub open spec fn start_step<N: MessageParserStage>(
    pre: &DkimChecker<N>,
    post: &DkimChecker<N>,
    event: MessageParserEvent,
) -> bool {
    &&& post.recorded_results() == pre.recorded_results()
    &&& match event {
        MessageParserEvent::Header(n, v, _) => if is_dkim_signature_name(n@) {
            &&& post.watching()
            &&& post.forwarded() == pre.forwarded()
            &&& if parse_ok(v@) {
                &&& post.verifier_count() == pre.verifier_count() + 1
                &&& post.verifiers().drop_last() == pre.verifiers()
                &&& fresh_verifier_for(post.verifiers().last(), v@)
            } else {
                post.verifiers() == pre.verifiers()
            }
        } else {
            &&& post.at_start()
            &&& post.verifiers() == pre.verifiers()
            &&& post.forwarded() == pre.forwarded() + seq![event]
        },
        _ => {
            &&& post.at_start()
            &&& post.verifiers() == pre.verifiers()
            &&& post.forwarded() == pre.forwarded() + seq![event]
        },
    }
}

/// How one event moves the live verifiers while the checker is watching:
/// a header is canonicalized into every verifier, a body chunk extends
/// every verifier's body stream within its length limit, and the end of
/// the message drains them all.
pub open spec fn watched_step<N: MessageParserStage>(
    pre: &DkimChecker<N>,
    post: &DkimChecker<N>,
    event: MessageParserEvent,
) -> bool {
    match event {
        MessageParserEvent::Header(name, value, raw) => {
            &&& post.recorded_results() == pre.recorded_results()
            &&& post.forwarded() == pre.forwarded() + seq![event]
            &&& if is_dkim_signature_name(name@) && parse_ok(value@) {
                &&& post.verifier_count() == pre.verifier_count() + 1
                &&& fresh_verifier_for(post.verifiers().last(), value@)
            } else {
                post.verifier_count() == pre.verifier_count()
            }
            &&& forall|i: int|
                0 <= i < pre.verifiers().len() ==> {
                    let v0 = pre.verifiers()[i];
                    let v1 = #[trigger] post.verifiers()[i];
                    &&& v1.sig() == v0.sig()
                    &&& v1.body_fed() == v0.body_fed()
                    &&& (v0.wf() ==> v1.headers_canon() == v0.headers_canon()
                        + crate::canonicalizer::header_canon_of(
                        v0.sig().header_canon,
                        name@,
                        value@,
                        raw@,
                    ))
                }
        },
        MessageParserEvent::BodyChunk(data) => {
            &&& post.recorded_results() == pre.recorded_results()
            &&& post.forwarded() == pre.forwarded() + seq![event]
            &&& post.verifier_count() == pre.verifier_count()
            &&& forall|i: int|
                0 <= i < pre.verifiers().len() ==> {
                    let v0 = pre.verifiers()[i];
                    let v1 = #[trigger] post.verifiers()[i];
                    &&& v1.sig() == v0.sig()
                    &&& v1.body_fed() == v0.body_fed() + data@
                    &&& v1.headers_canon() == v0.headers_canon()
                    &&& (v0.wf() ==> match v0.sig().body_length {
                        Some(l) => v1.hashed().len() <= l,
                        None => true,
                    })
                }
        },
        MessageParserEvent::End => {
            &&& post.verifier_count() == 0
            &&& post.forwarded() == pre.forwarded() + seq![MessageParserEvent::End]
            &&& post.recorded_results().len() == pre.recorded_results().len()
                + pre.verifier_count()
            &&& pre.recorded_results().is_prefix_of(post.recorded_results())
            &&& forall|i: int|
                0 <= i < pre.verifiers().len() ==> outcome_for(
                    pre.verifiers()[i],
                    #[trigger] post.recorded_results()[pre.recorded_results().len() + i],
                )
        },
        _ => {
            &&& post.verifiers() == pre.verifiers()
            &&& post.recorded_results() == pre.recorded_results()
            &&& post.forwarded() == pre.forwarded() + seq![event]
        },
    }
}

impl<N: MessageParserStage> MessageParserStage for DkimChecker<N> {
    fn process_event(&mut self, event: MessageParserEvent) {
        self.consume(event);
    }
}

impl<N: MessageParserStage> MessageParserFilter<N> for DkimChecker<N> {
    fn new(next_stage: N) -> (c: Self) {
        DkimChecker::with_downstream(next_stage)
    }
}

} // verus!
