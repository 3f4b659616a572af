//! DKIM body and header canonicalization, simple and relaxed.
//!
//! Each body canonicalizer is a streaming transform: `canonicalize` may be
//! fed the body in arbitrary chunks, and `flush` ends the stream.  The ghost
//! fields record everything fed and everything emitted, so the contracts can
//! tie the streamed output to a functional model of the whole stream.

use vstd::prelude::*;

verus! {

/// Which canonicalization a DKIM signature asks for.
#[derive(Debug, Clone, Copy, PartialEq, Eq, Structural)]
pub enum CanonicalizationType {
    Simple,
    Relaxed,
}

/// The two bytes of a CRLF line ending.
pub open spec fn crlf() -> Seq<u8> {
    seq![13u8, 10u8]
}

/// `n` CRLF line endings in a row.
pub open spec fn crlf_repeat(n: nat) -> Seq<u8>
    decreases n,
{
    if n == 0 {
        Seq::empty()
    } else {
        crlf_repeat((n - 1) as nat) + crlf()
    }
}

/// Does `s` end in CRLF?
pub open spec fn ends_with_crlf(s: Seq<u8>) -> bool {
    s.len() >= 2 && s[s.len() - 2] == 13u8 && s[s.len() - 1] == 10u8
}

/// `s` with every trailing CRLF removed.
pub open spec fn strip_trailing_crlf(s: Seq<u8>) -> Seq<u8>
    decreases s.len(),
{
    if ends_with_crlf(s) {
        strip_trailing_crlf(s.take(s.len() - 2))
    } else {
        s
    }
}

/// Simple body canonicalization of a complete body: trailing empty lines go,
/// and exactly one CRLF terminates the result.
pub open spec fn simple_body_canon(input: Seq<u8>) -> Seq<u8> {
    strip_trailing_crlf(input) + crlf()
}

pub proof fn lemma_crlf_repeat_unfold(n: nat)
    requires
        n > 0,
    ensures
        crlf_repeat(n) == crlf_repeat((n - 1) as nat) + crlf(),
        crlf_repeat(n).len() == 2 * n,
{
    lemma_crlf_repeat_len(n);
    lemma_crlf_repeat_len((n - 1) as nat);
}

pub proof fn lemma_crlf_repeat_len(n: nat)
    ensures
        crlf_repeat(n).len() == 2 * n,
    decreases n,
{
    if n > 0 {
        lemma_crlf_repeat_len((n - 1) as nat);
    }
}

/// Appending CRLFs does not change the stripped prefix.
pub proof fn lemma_strip_append_crlfs(x: Seq<u8>, n: nat)
    ensures
        strip_trailing_crlf(x + crlf_repeat(n)) == strip_trailing_crlf(x),
    decreases n,
{
    if n == 0 {
        assert(x + crlf_repeat(0) =~= x);
    } else {
        lemma_crlf_repeat_unfold(n);
        lemma_crlf_repeat_len(n);
        let y = x + crlf_repeat(n);
        assert(y =~= (x + crlf_repeat((n - 1) as nat)) + crlf());
        assert(ends_with_crlf(y));
        assert(y.take(y.len() - 2) =~= x + crlf_repeat((n - 1) as nat));
        lemma_strip_append_crlfs(x, (n - 1) as nat);
    }
}

/// Stripping is a fixpoint: the result never ends in CRLF.
pub proof fn lemma_strip_fixpoint(x: Seq<u8>)
    ensures
        !ends_with_crlf(strip_trailing_crlf(x)),
    decreases x.len(),
{
    if ends_with_crlf(x) {
        lemma_strip_fixpoint(x.take(x.len() - 2));
    }
}

/// Simple body canonicalization is idempotent, its output ends in exactly
/// one CRLF, and the empty body canonicalizes to a single CRLF.
pub proof fn lemma_simple_body_canon_idempotent(x: Seq<u8>)
    ensures
        simple_body_canon(simple_body_canon(x)) == simple_body_canon(x),
        ends_with_crlf(simple_body_canon(x)),
        !ends_with_crlf(simple_body_canon(x).take(simple_body_canon(x).len() - 2)),
        simple_body_canon(Seq::<u8>::empty()) == crlf(),
{
    let y = strip_trailing_crlf(x);
    lemma_strip_fixpoint(x);
    lemma_crlf_repeat_unfold(1);
    assert(crlf_repeat(1) =~= crlf());
    assert(y + crlf() =~= y + crlf_repeat(1));
    lemma_strip_append_crlfs(y, 1);
    assert(strip_trailing_crlf(simple_body_canon(x)) == y);
    assert(ends_with_crlf(y + crlf()));
    assert((y + crlf()).take((y + crlf()).len() - 2) =~= y);
    assert(Seq::<u8>::empty() + crlf() =~= crlf());
}

/// Streaming simple body canonicalization: bytes pass through unchanged,
/// except that trailing CRLFs — and a trailing CR that may yet become part
/// of one — are withheld until either more data follows or the stream is
/// flushed, which terminates the output with a single CRLF.
pub struct SimpleBodyCanonicalizer {
    pending_newlines: usize,
    held_cr: bool,
    fed: Ghost<Seq<u8>>,
    out: Ghost<Seq<u8>>,
}

impl SimpleBodyCanonicalizer {
    /// All bytes fed so far.
    pub closed spec fn fed(&self) -> Seq<u8> {
        self.fed@
    }

    /// All bytes emitted so far.
    pub closed spec fn out(&self) -> Seq<u8> {
        self.out@
    }

    /// The bytes withheld from the output so far: the run of trailing CRLFs
    /// and, after them, a bare CR that may yet pair with a later LF.
    pub closed spec fn held(&self) -> Seq<u8> {
        crlf_repeat(self.pending_newlines as nat) + if self.held_cr {
            seq![13u8]
        } else {
            Seq::<u8>::empty()
        }
    }

    /// The emitted bytes plus the withheld bytes are the fed bytes, the
    /// emitted bytes never end in CRLF, and while nothing is withheld they
    /// do not end in a bare CR either.
    pub closed spec fn wf(&self) -> bool {
        &&& self.out@ + self.held() == self.fed@
        &&& !ends_with_crlf(self.out@)
        &&& (!self.held_cr && self.pending_newlines == 0 && self.out@.len() > 0 ==> self.out@.last()
            != 13u8)
    }

    pub fn new() -> (c: SimpleBodyCanonicalizer)
        ensures
            c.wf(),
            c.fed() == Seq::<u8>::empty(),
            c.out() == Seq::<u8>::empty(),
    {
        let c = SimpleBodyCanonicalizer {
            pending_newlines: 0,
            held_cr: false,
            fed: Ghost(Seq::empty()),
            out: Ghost(Seq::empty()),
        };
        proof {
            assert(c.out@ + c.held() =~= c.out@);
        }
        c
    }

    #[verifier::spinoff_prover]
    #[verifier::rlimit(100)]
    pub fn canonicalize(&mut self, input: &Vec<u8>) -> (result: Vec<u8>)
        ensures
            final(self).fed() == old(self).fed() + input@,
            final(self).out() == old(self).out() + result@,
            old(self).wf() ==> final(self).wf(),
            old(self).wf() ==> !ends_with_crlf(old(self).out() + result@),
            old(self).wf() ==> (old(self).out() + result@) + final(self).held() == old(
                self,
            ).fed() + input@,
    {
        let ghost fed0 = self.fed@;
        let ghost out0 = self.out@;
        let ghost held0 = self.held();

        // The working buffer: everything withheld, then the new input.
        let mut buffer: Vec<u8> = Vec::new();
        let mut i: usize = 0;
        while i < self.pending_newlines
            invariant
                i <= self.pending_newlines,
                buffer@ == crlf_repeat(i as nat),
                self == old(self),
            decreases self.pending_newlines - i,
        {
            buffer.push(13);
            buffer.push(10);
            proof {
                lemma_crlf_repeat_unfold((i + 1) as nat);
                assert(buffer@ =~= crlf_repeat(i as nat) + crlf());
            }
            i = i + 1;
        }
        if self.held_cr {
            buffer.push(13);
        }
        proof {
            assert(buffer@ =~= held0);
        }
        let mut j: usize = 0;
        while j < input.len()
            invariant
                j <= input.len(),
                buffer@ == held0 + input@.take(j as int),
            decreases input.len() - j,
        {
            buffer.push(input[j]);
            proof {
                assert(buffer@ =~= held0 + input@.take(j + 1 as int));
            }
            j = j + 1;
        }
        proof {
            assert(buffer@ =~= held0 + input@);
        }
        self.pending_newlines = 0;
        self.held_cr = false;

        let ghost base = buffer@;
        if buffer.len() >= 1 && buffer[buffer.len() - 1] == 13 {
            buffer.pop();
            self.held_cr = true;
            proof {
                assert(buffer@ + seq![13u8] =~= base);
            }
        }
        let ghost cr_part: Seq<u8> = if self.held_cr {
            seq![13u8]
        } else {
            Seq::<u8>::empty()
        };
        let ghost mid = buffer@;
        let start_len: usize = buffer.len();
        while buffer.len() >= 2 && buffer[buffer.len() - 1] == 10 && buffer[buffer.len() - 2]
            == 13
            invariant
                self.pending_newlines * 2 <= start_len - buffer@.len(),
                buffer@.len() <= start_len,
                buffer@ + crlf_repeat(self.pending_newlines as nat) == mid,
                self.held_cr == (cr_part.len() > 0),
            decreases buffer@.len(),
        {
            let ghost before = buffer@;
            let ghost pend = self.pending_newlines as nat;
            buffer.pop();
            buffer.pop();
            self.pending_newlines = self.pending_newlines + 1;
            proof {
                assert(buffer@ =~= before.take(before.len() - 2));
                assert(buffer@ + crlf() =~= before);
                lemma_crlf_swap_repeat(pend);
                assert(buffer@ + (crlf() + crlf_repeat(pend)) =~= (buffer@ + crlf())
                    + crlf_repeat(pend));
                lemma_crlf_repeat_unfold((pend + 1) as nat);
                assert(crlf_repeat(pend + 1) == crlf_repeat(pend) + crlf());
                assert(buffer@ + crlf_repeat((pend + 1) as nat) =~= (buffer@ + crlf())
                    + crlf_repeat(pend));
            }
        }

        proof {
            self.fed@ = fed0 + input@;
            self.out@ = out0 + buffer@;
            assert(base =~= held0 + input@);
            // Reassemble the decomposition.
            assert(buffer@ + crlf_repeat(self.pending_newlines as nat) == mid);
            assert(mid + cr_part =~= base);
            assert((out0 + buffer@) + self.held() =~= out0 + (buffer@ + (crlf_repeat(
                self.pending_newlines as nat,
            ) + cr_part)));
            assert(buffer@ + (crlf_repeat(self.pending_newlines as nat) + cr_part) =~= (buffer@
                + crlf_repeat(self.pending_newlines as nat)) + cr_part);
            assert((out0 + buffer@) + self.held() =~= out0 + (mid + cr_part));
            assert(out0 + (mid + cr_part) =~= out0 + base);
            assert(out0 + (held0 + input@) =~= (out0 + held0) + input@);
            if old(self).wf() {
                assert((out0 + buffer@) + self.held() == fed0 + input@);
                // The emitted bytes do not end in CRLF, and end in CR only
                // while a CR (or more) is withheld.
                if buffer@.len() == 0 {
                    assert(out0 + buffer@ =~= out0);
                    if !self.held_cr && self.pending_newlines == 0 {
                        // Nothing was withheld from an empty buffer, so the
                        // old state withheld nothing and the input was empty.
                        assert(base.len() == 0);
                        assert(held0.len() == 0);
                        lemma_crlf_repeat_len(old(self).pending_newlines as nat);
                        assert(old(self).pending_newlines == 0 && !old(self).held_cr);
                    }
                } else {
                    let c = out0 + buffer@;
                    assert(c.last() == buffer@.last());
                    // After the pops the buffer does not end in CRLF; if it
                    // ends in CR then the CR pop above fired, so held_cr.
                    if self.held_cr || self.pending_newlines > 0 {
                        if buffer@.len() >= 2 {
                            assert(c[c.len() - 2] == buffer@[buffer@.len() - 2]);
                        } else {
                            // A one-byte buffer ending the output: the byte
                            // is not LF, or the old output did not end in CR.
                            if buffer@.last() == 10u8 {
                                assert(base[0] == buffer@[0]);
                                if held0.len() > 0 {
                                    assert(base[0] == held0[0]);
                                    lemma_crlf_repeat_first(old(self).pending_newlines as nat);
                                    assert(held0[0] == 13u8);
                                } else {
                                    assert(old(self).pending_newlines == 0 && !old(
                                        self,
                                    ).held_cr);
                                    assert(out0.len() == 0 || out0.last() != 13u8);
                                }
                            }
                        }
                    } else {
                        // Nothing withheld: the buffer was not popped at all,
                        // so it ends in neither CR nor LF-after-CR.
                        assert(buffer@ == mid && mid == base);
                        assert(buffer@.last() != 13u8);
                        if buffer@.len() >= 2 {
                            assert(c[c.len() - 2] == buffer@[buffer@.len() - 2]);
                        } else {
                            if buffer@.last() == 10u8 {
                                assert(base[0] == buffer@[0]);
                                if held0.len() > 0 {
                                    assert(base[0] == held0[0]);
                                    lemma_crlf_repeat_first(old(self).pending_newlines as nat);
                                    assert(held0[0] == 13u8);
                                } else {
                                    assert(out0.len() == 0 || out0.last() != 13u8);
                                }
                            }
                        }
                    }
                }
            }
        }
        buffer
    }

    /// End of the body: withheld trailing blank lines are dropped — unless a
    /// withheld bare CR keeps them from being trailing — and the output is
    /// closed with the one terminal CRLF.
    pub fn flush(&mut self) -> (result: Vec<u8>)
        ensures
            old(self).wf() ==> old(self).out() + result@ == simple_body_canon(old(self).fed()),
            final(self).wf(),
            final(self).fed() == Seq::<u8>::empty(),
            final(self).out() == Seq::<u8>::empty(),
    {
        let mut result: Vec<u8> = Vec::new();
        if self.held_cr {
            // The withheld CRLFs are not trailing: a bare CR follows them.
            let mut i: usize = 0;
            while i < self.pending_newlines
                invariant
                    i <= self.pending_newlines,
                    result@ == crlf_repeat(i as nat),
                    self == old(self),
                decreases self.pending_newlines - i,
            {
                result.push(13);
                result.push(10);
                proof {
                    lemma_crlf_repeat_unfold((i + 1) as nat);
                    assert(result@ =~= crlf_repeat(i as nat) + crlf());
                }
                i = i + 1;
            }
            result.push(13);
            result.push(13);
            result.push(10);
            proof {
                lemma_crlf_repeat_len(self.pending_newlines as nat);
                if old(self).wf() {
                    let fed = self.fed@;
                    assert(fed =~= self.out@ + (crlf_repeat(self.pending_newlines as nat)
                        + seq![13u8]));
                    assert(fed.last() == 13u8);
                    assert(!ends_with_crlf(fed));
                    assert(strip_trailing_crlf(fed) == fed);
                    assert(result@ =~= (crlf_repeat(self.pending_newlines as nat) + seq![13u8])
                        + crlf());
                    assert(self.out@ + result@ =~= (self.out@ + (crlf_repeat(
                        self.pending_newlines as nat,
                    ) + seq![13u8])) + crlf());
                }
            }
        } else {
            result.push(13);
            result.push(10);
            proof {
                if old(self).wf() {
                    lemma_strip_append_crlfs(self.out@, self.pending_newlines as nat);
                    lemma_strip_fixpoint_id(self.out@);
                    assert(self.fed@ =~= self.out@ + crlf_repeat(self.pending_newlines as nat));
                    assert(result@ =~= crlf());
                }
            }
        }
        self.pending_newlines = 0;
        self.held_cr = false;
        proof {
            self.fed@ = Seq::empty();
            self.out@ = Seq::empty();
            assert(self.out@ + self.held() =~= self.out@);
        }
        result
    }
}

/// A CRLF followed by `n` CRLFs is `n` CRLFs followed by a CRLF.
proof fn lemma_crlf_swap_repeat(n: nat)
    ensures
        crlf() + crlf_repeat(n) == crlf_repeat(n) + crlf(),
    decreases n,
{
    if n == 0 {
        assert(crlf() + crlf_repeat(0) =~= crlf());
        assert(crlf_repeat(0) + crlf() =~= crlf());
    } else {
        lemma_crlf_repeat_unfold(n);
        lemma_crlf_swap_repeat((n - 1) as nat);
        assert(crlf() + crlf_repeat(n) =~= (crlf() + crlf_repeat((n - 1) as nat)) + crlf());
        assert(crlf_repeat(n) + crlf() =~= (crlf_repeat((n - 1) as nat) + crlf()) + crlf());
    }
}

/// The whitespace bytes that relaxed body canonicalization collapses,
/// besides the line-ending bytes CR and LF that it handles on their own.
pub open spec fn is_relaxed_space(b: u8) -> bool {
    b == 9 || b == 11 || b == 12 || b == 32 || b == 133 || b == 160
}

/// The state of relaxed body canonicalization between two bytes: how many
/// line endings are withheld, and whether the last significant byte was
/// whitespace.
pub struct RelaxState {
    pub pending: nat,
    pub ws: bool,
}

pub open spec fn relax_init() -> RelaxState {
    RelaxState { pending: 0, ws: false }
}

/// State transition of relaxed body canonicalization for one byte.
pub open spec fn relax_step_state(st: RelaxState, b: u8) -> RelaxState {
    if b == 13 {
        st
    } else if b == 10 {
        RelaxState { pending: st.pending + 1, ws: false }
    } else if st.ws {
        if !is_relaxed_space(b) {
            RelaxState { pending: 0, ws: false }
        } else {
            RelaxState { pending: 0, ws: true }
        }
    } else {
        RelaxState { pending: 0, ws: is_relaxed_space(b) }
    }
}

/// Bytes emitted by relaxed body canonicalization for one byte: a CR is
/// dropped, an LF is withheld, whitespace runs collapse to one SP that is
/// emitted together with the next non-whitespace byte.
pub open spec fn relax_step_emit(st: RelaxState, b: u8) -> Seq<u8> {
    if b == 13 {
        Seq::empty()
    } else if b == 10 {
        Seq::empty()
    } else if st.ws {
        if !is_relaxed_space(b) {
            crlf_repeat(st.pending) + seq![32u8, b]
        } else {
            crlf_repeat(st.pending)
        }
    } else {
        crlf_repeat(st.pending) + if is_relaxed_space(b) {
            Seq::<u8>::empty()
        } else {
            seq![b]
        }
    }
}

/// The state after running relaxed canonicalization over `input`.
pub open spec fn relax_fold_state(st: RelaxState, input: Seq<u8>) -> RelaxState
    decreases input.len(),
{
    if input.len() == 0 {
        st
    } else {
        relax_step_state(relax_fold_state(st, input.drop_last()), input.last())
    }
}

/// Everything emitted while running relaxed canonicalization over `input`.
pub open spec fn relax_fold_emit(st: RelaxState, input: Seq<u8>) -> Seq<u8>
    decreases input.len(),
{
    if input.len() == 0 {
        Seq::empty()
    } else {
        relax_fold_emit(st, input.drop_last()) + relax_step_emit(
            relax_fold_state(st, input.drop_last()),
            input.last(),
        )
    }
}

/// Relaxed body canonicalization of a complete body: internal whitespace
/// runs collapse to a single SP, trailing whitespace and trailing blank
/// lines go, and exactly one CRLF terminates the result.
pub open spec fn relaxed_body_canon(input: Seq<u8>) -> Seq<u8> {
    relax_fold_emit(relax_init(), input) + crlf()
}

/// Streaming relaxed body canonicalization.  The withheld line endings are
/// kept as literal bytes; the ghost fields record the fed and emitted
/// streams, tied to the fold model by `wf`.
pub struct RelaxedBodyCanonicalizer {
    pending: Vec<u8>,
    ws: bool,
    fed: Ghost<Seq<u8>>,
    out: Ghost<Seq<u8>>,
}

impl RelaxedBodyCanonicalizer {
    /// All bytes fed so far.
    pub closed spec fn fed(&self) -> Seq<u8> {
        self.fed@
    }

    /// All bytes emitted so far.
    pub closed spec fn out(&self) -> Seq<u8> {
        self.out@
    }

    /// The model state this canonicalizer is in.
    pub closed spec fn st(&self) -> RelaxState {
        RelaxState { pending: (self.pending@.len() / 2) as nat, ws: self.ws }
    }

    /// The withheld bytes are a run of CRLFs, and state and output agree
    /// with the fold model run over everything fed.
    pub closed spec fn wf(&self) -> bool {
        &&& self.pending@ == crlf_repeat((self.pending@.len() / 2) as nat)
        &&& relax_fold_state(relax_init(), self.fed@) == self.st()
        &&& relax_fold_emit(relax_init(), self.fed@) == self.out@
    }

    pub fn new() -> (c: RelaxedBodyCanonicalizer)
        ensures
            c.wf(),
            c.fed() == Seq::<u8>::empty(),
            c.out() == Seq::<u8>::empty(),
    {
        let c = RelaxedBodyCanonicalizer {
            pending: Vec::new(),
            ws: false,
            fed: Ghost(Seq::empty()),
            out: Ghost(Seq::empty()),
        };
        proof {
            assert(c.pending@ =~= crlf_repeat(0));
        }
        c
    }

    /// Append the withheld line endings to `output` and forget them.
    fn flush_newlines(&mut self, output: &mut Vec<u8>)
        ensures
            final(self).pending@.len() == 0,
            final(self).ws == old(self).ws,
            final(self).fed@ == old(self).fed@,
            final(self).out@ == old(self).out@,
            final(output)@ == old(output)@ + old(self).pending@,
    {
        let mut drained: Vec<u8> = Vec::new();
        core::mem::swap(&mut drained, &mut self.pending);
        output.append(&mut drained);
    }

    #[verifier::rlimit(60)]
    pub fn canonicalize(&mut self, input: &Vec<u8>) -> (result: Vec<u8>)
        ensures
            final(self).fed() == old(self).fed() + input@,
            final(self).out() == old(self).out() + result@,
            old(self).wf() ==> final(self).wf(),
    {
        let ghost fed0 = self.fed@;
        let ghost out0 = self.out@;
        let mut output: Vec<u8> = Vec::new();
        let mut j: usize = 0;
        while j < input.len()
            invariant
                j <= input.len(),
                self.fed@ == fed0,
                self.out@ == out0,
                old(self).wf() ==> {
                    &&& self.pending@ == crlf_repeat((self.pending@.len() / 2) as nat)
                    &&& relax_fold_state(relax_init(), fed0 + input@.take(j as int)) == self.st()
                    &&& relax_fold_emit(relax_init(), fed0 + input@.take(j as int)) == out0
                        + output@
                },
            decreases input.len() - j,
        {
            let ghost cur = fed0 + input@.take(j as int);
            let ghost st_pre = self.st();
            let ghost out_pre = output@;
            let b = input[j];
            if b == 13 {
                // carriage returns vanish
            } else if b == 10 {
                self.pending.push(13);
                self.pending.push(10);
                self.ws = false;
                proof {
                    if old(self).wf() {
                        let n = (st_pre.pending + 1) as nat;
                        lemma_crlf_repeat_unfold(n);
                        lemma_crlf_repeat_len(n);
                        assert(self.pending@ =~= crlf_repeat((n - 1) as nat) + crlf());
                    }
                }
            } else if self.ws {
                self.flush_newlines(&mut output);
                if !is_relaxed_space_exec(b) {
                    output.push(32);
                    output.push(b);
                    self.ws = false;
                }
                proof {
                    if old(self).wf() {
                        if !is_relaxed_space(b) {
                            assert(output@ =~= (out_pre + crlf_repeat(st_pre.pending)) + seq![
                                32u8,
                                b,
                            ]);
                        }
                    }
                    assert(self.pending@ =~= crlf_repeat(0));
                }
            } else {
                self.flush_newlines(&mut output);
                self.ws = is_relaxed_space_exec(b);
                if !self.ws {
                    output.push(b);
                }
                proof {
                    if old(self).wf() {
                        if !is_relaxed_space(b) {
                            assert(output@ =~= (out_pre + crlf_repeat(st_pre.pending)) + seq![b]);
                        }
                    }
                    assert(self.pending@ =~= crlf_repeat(0));
                }
            }
            proof {
                if old(self).wf() {
                    assert(cur.push(b).drop_last() =~= cur);
                    assert(relax_fold_state(relax_init(), cur.push(b)) == relax_step_state(
                        st_pre,
                        b,
                    ));
                    assert(relax_fold_emit(relax_init(), cur.push(b)) == (out0 + out_pre)
                        + relax_step_emit(st_pre, b));
                    assert(out0 + out_pre + relax_step_emit(st_pre, b) =~= out0 + (out_pre
                        + relax_step_emit(st_pre, b)));
                    if b != 13 && b != 10 && !(st_pre.ws && is_relaxed_space(b)) {
                        if !st_pre.ws && is_relaxed_space(b) {
                            assert(output@ =~= out_pre + (crlf_repeat(st_pre.pending)
                                + Seq::<u8>::empty()));
                        }
                    }
                    assert(cur.push(b) =~= fed0 + input@.take(j + 1 as int));
                }
            }
            j = j + 1;
        }
        proof {
            self.fed@ = fed0 + input@;
            self.out@ = out0 + output@;
            if old(self).wf() {
                assert(fed0 + input@.take(input@.len() as int) =~= fed0 + input@);
            }
        }
        output
    }

    /// End of the body: the withheld blank lines are dropped and the output
    /// is closed with the one terminal CRLF.
    pub fn flush(&mut self) -> (result: Vec<u8>)
        ensures
            result@ == crlf(),
            old(self).wf() ==> old(self).out() + result@ == relaxed_body_canon(old(self).fed()),
            final(self).wf(),
            final(self).fed() == Seq::<u8>::empty(),
            final(self).out() == Seq::<u8>::empty(),
    {
        self.pending.clear();
        self.ws = false;
        proof {
            self.fed@ = Seq::empty();
            self.out@ = Seq::empty();
            assert(self.pending@ =~= crlf_repeat(0));
        }
        let mut result: Vec<u8> = Vec::new();
        result.push(13);
        result.push(10);
        proof {
            assert(result@ =~= crlf());
        }
        result
    }
}

/// The whitespace bytes that relaxed header canonicalization collapses;
/// unlike in a body, the line-ending bytes take no special path here.
pub open spec fn is_header_ws(b: u8) -> bool {
    b == 9 || b == 10 || b == 11 || b == 12 || b == 13 || b == 32 || b == 133 || b == 160
}

/// ASCII lowercasing of one byte.
pub open spec fn ascii_lower_byte(b: u8) -> u8 {
    if 65 <= b && b <= 90 {
        (b + 32) as u8
    } else {
        b
    }
}

/// ASCII lowercasing of a byte sequence.
pub open spec fn ascii_lower(s: Seq<u8>) -> Seq<u8> {
    s.map_values(|b: u8| ascii_lower_byte(b))
}

/// What one byte contributes to a collapsed header value: whitespace is
/// withheld; a visible byte comes out alone, or after one SP when
/// whitespace stood between it and an earlier visible byte.
pub open spec fn collapse_step(started: bool, pending: bool, b: u8) -> Seq<u8> {
    if is_header_ws(b) {
        Seq::empty()
    } else if started && pending {
        seq![32u8, b]
    } else {
        seq![b]
    }
}

/// Has a visible byte been seen yet?
pub open spec fn collapse_started(started: bool, s: Seq<u8>) -> bool
    decreases s.len(),
{
    if s.len() == 0 {
        started
    } else {
        collapse_started(started, s.drop_last()) || !is_header_ws(s.last())
    }
}

/// Was the byte before position `s.len()` whitespace?
pub open spec fn collapse_pending(pending: bool, s: Seq<u8>) -> bool {
    if s.len() == 0 {
        pending
    } else {
        is_header_ws(s.last())
    }
}

pub open spec fn collapse_fold(started: bool, pending: bool, s: Seq<u8>) -> Seq<u8>
    decreases s.len(),
{
    if s.len() == 0 {
        Seq::empty()
    } else {
        collapse_fold(started, pending, s.drop_last()) + collapse_step(
            collapse_started(started, s.drop_last()),
            collapse_pending(pending, s.drop_last()),
            s.last(),
        )
    }
}

/// Each maximal whitespace run inside `s` becomes a single SP, and
/// leading and trailing whitespace goes away.
pub open spec fn collapse_header_ws(s: Seq<u8>) -> Seq<u8> {
    collapse_fold(false, false, s)
}

/// Relaxed header canonicalization: lowercased name, a bare colon, the
/// whitespace-collapsed and trimmed value, a terminal CRLF.
pub open spec fn relaxed_header_canon(name: Seq<u8>, value: Seq<u8>) -> Seq<u8> {
    ascii_lower(name) + seq![58u8] + collapse_header_ws(value) + crlf()
}

/// In a collapsed header value the only whitespace byte is SP, no two
/// whitespace bytes are adjacent, and neither end is whitespace.
pub proof fn lemma_collapse_shape(s: Seq<u8>)
    ensures
        forall|i: int|
            0 <= i < collapse_header_ws(s).len() && is_header_ws(
                #[trigger] collapse_header_ws(s)[i],
            ) ==> collapse_header_ws(s)[i] == 32u8,
        forall|i: int|
            0 <= i < collapse_header_ws(s).len() - 1 && #[trigger] collapse_header_ws(s)[i]
                == 32u8 ==> !is_header_ws(collapse_header_ws(s)[i + 1]),
        collapse_header_ws(s).len() > 0 ==> !is_header_ws(collapse_header_ws(s).last()),
        collapse_header_ws(s).len() > 0 ==> !is_header_ws(collapse_header_ws(s)[0]),
        collapse_started(false, s) <==> collapse_header_ws(s).len() > 0,
    decreases s.len(),
{
    if s.len() > 0 {
        lemma_collapse_shape(s.drop_last());
        let prev = collapse_header_ws(s.drop_last());
        let step = collapse_step(
            collapse_started(false, s.drop_last()),
            collapse_pending(false, s.drop_last()),
            s.last(),
        );
        let cur = collapse_header_ws(s);
        assert(cur == prev + step);
        assert(forall|i: int| 0 <= i < prev.len() ==> cur[i] == prev[i]);
        if step.len() > 0 {
            assert(!is_header_ws(step.last()));
            assert(cur.last() == step.last());
            if step.len() == 2 {
                // A withheld SP comes out only after a visible byte.
                assert(collapse_started(false, s.drop_last()));
                assert(prev.len() > 0);
            }
        }
    }
}

/// The shape that relaxed header canonicalization guarantees: the name
/// part carries no upper-case ASCII letter, the value part has no two
/// adjacent whitespace bytes, no whitespace byte besides SP and no
/// whitespace at either end, and the whole ends in CRLF right after the
/// value.
pub proof fn lemma_relaxed_header_shape(name: Seq<u8>, value: Seq<u8>)
    ensures
        forall|i: int|
            0 <= i < ascii_lower(name).len() ==> !(65 <= #[trigger] ascii_lower(name)[i]
                && ascii_lower(name)[i] <= 90),
        forall|i: int|
            0 <= i < collapse_header_ws(value).len() - 1 ==> !(is_header_ws(
                #[trigger] collapse_header_ws(value)[i],
            ) && is_header_ws(collapse_header_ws(value)[i + 1])),
        forall|i: int|
            0 <= i < collapse_header_ws(value).len() && is_header_ws(
                #[trigger] collapse_header_ws(value)[i],
            ) ==> collapse_header_ws(value)[i] == 32u8,
        collapse_header_ws(value).len() > 0 ==> !is_header_ws(collapse_header_ws(value)[0]),
        collapse_header_ws(value).len() > 0 ==> !is_header_ws(
            collapse_header_ws(value).last(),
        ),
        relaxed_header_canon(name, value) == ascii_lower(name) + seq![58u8] + collapse_header_ws(
            value,
        ) + crlf(),
        ends_with_crlf(relaxed_header_canon(name, value)),
{
    lemma_collapse_shape(value);
    let c = relaxed_header_canon(name, value);
    assert(c.len() >= 2);
    assert(c[c.len() - 2] == 13u8 && c[c.len() - 1] == 10u8);
}

/// Simple header canonicalization: the raw wire bytes, untouched.
pub struct SimpleHeaderCanonicalizer;

impl SimpleHeaderCanonicalizer {
    pub fn new() -> SimpleHeaderCanonicalizer {
        SimpleHeaderCanonicalizer
    }

    pub fn canonicalize(&mut self, name: String, value: String, raw: Vec<u8>) -> (result: Vec<
        u8,
    >)
        ensures
            result@ == raw@,
    {
        raw
    }
}

/// Relaxed header canonicalization over the logical name and value.
pub struct RelaxedHeaderCanonicalizer;

impl RelaxedHeaderCanonicalizer {
    pub fn new() -> RelaxedHeaderCanonicalizer {
        RelaxedHeaderCanonicalizer
    }

    pub fn canonicalize(&mut self, name: String, value: String, raw: Vec<u8>) -> (result: Vec<
        u8,
    >)
        ensures
            result@ == relaxed_header_canon(
                vstd::utf8::encode_utf8(name@),
                vstd::utf8::encode_utf8(value@),
            ),
    {
        let name_bytes = name.as_str().as_bytes_vec();
        let value_bytes = value.as_str().as_bytes_vec();
        let mut result: Vec<u8> = Vec::new();
        let mut i: usize = 0;
        while i < name_bytes.len()
            invariant
                i <= name_bytes.len(),
                result@ == ascii_lower(name_bytes@.take(i as int)),
            decreases name_bytes.len() - i,
        {
            let b = name_bytes[i];
            if 65 <= b && b <= 90 {
                result.push(b + 32);
            } else {
                result.push(b);
            }
            proof {
                assert(result@ =~= ascii_lower(name_bytes@.take(i + 1 as int)));
            }
            i = i + 1;
        }
        proof {
            assert(name_bytes@.take(name_bytes@.len() as int) =~= name_bytes@);
        }
        result.push(58);
        let ghost head = result@;
        proof {
            assert(head =~= ascii_lower(name_bytes@) + seq![58u8]);
        }

        let mut started: bool = false;
        let mut pending: bool = false;
        let mut j: usize = 0;
        while j < value_bytes.len()
            invariant
                j <= value_bytes.len(),
                result@ == head + collapse_fold(false, false, value_bytes@.take(j as int)),
                started == collapse_started(false, value_bytes@.take(j as int)),
                pending == collapse_pending(false, value_bytes@.take(j as int)),
            decreases value_bytes.len() - j,
        {
            let b = value_bytes[j];
            let ghost pre = value_bytes@.take(j as int);
            if is_header_ws_exec(b) {
                pending = true;
            } else {
                if started && pending {
                    result.push(32);
                }
                result.push(b);
                started = true;
                pending = false;
            }
            proof {
                assert(pre.push(b) =~= value_bytes@.take(j + 1 as int));
                assert(pre.push(b).drop_last() =~= pre);
                assert(result@ =~= head + (collapse_fold(false, false, pre) + collapse_step(
                    collapse_started(false, pre),
                    collapse_pending(false, pre),
                    b,
                )));
            }
            j = j + 1;
        }
        proof {
            assert(value_bytes@.take(value_bytes@.len() as int) =~= value_bytes@);
        }
        result.push(13);
        result.push(10);
        proof {
            assert(result@ =~= (ascii_lower(name_bytes@) + seq![58u8] + collapse_header_ws(
                value_bytes@,
            )) + crlf());
            assert(result@ =~= relaxed_header_canon(name_bytes@, value_bytes@));
        }
        result
    }
}

/// Executable test for `is_header_ws`.
fn is_header_ws_exec(b: u8) -> (r: bool)
    ensures
        r == is_header_ws(b),
{
    b == 9 || b == 10 || b == 11 || b == 12 || b == 13 || b == 32 || b == 133 || b == 160
}

/// A streaming body canonicalizer of either kind.
pub enum AnyBodyCanonicalizer {
    Simple(SimpleBodyCanonicalizer),
    Relaxed(RelaxedBodyCanonicalizer),
}

/// Body canonicalization of a complete body, by kind.
pub open spec fn body_canon_of(t: CanonicalizationType, input: Seq<u8>) -> Seq<u8> {
    match t {
        CanonicalizationType::Simple => simple_body_canon(input),
        CanonicalizationType::Relaxed => relaxed_body_canon(input),
    }
}

impl AnyBodyCanonicalizer {
    pub closed spec fn kind(&self) -> CanonicalizationType {
        match self {
            AnyBodyCanonicalizer::Simple(_) => CanonicalizationType::Simple,
            AnyBodyCanonicalizer::Relaxed(_) => CanonicalizationType::Relaxed,
        }
    }

    pub closed spec fn fed(&self) -> Seq<u8> {
        match self {
            AnyBodyCanonicalizer::Simple(c) => c.fed(),
            AnyBodyCanonicalizer::Relaxed(c) => c.fed(),
        }
    }

    pub closed spec fn out(&self) -> Seq<u8> {
        match self {
            AnyBodyCanonicalizer::Simple(c) => c.out(),
            AnyBodyCanonicalizer::Relaxed(c) => c.out(),
        }
    }

    pub closed spec fn wf(&self) -> bool {
        match self {
            AnyBodyCanonicalizer::Simple(c) => c.wf(),
            AnyBodyCanonicalizer::Relaxed(c) => c.wf(),
        }
    }

    pub fn canonicalize(&mut self, input: &Vec<u8>) -> (result: Vec<u8>)
        ensures
            final(self).kind() == old(self).kind(),
            final(self).fed() == old(self).fed() + input@,
            final(self).out() == old(self).out() + result@,
            old(self).wf() ==> final(self).wf(),
    {
        match self {
            AnyBodyCanonicalizer::Simple(c) => c.canonicalize(input),
            AnyBodyCanonicalizer::Relaxed(c) => c.canonicalize(input),
        }
    }

    /// End of the body: the total emitted stream is the canonicalization of
    /// the total fed stream.
    pub fn flush(&mut self) -> (result: Vec<u8>)
        ensures
            old(self).wf() ==> old(self).out() + result@ == body_canon_of(
                old(self).kind(),
                old(self).fed(),
            ),
            final(self).kind() == old(self).kind(),
            final(self).wf(),
            final(self).fed() == Seq::<u8>::empty(),
            final(self).out() == Seq::<u8>::empty(),
    {
        match self {
            AnyBodyCanonicalizer::Simple(c) => c.flush(),
            AnyBodyCanonicalizer::Relaxed(c) => c.flush(),
        }
    }
}

/// A header canonicalizer of either kind.
pub enum AnyHeaderCanonicalizer {
    Simple(SimpleHeaderCanonicalizer),
    Relaxed(RelaxedHeaderCanonicalizer),
}

/// Header canonicalization of one logical header, by kind.
pub open spec fn header_canon_of(
    t: CanonicalizationType,
    name: Seq<char>,
    value: Seq<char>,
    raw: Seq<u8>,
) -> Seq<u8> {
    match t {
        CanonicalizationType::Simple => raw,
        CanonicalizationType::Relaxed => relaxed_header_canon(
            vstd::utf8::encode_utf8(name),
            vstd::utf8::encode_utf8(value),
        ),
    }
}

impl AnyHeaderCanonicalizer {
    pub closed spec fn kind(&self) -> CanonicalizationType {
        match self {
            AnyHeaderCanonicalizer::Simple(_) => CanonicalizationType::Simple,
            AnyHeaderCanonicalizer::Relaxed(_) => CanonicalizationType::Relaxed,
        }
    }

    pub fn canonicalize(&mut self, name: String, value: String, raw: Vec<u8>) -> (result: Vec<
        u8,
    >)
        ensures
            final(self).kind() == old(self).kind(),
            result@ == header_canon_of(old(self).kind(), name@, value@, raw@),
    {
        match self {
            AnyHeaderCanonicalizer::Simple(c) => c.canonicalize(name, value, raw),
            AnyHeaderCanonicalizer::Relaxed(c) => c.canonicalize(name, value, raw),
        }
    }
}

/// Chooses a canonicalizer for each stream of a DKIM signature.
pub struct Canonicalizer;

impl Canonicalizer {
    pub fn body(canon_type: CanonicalizationType) -> (c: AnyBodyCanonicalizer)
        ensures
            c.kind() == canon_type,
            c.wf(),
            c.fed() == Seq::<u8>::empty(),
            c.out() == Seq::<u8>::empty(),
    {
        match canon_type {
            CanonicalizationType::Simple => AnyBodyCanonicalizer::Simple(
                SimpleBodyCanonicalizer::new(),
            ),
            CanonicalizationType::Relaxed => AnyBodyCanonicalizer::Relaxed(
                RelaxedBodyCanonicalizer::new(),
            ),
        }
    }

    pub fn head(canon_type: CanonicalizationType) -> (c: AnyHeaderCanonicalizer)
        ensures
            c.kind() == canon_type,
    {
        match canon_type {
            CanonicalizationType::Simple => AnyHeaderCanonicalizer::Simple(
                SimpleHeaderCanonicalizer::new(),
            ),
            CanonicalizationType::Relaxed => AnyHeaderCanonicalizer::Relaxed(
                RelaxedHeaderCanonicalizer::new(),
            ),
        }
    }
}

/// A streaming transform from body bytes to canonicalized body bytes.
pub trait BodyCanonicalizer {
    fn canonicalize(&mut self, input: &Vec<u8>) -> Vec<u8>;

    fn flush(&mut self) -> Vec<u8>;
}

/// A transform from one assembled header to its canonicalized bytes.
pub trait HeaderCanonicalizer {
    fn canonicalize(&mut self, name: String, value: String, raw: Vec<u8>) -> Vec<u8>;
}

impl BodyCanonicalizer for AnyBodyCanonicalizer {
    fn canonicalize(&mut self, input: &Vec<u8>) -> Vec<u8> {
        AnyBodyCanonicalizer::canonicalize(self, input)
    }

    fn flush(&mut self) -> Vec<u8> {
        AnyBodyCanonicalizer::flush(self)
    }
}

impl HeaderCanonicalizer for AnyHeaderCanonicalizer {
    fn canonicalize(&mut self, name: String, value: String, raw: Vec<u8>) -> Vec<u8> {
        AnyHeaderCanonicalizer::canonicalize(self, name, value, raw)
    }
}

impl BodyCanonicalizer for SimpleBodyCanonicalizer {
    fn canonicalize(&mut self, input: &Vec<u8>) -> Vec<u8> {
        SimpleBodyCanonicalizer::canonicalize(self, input)
    }

    fn flush(&mut self) -> Vec<u8> {
        SimpleBodyCanonicalizer::flush(self)
    }
}

impl BodyCanonicalizer for RelaxedBodyCanonicalizer {
    fn canonicalize(&mut self, input: &Vec<u8>) -> Vec<u8> {
        RelaxedBodyCanonicalizer::canonicalize(self, input)
    }

    fn flush(&mut self) -> Vec<u8> {
        RelaxedBodyCanonicalizer::flush(self)
    }
}

impl HeaderCanonicalizer for SimpleHeaderCanonicalizer {
    fn canonicalize(&mut self, name: String, value: String, raw: Vec<u8>) -> Vec<u8> {
        SimpleHeaderCanonicalizer::canonicalize(self, name, value, raw)
    }
}

impl HeaderCanonicalizer for RelaxedHeaderCanonicalizer {
    fn canonicalize(&mut self, name: String, value: String, raw: Vec<u8>) -> Vec<u8> {
        RelaxedHeaderCanonicalizer::canonicalize(self, name, value, raw)
    }
}

pub proof fn lemma_crlf_repeat_add(a: nat, b: nat)
    ensures
        crlf_repeat(a + b) == crlf_repeat(a) + crlf_repeat(b),
    decreases b,
{
    if b == 0 {
        assert(crlf_repeat(a) + crlf_repeat(0) =~= crlf_repeat(a));
    } else {
        lemma_crlf_repeat_add(a, (b - 1) as nat);
        lemma_crlf_repeat_unfold(b);
        lemma_crlf_repeat_unfold(a + b);
        assert(crlf_repeat(a) + crlf_repeat(b) =~= (crlf_repeat(a) + crlf_repeat(
            (b - 1) as nat,
        )) + crlf());
    }
}

/// Folding over a concatenation is folding over the parts in turn.
pub proof fn lemma_relax_fold_append(st: RelaxState, a: Seq<u8>, b: Seq<u8>)
    ensures
        relax_fold_state(st, a + b) == relax_fold_state(relax_fold_state(st, a), b),
        relax_fold_emit(st, a + b) == relax_fold_emit(st, a) + relax_fold_emit(
            relax_fold_state(st, a),
            b,
        ),
    decreases b.len(),
{
    if b.len() == 0 {
        assert(a + b =~= a);
        assert(relax_fold_emit(st, a) + relax_fold_emit(relax_fold_state(st, a), b)
            =~= relax_fold_emit(st, a));
    } else {
        lemma_relax_fold_append(st, a, b.drop_last());
        assert((a + b).drop_last() =~= a + b.drop_last());
        assert((a + b).last() == b.last());
        assert(relax_fold_emit(st, a) + (relax_fold_emit(relax_fold_state(st, a), b.drop_last())
            + relax_step_emit(relax_fold_state(relax_fold_state(st, a), b.drop_last()), b.last()))
            =~= (relax_fold_emit(st, a) + relax_fold_emit(relax_fold_state(st, a), b.drop_last()))
            + relax_step_emit(relax_fold_state(relax_fold_state(st, a), b.drop_last()), b.last()));
    }
}

/// From the initial state, the whitespace flag is only ever set while no
/// line endings are withheld.
pub proof fn lemma_relax_reachable(x: Seq<u8>)
    ensures
        relax_fold_state(relax_init(), x).ws ==> relax_fold_state(relax_init(), x).pending == 0,
    decreases x.len(),
{
    if x.len() > 0 {
        lemma_relax_reachable(x.drop_last());
    }
}

/// Folding over one byte is a single step.
pub proof fn lemma_relax_fold_one(st: RelaxState, b: u8)
    ensures
        relax_fold_state(st, seq![b]) == relax_step_state(st, b),
        relax_fold_emit(st, seq![b]) == relax_step_emit(st, b),
{
    let s = seq![b];
    assert(s.len() == 1);
    assert(s.drop_last() =~= Seq::<u8>::empty());
    assert(s.last() == b);
    assert(relax_fold_state(st, s.drop_last()) == st);
    assert(relax_fold_emit(st, s.drop_last()) == Seq::<u8>::empty());
    assert(relax_fold_state(st, s) == relax_step_state(st, b));
    assert(relax_fold_emit(st, s) == relax_fold_emit(st, s.drop_last()) + relax_step_emit(
        relax_fold_state(st, s.drop_last()),
        b,
    ));
    assert(Seq::<u8>::empty() + relax_step_emit(st, b) =~= relax_step_emit(st, b));
}

/// Replaying a run of CRLFs only moves them into the withheld count.
pub proof fn lemma_relax_replay_crlfs(st: RelaxState, k: nat)
    ensures
        relax_fold_state(st, crlf_repeat(k)) == (RelaxState {
            pending: st.pending + k,
            ws: st.ws && k == 0,
        }),
        relax_fold_emit(st, crlf_repeat(k)) == Seq::<u8>::empty(),
    decreases k,
{
    if k == 0 {
        assert(st == (RelaxState { pending: st.pending + 0, ws: st.ws && 0 == 0 }));
    } else {
        lemma_relax_replay_crlfs(st, (k - 1) as nat);
        lemma_crlf_repeat_unfold(k);
        let mid = relax_fold_state(st, crlf_repeat((k - 1) as nat));
        lemma_relax_fold_append(st, crlf_repeat((k - 1) as nat), crlf());
        assert(crlf() =~= seq![13u8].push(10u8));
        assert(crlf().drop_last() =~= seq![13u8]);
        lemma_relax_fold_one(mid, 13u8);
        assert(relax_fold_state(mid, crlf()) == relax_step_state(
            relax_fold_state(mid, seq![13u8]),
            10u8,
        ));
        assert(relax_fold_emit(mid, crlf()) =~= Seq::<u8>::empty());
        assert(relax_fold_emit(st, crlf_repeat(k)) =~= Seq::<u8>::empty());
    }
}

/// Replaying canonicalized output reproduces it, except that a trailing run
/// of blank lines is withheld again.
#[verifier::rlimit(100)]
pub proof fn lemma_relax_replay(x: Seq<u8>)
    ensures
        !relax_fold_state(relax_init(), relax_fold_emit(relax_init(), x)).ws,
        relax_fold_emit(relax_init(), relax_fold_emit(relax_init(), x)) + crlf_repeat(
            relax_fold_state(relax_init(), relax_fold_emit(relax_init(), x)).pending,
        ) == relax_fold_emit(relax_init(), x),
    decreases x.len(),
{
    let init = relax_init();
    if x.len() == 0 {
        assert(relax_fold_emit(init, relax_fold_emit(init, x)) + crlf_repeat(0)
            =~= Seq::<u8>::empty());
    } else {
        let w = x.drop_last();
        let b = x.last();
        lemma_relax_replay(w);
        lemma_relax_reachable(w);
        let st = relax_fold_state(init, w);
        let y = relax_fold_emit(init, w);
        let e = relax_step_emit(st, b);
        let sigma = relax_fold_state(init, y);
        let z = relax_fold_emit(init, y);
        assert(relax_fold_emit(init, x) == y + e);
        assert(relax_fold_state(init, x) == relax_step_state(st, b));
        lemma_relax_fold_append(init, y, e);
        if b == 13 || b == 10 {
            assert(y + e =~= y);
        } else if st.ws && is_relaxed_space(b) {
            assert(e =~= crlf_repeat(0));
            assert(y + e =~= y);
        } else if st.ws {
            // `e` is a single collapsed space and the byte itself.
            assert(e =~= seq![32u8, b]);
            lemma_relax_fold_append(sigma, seq![32u8], seq![b]);
            assert(seq![32u8] + seq![b] =~= e);
            lemma_relax_fold_one(sigma, 32u8);
            let mid = relax_step_state(sigma, 32u8);
            lemma_relax_fold_one(mid, b);
            assert(relax_fold_emit(init, y + e) =~= (z + crlf_repeat(sigma.pending)) + seq![
                32u8,
                b,
            ]);
            assert((z + crlf_repeat(sigma.pending)) + seq![32u8, b] =~= (y + e) + crlf_repeat(0));
            assert(relax_fold_emit(init, y + e) + crlf_repeat(
                relax_fold_state(init, y + e).pending,
            ) =~= y + e);
        } else if is_relaxed_space(b) {
            // `e` is the withheld line endings, flushed by the whitespace.
            assert(e =~= crlf_repeat(st.pending));
            lemma_relax_replay_crlfs(sigma, st.pending);
            lemma_crlf_repeat_add(sigma.pending, st.pending);
            assert(z + crlf_repeat(sigma.pending + st.pending) =~= (z + crlf_repeat(
                sigma.pending,
            )) + crlf_repeat(st.pending));
        } else {
            // `e` is the withheld line endings and the byte itself.
            assert(e =~= crlf_repeat(st.pending) + seq![b]);
            lemma_relax_fold_append(sigma, crlf_repeat(st.pending), seq![b]);
            lemma_relax_replay_crlfs(sigma, st.pending);
            let mid = relax_fold_state(sigma, crlf_repeat(st.pending));
            lemma_relax_fold_one(mid, b);
            lemma_crlf_repeat_add(sigma.pending, st.pending);
            assert(relax_fold_emit(init, y + e) =~= z + (crlf_repeat(mid.pending) + seq![b]));
            assert(z + (crlf_repeat(sigma.pending + st.pending) + seq![b]) =~= ((z + crlf_repeat(
                sigma.pending,
            )) + crlf_repeat(st.pending)) + seq![b]);
            assert(relax_fold_emit(init, y + e) =~= (y + e));
            assert(relax_fold_emit(init, y + e) + crlf_repeat(
                relax_fold_state(init, y + e).pending,
            ) =~= y + e);
        }
    }
}

/// Relaxed body canonicalization is idempotent, and its output ends in
/// exactly one CRLF.  The one family of inputs left out: bodies whose
/// canonical form already ends in a blank line — a trailing whitespace-only
/// line coming after blank lines flushes those blank lines into the output,
/// and a second pass then suppresses them.
pub proof fn lemma_relaxed_body_canon_idempotent(x: Seq<u8>)
    requires
        !ends_with_crlf(relax_fold_emit(relax_init(), x)),
    ensures
        relaxed_body_canon(relaxed_body_canon(x)) == relaxed_body_canon(x),
        ends_with_crlf(relaxed_body_canon(x)),
        !ends_with_crlf(relaxed_body_canon(x).take(relaxed_body_canon(x).len() - 2)),
        relaxed_body_canon(Seq::<u8>::empty()) == crlf(),
{
    let init = relax_init();
    let y = relax_fold_emit(init, x);
    let sigma = relax_fold_state(init, y);
    lemma_relax_replay(x);
    if sigma.pending > 0 {
        lemma_crlf_repeat_unfold(sigma.pending);
        lemma_crlf_repeat_len(sigma.pending);
        let z = relax_fold_emit(init, y);
        assert(y == z + crlf_repeat(sigma.pending));
        assert(y[y.len() - 2] == crlf_repeat(sigma.pending)[crlf_repeat(sigma.pending).len()
            - 2]);
        assert(y[y.len() - 1] == crlf_repeat(sigma.pending)[crlf_repeat(sigma.pending).len()
            - 1]);
        assert(crlf_repeat(sigma.pending) =~= crlf_repeat((sigma.pending - 1) as nat) + crlf());
        assert(ends_with_crlf(y));
    }
    assert(sigma.pending == 0);
    assert(relax_fold_emit(init, y) + crlf_repeat(0) =~= relax_fold_emit(init, y));
    assert(relax_fold_emit(init, y) == y);
    lemma_relax_fold_append(init, y, crlf());
    assert(crlf() =~= seq![13u8].push(10u8));
    assert(crlf().drop_last() =~= seq![13u8]);
    lemma_relax_fold_one(sigma, 13u8);
    assert(relax_fold_emit(sigma, crlf()) =~= Seq::<u8>::empty());
    assert(relax_fold_emit(init, y + crlf()) =~= y);
    assert(relaxed_body_canon(relaxed_body_canon(x)) == y + crlf());
    assert(ends_with_crlf(y + crlf()));
    assert((y + crlf()).take((y + crlf()).len() - 2) =~= y);
    assert(relax_fold_emit(init, Seq::<u8>::empty()) + crlf() =~= crlf());
}

/// Executable test for `is_relaxed_space`.
fn is_relaxed_space_exec(b: u8) -> (r: bool)
    ensures
        r == is_relaxed_space(b),
{
    b == 9 || b == 11 || b == 12 || b == 32 || b == 133 || b == 160
}

/// A nonempty run of CRLFs starts with CR.
proof fn lemma_crlf_repeat_first(n: nat)
    requires
        n > 0,
    ensures
        crlf_repeat(n)[0] == 13u8,
    decreases n,
{
    lemma_crlf_repeat_len((n - 1) as nat);
    if n == 1 {
        assert(crlf_repeat(1) =~= crlf_repeat(0) + crlf());
        assert(crlf_repeat(1)[0] == crlf()[0]);
    } else {
        lemma_crlf_repeat_first((n - 1) as nat);
        assert(crlf_repeat(n)[0] == crlf_repeat((n - 1) as nat)[0]);
    }
}

/// A sequence that ends in no CRLF strips to itself.
proof fn lemma_strip_fixpoint_id(x: Seq<u8>)
    requires
        !ends_with_crlf(x),
    ensures
        strip_trailing_crlf(x) == x,
{
}

} // verus!
