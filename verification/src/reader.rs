use vstd::prelude::*;
use vstd::slice::slice_subrange;
use vstd::string::StringExecFns;
use vstd::utf8::encode_utf8;

use crate::codec::Codec;
use crate::codec::DecoderHandle;
use crate::codec::TrapPolicy;
use crate::errors::Error;
use crate::errors::IoFailure;
use crate::source::ByteSource;
use crate::text::byte_len;
use crate::text::lemma_encode_utf8_concat;
use crate::text::lemma_encode_utf8_len;
use crate::text::split_first_line;

verus! {

/// Soft target fill level of the chunk buffer, in bytes.
pub const CHUNK_SIZE: usize = 2048;

/// `new_s` is `old_s` with zero or more elements appended: what was already
/// delivered is never rolled back.
pub open spec fn extends<T>(old_s: Seq<T>, new_s: Seq<T>) -> bool {
    new_s.len() >= old_s.len() && new_s.subrange(0, old_s.len() as int) == old_s
}

/// Appending keeps every earlier prefix.
pub proof fn lemma_extends_append<T>(a: Seq<T>, b: Seq<T>, c: Seq<T>)
    requires
        extends(a, b),
    ensures
        extends(a, b + c),
{
    assert((b + c).subrange(0, a.len() as int) =~= b.subrange(0, a.len() as int));
}

/// A sequence extends itself.
pub proof fn lemma_extends_self<T>(a: Seq<T>)
    ensures
        extends(a, a),
{
    assert(a.subrange(0, a.len() as int) =~= a);
}

/// Extension is transitive.
pub proof fn lemma_extends_trans<T>(a: Seq<T>, b: Seq<T>, c: Seq<T>)
    requires
        extends(a, b),
        extends(b, c),
    ensures
        extends(a, c),
{
    assert forall|i: int| 0 <= i < a.len() implies c.subrange(0, a.len() as int)[i] == a[i] by {
        assert(b[i] == b.subrange(0, a.len() as int)[i]);
        assert(c[i] == c.subrange(0, b.len() as int)[i]);
    }
    assert(c.subrange(0, a.len() as int) =~= a);
}

/// The UTF-8 byte length grows with the text, and the growth is the byte
/// length of exactly the appended characters.
pub proof fn lemma_prefix_bytes(a: Seq<char>, b: Seq<char>)
    requires
        extends(a, b),
    ensures
        encode_utf8(b).len() >= encode_utf8(a).len(),
        encode_utf8(b).len() - encode_utf8(a).len() == encode_utf8(
            b.skip(a.len() as int),
        ).len() as int,
{
    assert(b =~= a + b.skip(a.len() as int));
    lemma_encode_utf8_concat(a, b.skip(a.len() as int));
}

/// Text that grew by zero bytes did not grow at all.
pub proof fn lemma_no_growth(a: Seq<char>, b: Seq<char>)
    requires
        extends(a, b),
        encode_utf8(b).len() == encode_utf8(a).len(),
    ensures
        b == a,
{
    lemma_prefix_bytes(a, b);
    lemma_encode_utf8_len(b.skip(a.len() as int));
    assert(b =~= a + b.skip(a.len() as int));
    assert(b.skip(a.len() as int).len() == 0);
    assert(b =~= a);
}

/// What a read loop does with the outcome of one incremental step.
pub enum StepDecision {
    /// A transient source failure: retry as if nothing happened.
    Retry,
    /// A failure the caller must see, exactly as the step reported it.
    Propagate(Error),
    /// This call is answered: return what was accumulated.
    Finish,
    /// The source ended inside a multi-byte character.
    Truncation,
    /// The step made progress without settling the call: step again.
    Continue,
}

/// The whole-stream read's rule for one step outcome: transient failures are
/// retried, any other failure propagates, and a step that adds nothing ends
/// the read — cleanly when the decoder state is complete, as truncation
/// otherwise.
pub open spec fn read_to_end_rule(outcome: Result<bool, Error>, appended_nothing: bool) -> StepDecision {
    match outcome {
        Err(e) => if e matches Error::IOError(IoFailure::Interrupted) {
            StepDecision::Retry
        } else {
            StepDecision::Propagate(e)
        },
        Ok(complete) => if !appended_nothing {
            StepDecision::Continue
        } else if complete {
            StepDecision::Finish
        } else {
            StepDecision::Truncation
        },
    }
}

/// Applies `read_to_end_rule` to one step outcome.
pub fn decide_read_to_end(outcome: Result<bool, Error>, appended_nothing: bool) -> (r:
    StepDecision)
    ensures
        r == read_to_end_rule(outcome, appended_nothing),
{
    match outcome {
        Err(Error::IOError(IoFailure::Interrupted)) => StepDecision::Retry,
        Err(e) => StepDecision::Propagate(e),
        Ok(complete) => {
            if !appended_nothing {
                StepDecision::Continue
            } else if complete {
                StepDecision::Finish
            } else {
                StepDecision::Truncation
            }
        },
    }
}

/// The line read's rule for a step after which no line feed has appeared:
/// transient failures are retried, an unexpected end of input ends the call
/// as a successful partial final line, any other failure propagates, and a
/// step that adds nothing ends the call cleanly.
pub open spec fn read_line_rule(outcome: Result<bool, Error>, appended_nothing: bool) -> StepDecision {
    match outcome {
        Err(e) => if e matches Error::IOError(IoFailure::Interrupted) {
            StepDecision::Retry
        } else if e matches Error::IOError(IoFailure::UnexpectedEof) {
            StepDecision::Finish
        } else {
            StepDecision::Propagate(e)
        },
        Ok(_) => if appended_nothing {
            StepDecision::Finish
        } else {
            StepDecision::Continue
        },
    }
}

/// Applies `read_line_rule` to one step outcome.
pub fn decide_read_line(outcome: Result<bool, Error>, appended_nothing: bool) -> (r: StepDecision)
    ensures
        r == read_line_rule(outcome, appended_nothing),
{
    match outcome {
        Err(Error::IOError(IoFailure::Interrupted)) => StepDecision::Retry,
        Err(Error::IOError(IoFailure::UnexpectedEof)) => StepDecision::Finish,
        Err(e) => StepDecision::Propagate(e),
        Ok(_) => {
            if appended_nothing {
                StepDecision::Finish
            } else {
                StepDecision::Continue
            }
        },
    }
}

/// True when the decoder diagnostic is the "incomplete sequence" condition:
/// a valid but truncated prefix of a multi-byte character, distinct from an
/// invalid sequence.
fn is_incomplete_cause(cause: &String) -> (b: bool)
    ensures
        b == (cause@ == "incomplete sequence"@),
{
    let lit: String = "incomplete sequence".to_owned();
    *cause == lit
}

/// An incremental reader that pulls bounded chunks of bytes from a source,
/// decodes them statefully, reconciles decoder errors against a recovery
/// policy, and splits the decoded text into lines without breaking decode
/// state.
pub struct TextReader<S: ByteSource> {
    source: S,
    decoder: DecoderHandle,
    trap: TrapPolicy,
    textbuf: String,
    textbuf_completeseq: bool,
    binbuf: Vec<u8>,
    base: Ghost<int>,
    taken: Ghost<Seq<u8>>,
}

impl<S: ByteSource> TextReader<S> {
    /// Decoded text carried over from a previous line split, to be replayed
    /// before any new decoding happens.
    pub closed spec fn pending(&self) -> Seq<char> {
        self.textbuf@
    }

    /// Whether the decoder state at the time the pending text was set aside
    /// held a complete sequence.
    pub closed spec fn pending_complete(&self) -> bool {
        self.textbuf_completeseq
    }

    /// Bytes pulled from the source but not yet consumed by the decoder.
    pub closed spec fn buffered(&self) -> Seq<u8> {
        self.binbuf@
    }

    /// The recovery policy this reader was created with.
    pub closed spec fn policy(&self) -> TrapPolicy {
        self.trap
    }

    /// The underlying byte source.
    pub closed spec fn spec_source(&self) -> S {
        self.source
    }

    /// The underlying decoder.
    pub closed spec fn spec_decoder(&self) -> DecoderHandle {
        self.decoder
    }

    /// The source's position when this reader was created.
    pub closed spec fn stream_base(&self) -> int {
        self.base@
    }

    /// The bytes already handed to the decoder or the recovery policy and
    /// dropped from the chunk buffer, in stream order.
    pub closed spec fn consumed(&self) -> Seq<u8> {
        self.taken@
    }

    /// The reader's data model: the chunk buffer holds at most one chunk,
    /// and together with the bytes already handed on it is exactly what was
    /// pulled from the source so far — in order, with nothing lost, invented
    /// or re-fed.
    pub open spec fn wf(&self) -> bool {
        &&& self.buffered().len() <= CHUNK_SIZE
        &&& (self.spec_source().obeys_stream_model() ==> {
            &&& 0 <= self.stream_base() <= self.spec_source().position()
                <= self.spec_source().contents().len()
            &&& self.consumed() + self.buffered() == self.spec_source().contents().subrange(
                self.stream_base(),
                self.spec_source().position(),
            )
        })
    }

    /// Creates a reader over `source` that decodes with a fresh decoder for
    /// `codec`, recovering from invalid sequences as `trap` directs.
    pub fn new(source: S, codec: &Codec, trap: TrapPolicy) -> (r: TextReader<S>)
        requires
            source.obeys_stream_model() ==> 0 <= source.position() <= source.contents().len(),
        ensures
            r.pending() =~= Seq::<char>::empty(),
            r.pending_complete() == true,
            r.buffered() =~= Seq::<u8>::empty(),
            r.policy() == trap,
            r.spec_source() == source,
            r.consumed() =~= Seq::<u8>::empty(),
            r.stream_base() == source.position(),
            r.wf(),
    {
        let ghost p = source.position();
        let r = TextReader {
            source,
            decoder: codec.raw_decoder(),
            trap,
            textbuf: String::new(),
            textbuf_completeseq: true,
            binbuf: Vec::new(),
            base: Ghost(p),
            taken: Ghost(Seq::empty()),
        };
        proof {
            if r.spec_source().obeys_stream_model() {
                assert(r.consumed() + r.buffered() =~= r.spec_source().contents().subrange(p, p));
            }
        }
        r
    }

    /// Gets a reference to the underlying byte source.
    /// It is inadvisable to read from the source directly.
    pub fn get_source(&self) -> (r: &S)
        ensures
            *r == self.spec_source(),
    {
        &self.source
    }

    /// Gets a mutable reference to the underlying byte source.
    /// It is inadvisable to read from the source directly.
    pub fn get_source_mut(&mut self) -> &mut S {
        &mut self.source
    }

    /// Unwraps this reader, returning the underlying byte source.
    /// Any leftover data in the internal chunk buffer is lost.
    pub fn into_source(self) -> (r: S)
        ensures
            r == self.spec_source(),
    {
        self.source
    }

    /// Gets a reference to the underlying decoder.
    pub fn get_decoder(&self) -> (r: &DecoderHandle)
        ensures
            *r == self.spec_decoder(),
    {
        &self.decoder
    }

    /// Gets a mutable reference to the underlying decoder.
    pub fn get_decoder_mut(&mut self) -> &mut DecoderHandle {
        &mut self.decoder
    }

    /// Unwraps this reader, returning the underlying decoder.
    pub fn into_decoder(self) -> (r: DecoderHandle)
        ensures
            r == self.spec_decoder(),
    {
        self.decoder
    }

    /// One incremental decode step: drains pending text if any, otherwise
    /// tops the chunk buffer up with at most one bounded read and feeds it to
    /// the decoder. Returns the freshly produced text together with either
    /// the completeness of the decoder state or the error that stopped the
    /// step; text produced before the error is still handed back.
    fn step(&mut self) -> (r: (String, Result<bool, Error>))
        requires
            old(self).wf(),
        ensures
            final(self).wf(),
            final(self).spec_source().obeys_stream_model() == old(
                self,
            ).spec_source().obeys_stream_model(),
            old(self).spec_source().obeys_stream_model() ==> (final(self).spec_source().contents()
                == old(self).spec_source().contents() && final(self).spec_source().position()
                >= old(self).spec_source().position()),
            // at most one bounded read: a step pulls no more than what tops
            // the chunk buffer up to its target size
            old(self).spec_source().obeys_stream_model() ==> ({
                let advance = final(self).spec_source().position() - old(
                    self,
                ).spec_source().position();
                advance + old(self).buffered().len() <= CHUNK_SIZE
            }),
            final(self).stream_base() == old(self).stream_base(),
            extends(old(self).consumed(), final(self).consumed()),
            final(self).pending() =~= Seq::<char>::empty(),
            final(self).pending_complete() == true,
            final(self).policy() == old(self).policy(),
            old(self).pending().len() > 0 ==> (r.0@ == old(self).pending() && (r.1 matches Ok(c)
                ==> c == old(self).pending_complete()) && r.1 is Ok && final(self).buffered()
                == old(self).buffered() && final(self).spec_source() == old(self).spec_source()
                && final(self).spec_decoder() == old(self).spec_decoder() && final(self).consumed()
                == old(self).consumed()),
            (r.1 matches Err(e) ==> (e matches Error::IOError(_) ==> r.0@.len() == 0)),
            // a codec failure surfaces from a step only when the recovery
            // policy declined, which only the declining policy does
            (r.1 matches Err(e) ==> (e matches Error::CodecError(_) ==> old(self).policy()
                == TrapPolicy::Strict)),
    {
        proof {
            lemma_extends_self(old(self).consumed());
        }
        if !self.textbuf.as_str().is_empty() {
            let mut out = String::new();
            core::mem::swap(&mut out, &mut self.textbuf);
            let complete = self.textbuf_completeseq;
            self.textbuf_completeseq = true;
            return (out, Ok(complete));
        }
        self.textbuf_completeseq = true;
        if self.binbuf.len() < CHUNK_SIZE {
            let want = CHUNK_SIZE - self.binbuf.len();
            let ghost pre_pos = self.source.position();
            let ghost pre_bin = self.binbuf@;
            match self.source.read(want) {
                Ok(mut fresh) => {
                    let ghost fv = fresh@;
                    self.binbuf.append(&mut fresh);
                    proof {
                        if self.source.obeys_stream_model() {
                            let c = self.source.contents();
                            assert(c.subrange(self.base@, self.source.position()) =~= c.subrange(
                                self.base@,
                                pre_pos,
                            ) + c.subrange(pre_pos, self.source.position()));
                            assert(self.taken@ + self.binbuf@ =~= (self.taken@ + pre_bin) + fv);
                            assert(self.taken@ + self.binbuf@ =~= c.subrange(
                                self.base@,
                                self.source.position(),
                            ));
                        }
                    }
                },
                Err(f) => {
                    return (String::new(), Err(Error::IOError(f)));
                },
            }
        }
        let (mut text, offset, fault) = self.decoder.feed(self.binbuf.as_slice());
        if offset > 0 {
            let ghost t0 = self.taken@;
            let ghost b0 = self.binbuf@;
            self.taken = Ghost(self.taken@ + self.binbuf@.subrange(0, offset as int));
            drain_front(&mut self.binbuf, offset);
            proof {
                lemma_extends_append(old(self).consumed(), t0, b0.subrange(0, offset as int));
                assert(b0 =~= b0.subrange(0, offset as int) + b0.subrange(
                    offset as int,
                    b0.len() as int,
                ));
                assert(self.taken@ + self.binbuf@ =~= t0 + b0);
            }
        }
        match fault {
            None => {},
            Some(f) => {
                // the decoder could not interpret the bytes in
                // [offset, f.upto) of what was fed, which now sit at the
                // front of the chunk buffer
                let mut rel: usize = 0;
                if f.upto > 0 {
                    let upto = f.upto as usize;
                    if upto > offset {
                        rel = upto - offset;
                    }
                }
                if rel > self.binbuf.len() {
                    rel = self.binbuf.len();
                }
                let invalid = slice_subrange(self.binbuf.as_slice(), 0, rel);
                let (sub, handled) = self.decoder.run_trap(self.trap, invalid);
                if !handled {
                    return (text, Err(Error::CodecError(f.cause)));
                }
                text.append(sub.as_str());
                if rel > 0 {
                    let ghost t1 = self.taken@;
                    let ghost b1 = self.binbuf@;
                    self.taken = Ghost(self.taken@ + self.binbuf@.subrange(0, rel as int));
                    drain_front(&mut self.binbuf, rel);
                    proof {
                        lemma_extends_append(old(self).consumed(), t1, b1.subrange(0, rel as int));
                        assert(b1 =~= b1.subrange(0, rel as int) + b1.subrange(
                            rel as int,
                            b1.len() as int,
                        ));
                        assert(self.taken@ + self.binbuf@ =~= t1 + b1);
                    }
                }
            },
        }
        let (ftext, ferr) = self.decoder.finish();
        text.append(ftext.as_str());
        match ferr {
            None => (text, Ok(true)),
            Some(f2) => {
                if is_incomplete_cause(&f2.cause) {
                    // a valid but truncated prefix of a multi-byte character:
                    // not an error at this level, more bytes may complete it
                    (text, Ok(false))
                } else {
                    let none = slice_subrange(self.binbuf.as_slice(), 0, 0);
                    let (sub2, handled2) = self.decoder.run_trap(self.trap, none);
                    if !handled2 {
                        return (text, Err(Error::CodecError(f2.cause)));
                    }
                    text.append(sub2.as_str());
                    (text, Ok(true))
                }
            },
        }
    }

    /// Reads decoded text until the source is exhausted, appending it to
    /// `buf`. Returns the number of bytes appended. Transient source
    /// failures are retried and never surface; a source that ends inside a
    /// multi-byte character yields the "incomplete sequence" codec failure.
    /// Text appended before a failure is left in `buf`.
    pub fn read_to_end(&mut self, buf: &mut String) -> (r: Result<usize, Error>)
        requires
            old(self).wf(),
        ensures
            final(self).wf(),
            final(self).spec_source().obeys_stream_model() == old(
                self,
            ).spec_source().obeys_stream_model(),
            old(self).spec_source().obeys_stream_model() ==> (final(self).spec_source().contents()
                == old(self).spec_source().contents() && final(self).spec_source().position()
                >= old(self).spec_source().position()),
            final(self).stream_base() == old(self).stream_base(),
            extends(old(self).consumed(), final(self).consumed()),
            extends(old(buf)@, final(buf)@),
            (r matches Ok(n) ==> n as int == encode_utf8(final(buf)@).len() as int - encode_utf8(
                old(buf)@,
            ).len() as int),
            (r matches Ok(n) ==> final(self).pending() =~= Seq::<char>::empty()),
            (r matches Ok(n) ==> extends(old(buf)@ + old(self).pending(), final(buf)@)),
            (r matches Ok(n) ==> (n == 0 ==> final(buf)@ == old(buf)@)),
            (r matches Err(e) ==> !(e matches Error::IOError(IoFailure::Interrupted))),
            final(self).policy() == old(self).policy(),
            // a codec failure is either the decoder's own diagnostic, which
            // only the declining policy lets through, or names truncation or
            // a stalled stream
            (r matches Err(e) ==> (e matches Error::CodecError(c) ==> old(self).policy()
                == TrapPolicy::Strict || c@ == "incomplete sequence"@ || c@
                == "stalled stream"@)),
    {
        let start = byte_len(buf.as_str());
        proof {
            assert(buf@.subrange(0, old(buf)@.len() as int) =~= old(buf)@);
            lemma_extends_self(old(self).consumed());
        }
        // a finite step budget, far beyond anything reachable, keeps every
        // call terminating even against a source or decoder that never makes
        // progress
        let mut fuel: usize = usize::MAX;
        loop
            invariant
                start == encode_utf8(old(buf)@).len(),
                extends(old(buf)@, buf@),
                self.policy() == old(self).policy(),
                self.wf(),
                self.spec_source().obeys_stream_model() == old(
                    self,
                ).spec_source().obeys_stream_model(),
                old(self).spec_source().obeys_stream_model() ==> (self.spec_source().contents()
                    == old(self).spec_source().contents() && self.spec_source().position() >= old(
                    self,
                ).spec_source().position()),
                self.stream_base() == old(self).stream_base(),
                extends(old(self).consumed(), self.consumed()),
                self.pending().len() > 0 ==> (self.pending() == old(self).pending() && buf@ == old(
                    buf,
                )@),
                old(self).pending().len() > 0 && self.pending().len() == 0 ==> extends(
                    old(buf)@ + old(self).pending(),
                    buf@,
                ),
            decreases fuel,
        {
            if fuel == 0 {
                // not an outcome the source reported: a decoder or source
                // that made no progress over the whole step budget
                return Err(Error::CodecError("stalled stream".to_owned()));
            }
            fuel = fuel - 1;
            let ghost pending_pre = self.pending();
            let ghost consumed_pre = self.consumed();
            let ghost buf_pre = buf@;
            let (chunk, outcome) = self.step();
            proof {
                lemma_extends_trans(old(self).consumed(), consumed_pre, self.consumed());
            }
            let chunk_empty = chunk.as_str().is_empty();
            buf.append(chunk.as_str());
            proof {
                lemma_extends_append(old(buf)@, buf_pre, chunk@);
                if old(self).pending().len() > 0 {
                    if pending_pre.len() > 0 {
                        // the pending text was just drained into the chunk
                        assert(buf@ =~= old(buf)@ + old(self).pending());
                        assert(buf@.subrange(0, (old(buf)@ + old(self).pending()).len() as int)
                            =~= buf@);
                        assert(extends(old(buf)@ + old(self).pending(), buf@));
                    } else {
                        lemma_extends_append(old(buf)@ + old(self).pending(), buf_pre, chunk@);
                    }
                }
            }
            match decide_read_to_end(outcome, chunk_empty) {
                StepDecision::Retry => {},
                StepDecision::Continue => {},
                StepDecision::Propagate(e) => {
                    return Err(e);
                },
                StepDecision::Finish => {
                    assert(buf@ =~= old(buf)@ + buf@.skip(old(buf)@.len() as int));
                    proof {
                        lemma_prefix_bytes(old(buf)@, buf@);
                    }
                    let end = byte_len(buf.as_str());
                    proof {
                        if end == start {
                            lemma_no_growth(old(buf)@, buf@);
                        }
                    }
                    return Ok(end - start);
                },
                StepDecision::Truncation => {
                    // the source ended in the middle of a character
                    return Err(Error::CodecError("incomplete sequence".to_owned()));
                },
            }
        }
    }

    /// Reads decoded text up to and including the next line feed, appending
    /// it to `buf`; at the end of the source, whatever trailing text remains
    /// is appended without a terminator. Returns the number of bytes
    /// appended. Text decoded past the line feed is kept aside and replayed
    /// by the next call before anything new is decoded. Transient source
    /// failures are retried; a source reporting an unexpected end of input
    /// yields the partial final line as a success.
    pub fn read_line(&mut self, buf: &mut String) -> (r: Result<usize, Error>)
        requires
            old(self).wf(),
        ensures
            final(self).wf(),
            final(self).spec_source().obeys_stream_model() == old(
                self,
            ).spec_source().obeys_stream_model(),
            old(self).spec_source().obeys_stream_model() ==> (final(self).spec_source().contents()
                == old(self).spec_source().contents() && final(self).spec_source().position()
                >= old(self).spec_source().position()),
            final(self).stream_base() == old(self).stream_base(),
            extends(old(self).consumed(), final(self).consumed()),
            extends(old(buf)@, final(buf)@),
            (r matches Ok(n) ==> n as int == encode_utf8(final(buf)@).len() as int - encode_utf8(
                old(buf)@,
            ).len() as int),
            (r matches Ok(n) ==> (forall|i: int|
                old(buf)@.len() <= i < final(buf)@.len() - 1 ==> final(buf)@[i] != '\n')),
            (r matches Ok(n) ==> (n == 0 ==> final(buf)@ == old(buf)@)),
            (r matches Err(e) ==> !(e matches Error::IOError(IoFailure::Interrupted)) && !(
            e matches Error::IOError(IoFailure::UnexpectedEof))),
            (r matches Ok(n) ==> (n == 0 ==> final(self).pending() =~= Seq::<char>::empty())),
            final(self).policy() == old(self).policy(),
            // a codec failure is the decoder's own diagnostic, which only the
            // declining policy lets through, or names a stalled stream
            (r matches Err(e) ==> (e matches Error::CodecError(c) ==> old(self).policy()
                == TrapPolicy::Strict || c@ == "stalled stream"@)),
            // a pending carry-over that already holds a line feed answers the
            // call by itself: nothing is read or decoded, something ending in
            // the line feed is appended, and the carry-over splits between
            // the output and the new pending text with nothing lost or
            // reordered
            old(self).pending().contains('\n') ==> ({
                &&& r is Ok
                &&& final(self).buffered() == old(self).buffered()
                &&& final(self).spec_source() == old(self).spec_source()
                &&& final(buf)@.len() > old(buf)@.len()
                &&& final(buf)@.last() == '\n'
                &&& final(buf)@.skip(old(buf)@.len() as int) + final(self).pending() == old(
                    self,
                ).pending()
            }),
    {
        let start = byte_len(buf.as_str());
        proof {
            assert(buf@.subrange(0, old(buf)@.len() as int) =~= old(buf)@);
            lemma_extends_self(old(self).consumed());
        }
        // the same finite step budget as in read_to_end
        let mut fuel: usize = usize::MAX;
        loop
            invariant
                start == encode_utf8(old(buf)@).len(),
                extends(old(buf)@, buf@),
                self.policy() == old(self).policy(),
                self.wf(),
                self.spec_source().obeys_stream_model() == old(
                    self,
                ).spec_source().obeys_stream_model(),
                old(self).spec_source().obeys_stream_model() ==> (self.spec_source().contents()
                    == old(self).spec_source().contents() && self.spec_source().position() >= old(
                    self,
                ).spec_source().position()),
                self.stream_base() == old(self).stream_base(),
                extends(old(self).consumed(), self.consumed()),
                forall|i: int| old(buf)@.len() <= i < buf@.len() ==> buf@[i] != '\n',
                old(self).pending().contains('\n') ==> (self.pending() == old(self).pending()
                    && buf@ == old(buf)@ && self.buffered() == old(self).buffered()
                    && self.spec_source() == old(self).spec_source() && fuel > 0),
            decreases fuel,
        {
            if fuel == 0 {
                // not an outcome the source reported: a decoder or source
                // that made no progress over the whole step budget
                return Err(Error::CodecError("stalled stream".to_owned()));
            }
            fuel = fuel - 1;
            let ghost consumed_pre = self.consumed();
            let (chunk, outcome) = self.step();
            proof {
                lemma_extends_trans(old(self).consumed(), consumed_pre, self.consumed());
            }
            let ghost chunk_view = chunk@;
            let chunk_empty = chunk.as_str().is_empty();
            let (head, tail_opt) = split_first_line(chunk);
            proof {
                lemma_extends_append(old(buf)@, buf@, head@);
            }
            let ghost buf_before = buf@;
            buf.append(head.as_str());
            match tail_opt {
                Some(tail) => {
                    // a line feed was found: anything decoded past it is
                    // replayed by the next call, marked incomplete only when
                    // this step ended inside a multi-byte character
                    if !tail.as_str().is_empty() {
                        self.textbuf = tail;
                        self.textbuf_completeseq = match &outcome {
                            Ok(c) => *c,
                            Err(_) => true,
                        };
                    }
                    assert(buf@ =~= old(buf)@ + buf@.skip(old(buf)@.len() as int));
                    proof {
                        lemma_prefix_bytes(old(buf)@, buf@);
                        assert forall|i: int|
                            old(buf)@.len() <= i < buf@.len() - 1 implies buf@[i] != '\n' by {
                            if i >= buf_before.len() {
                                assert(buf@[i] == head@[i - buf_before.len()]);
                            } else {
                                assert(buf@[i] == buf_before[i]);
                            }
                        }
                    }
                    let end = byte_len(buf.as_str());
                    proof {
                        if end == start {
                            lemma_no_growth(old(buf)@, buf@);
                        }
                        if old(self).pending().contains('\n') {
                            assert(buf_before == old(buf)@);
                            assert(chunk_view == old(self).pending());
                            assert(buf@.skip(old(buf)@.len() as int) =~= head@);
                            assert(head@ + self.pending() =~= old(self).pending());
                        }
                    }
                    return Ok(end - start);
                },
                None => {
                    proof {
                        assert forall|i: int|
                            old(buf)@.len() <= i < buf@.len() implies buf@[i] != '\n' by {
                            if i >= buf_before.len() {
                                assert(buf@[i] == head@[i - buf_before.len()]);
                            } else {
                                assert(buf@[i] == buf_before[i]);
                            }
                        }
                    }
                    proof {
                        if old(self).pending().contains('\n') {
                            // the drained carry-over held a line feed, so the
                            // split cannot have missed it
                            assert(chunk_view == old(self).pending());
                            assert(head@ == chunk_view);
                            let k = choose|k: int|
                                0 <= k < old(self).pending().len() && old(self).pending()[k]
                                    == '\n';
                            assert(head@[k] == '\n');
                            assert(false);
                        }
                    }
                    match decide_read_line(outcome, chunk_empty) {
                        StepDecision::Retry => {},
                        StepDecision::Continue => {},
                        StepDecision::Propagate(e) => {
                            return Err(e);
                        },
                        StepDecision::Finish => {
                            // the source ended, cleanly or unexpectedly: the
                            // text so far is a final line with no terminator
                            assert(buf@ =~= old(buf)@ + buf@.skip(old(buf)@.len() as int));
                            proof {
                                lemma_prefix_bytes(old(buf)@, buf@);
                            }
                            let end = byte_len(buf.as_str());
                            proof {
                                if end == start {
                                    lemma_no_growth(old(buf)@, buf@);
                                }
                            }
                            return Ok(end - start);
                        },
                        StepDecision::Truncation => {
                            // the line rule never rules truncation: an
                            // incomplete trailing character is a successful
                            // partial final line here
                            proof {
                                assert(false);
                            }
                            return Err(Error::CodecError("incomplete sequence".to_owned()));
                        },
                    }
                },
            }
        }
    }
}

/// Removes the first `n` bytes of `v`, keeping the rest in order.
fn drain_front(v: &mut Vec<u8>, n: usize)
    requires
        n <= old(v)@.len(),
    ensures
        final(v)@ =~= old(v)@.subrange(n as int, old(v)@.len() as int),
{
    if n == 0 {
        return ;
    }
    let mut out: Vec<u8> = Vec::new();
    let mut i = n;
    let len = v.len();
    while i < len
        invariant
            n <= i <= len,
            len == v@.len(),
            v@ == old(v)@,
            out@ =~= old(v)@.subrange(n as int, i as int),
        decreases len - i,
    {
        let b = v[i];
        out.push(b);
        assert(out@ =~= old(v)@.subrange(n as int, i + 1 as int));
        i = i + 1;
    }
    *v = out;
}

} // verus!
