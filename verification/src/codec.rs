use vstd::prelude::*;

verus! {

/// How invalid byte sequences are recovered from.
///
/// `Strict` declines every invalid sequence, so decoding fails on the first
/// one. `Replace` substitutes U+FFFD for it, `Ignore` drops it silently.
#[derive(Clone, Copy, Debug, PartialEq, Eq, Structural)]
pub enum TrapPolicy {
    Strict,
    Replace,
    Ignore,
}

/// A character encoding, resolved from a WHATWG label.
///
/// The value is opaque: the encoding itself is an external collaborator, and
/// nothing about a specific codec is modelled here.
#[verifier::external_body]
pub struct Codec {
    enc: encoding::types::EncodingRef,
}

/// A stateful decoder for one `Codec`, owned exclusively by one reader.
///
/// The decoder's internal state is opaque; every fact the reader relies on
/// is stated on the wrappers below, over the plain values they return.
#[verifier::external_body]
pub struct DecoderHandle {
    dec: Box<dyn encoding::types::RawDecoder>,
}

/// Error information handed back by the decoder: the byte position of the
/// first remaining byte with respect to the input that was fed (negative
/// when it lies in a prior input), and a diagnostic message.
pub struct RawFault {
    pub upto: isize,
    pub cause: String,
}

impl Codec {
    /// Relies on encoding::label::encoding_from_whatwg_label: resolves a
    /// WHATWG encoding label to an encoding, if one matches the label.
    #[verifier::external_body]
    pub fn for_label(label: &str) -> (r: Option<Codec>) {
        match encoding::label::encoding_from_whatwg_label(label) {
            Some(enc) => Some(Codec { enc }),
            None => None,
        }
    }

    /// Relies on encoding::types::Encoding::raw_decoder: creates a fresh
    /// decoder in its initial state for this encoding.
    #[verifier::external_body]
    pub fn raw_decoder(&self) -> (r: DecoderHandle) {
        DecoderHandle { dec: self.enc.raw_decoder() }
    }
}

impl DecoderHandle {
    /// Relies on encoding::types::RawDecoder::raw_feed: decodes a prefix of
    /// `input`, returning the decoded text, the byte offset of the first
    /// unprocessed byte (at most the input length), and error information if
    /// the bytes at that offset form an invalid sequence.
    #[verifier::external_body]
    pub(crate) fn feed(&mut self, input: &[u8]) -> (r: (String, usize, Option<RawFault>))
        ensures
            r.1 <= input@.len(),
            (r.2 matches Some(f) ==> f.upto <= input@.len()),
    {
        let mut out = String::new();
        let (offset, err) = self.dec.raw_feed(input, &mut out);
        let fault = match err {
            Some(e) => Some(RawFault { upto: e.upto, cause: e.cause.into_owned() }),
            None => None,
        };
        (out, offset, fault)
    }

    /// Relies on encoding::types::RawDecoder::raw_finish: flushes the
    /// decoder against its internal state, returning any final decoded text
    /// and error information if that state did not end a full character; the
    /// decoder is reset to its initial state.
    #[verifier::external_body]
    pub(crate) fn finish(&mut self) -> (r: (String, Option<RawFault>)) {
        let mut out = String::new();
        let err = self.dec.raw_finish(&mut out);
        let fault = match err {
            Some(e) => Some(RawFault { upto: e.upto, cause: e.cause.into_owned() }),
            None => None,
        };
        (out, fault)
    }

    /// Relies on encoding::types::DecoderTrap::trap: `Strict` declines and
    /// writes nothing, `Replace` substitutes one U+FFFD and continues,
    /// `Ignore` writes nothing and continues.
    #[verifier::external_body]
    pub(crate) fn run_trap(&mut self, policy: TrapPolicy, invalid: &[u8]) -> (r: (String, bool))
        ensures
            policy == TrapPolicy::Strict ==> !r.1 && r.0@ =~= Seq::<char>::empty(),
            policy == TrapPolicy::Replace ==> r.1 && r.0@ =~= seq!['\u{fffd}'],
            policy == TrapPolicy::Ignore ==> r.1 && r.0@ =~= Seq::<char>::empty(),
    {
        let trap = match policy {
            TrapPolicy::Strict => encoding::types::DecoderTrap::Strict,
            TrapPolicy::Replace => encoding::types::DecoderTrap::Replace,
            TrapPolicy::Ignore => encoding::types::DecoderTrap::Ignore,
        };
        let mut out = String::new();
        let handled = trap.trap(&mut *self.dec, invalid, &mut out);
        (out, handled)
    }
}

} // verus!
