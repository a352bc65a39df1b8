use vstd::prelude::*;

verus! {

/// The kind of failure a byte source can report.
///
/// `Interrupted` failures are transient: the reader retries them
/// transparently. `UnexpectedEof` marks a source that ended before a
/// requested boundary; during line reading it is treated as a successful,
/// unterminated final line. `Other` carries any other diagnostic.
#[derive(Debug)]
pub enum IoFailure {
    Interrupted,
    UnexpectedEof,
    Other(String),
}

/// Error reported by the reader.
#[derive(Debug)]
pub enum Error {
    /// A failure of the underlying byte source.
    IOError(IoFailure),
    /// A decoding failure, carrying the decoder's diagnostic message.
    CodecError(String),
}

impl Error {
    /// True when this error is a transient source failure.
    pub fn is_interrupted(&self) -> (b: bool)
        ensures
            b == (self matches Error::IOError(IoFailure::Interrupted)),
    {
        match self {
            Error::IOError(IoFailure::Interrupted) => true,
            _ => false,
        }
    }
}

} // verus!
