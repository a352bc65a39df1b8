//! An incremental, chunk-based reader that turns a stream of bytes in an
//! arbitrary text encoding into Unicode text, without buffering the whole
//! input and without ever splitting a multi-byte character across two
//! separately returned pieces of output.
//!
//! [`TextReader`] pulls bounded chunks from a [`ByteSource`], feeds them to a
//! stateful decoder for a [`Codec`], reconciles decoder errors against a
//! [`TrapPolicy`], and serves whole-stream reads, line reads, and a lazy
//! [`Lines`] sequence from one incremental decode step.

pub mod codec;
pub mod errors;
pub mod lines;
pub mod reader;
pub mod source;
pub mod text;

pub use codec::Codec;
pub use codec::DecoderHandle;
pub use codec::TrapPolicy;
pub use errors::Error;
pub use errors::IoFailure;
pub use lines::Lines;
pub use reader::TextReader;
pub use source::ByteSource;
pub use source::SliceSource;
