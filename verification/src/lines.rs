use vstd::prelude::*;

use crate::errors::Error;
use crate::errors::IoFailure;
use crate::reader::TextReader;
use crate::source::ByteSource;
use crate::text::strip_line_terminator;
use crate::text::strip_line_terminator_spec;

verus! {

/// Law: a line as `read_line` produces it — its only line feed, if any, at
/// the very end — loses exactly its terminator when stripped. The result
/// holds no line feed at all, and appending the terminator that was removed
/// gives the original line back; a line without a trailing line feed comes
/// back unchanged.
pub proof fn lemma_strip_line_terminator(v: Seq<char>)
    requires
        forall|i: int| 0 <= i < v.len() - 1 ==> v[i] != '\n',
    ensures
        forall|i: int|
            0 <= i < strip_line_terminator_spec(v).len() ==> strip_line_terminator_spec(v)[i]
                != '\n',
        (v.len() > 0 && v.last() == '\n' ==> (if v.drop_last().len() > 0 && v.drop_last().last()
            == '\r' {
            v =~= strip_line_terminator_spec(v) + seq!['\r', '\n']
        } else {
            v =~= strip_line_terminator_spec(v) + seq!['\n']
        })),
        !(v.len() > 0 && v.last() == '\n') ==> strip_line_terminator_spec(v) == v,
{
    let t = strip_line_terminator_spec(v);
    if v.len() > 0 && v.last() == '\n' {
        let u = v.drop_last();
        if u.len() > 0 && u.last() == '\r' {
            assert(t =~= u.drop_last());
            assert(v =~= t + seq!['\r', '\n']);
        } else {
            assert(t =~= u);
            assert(v =~= t + seq!['\n']);
        }
        assert forall|i: int| 0 <= i < t.len() implies t[i] != '\n' by {
            assert(t[i] == v[i]);
        }
    } else {
        assert forall|i: int| 0 <= i < t.len() implies t[i] != '\n' by {
            assert(t[i] == v[i]);
            if i == v.len() - 1 {
                assert(v[i] == v.last());
            }
        }
    }
}

/// A lazy, forward-only sequence of decoded lines over a `TextReader`, each
/// line yielded with its terminator stripped. An error item does not close
/// the sequence: a later advance may still attempt to read further.
pub struct Lines<S: ByteSource> {
    textreader: TextReader<S>,
}

impl<S: ByteSource> TextReader<S> {
    /// Converts this reader into a sequence over its lines. Each yielded
    /// string has no trailing line feed (the 0xA byte) or
    /// carriage-return-line-feed (0xD, 0xA) pair.
    pub fn lines(self) -> (r: Lines<S>)
        ensures
            r.reader() == self,
    {
        Lines { textreader: self }
    }
}

impl<S: ByteSource> Lines<S> {
    /// The reader this sequence draws from.
    pub closed spec fn reader(&self) -> TextReader<S> {
        self.textreader
    }

    /// Advances the sequence: reads one line into a fresh buffer. A read
    /// failure is yielded as an error item; an empty read marks the end of
    /// the sequence; otherwise the line is yielded with its terminator
    /// stripped, so it holds no line feed anywhere.
    pub fn next(&mut self) -> (r: Option<Result<String, Error>>)
        requires
            old(self).reader().wf(),
        ensures
            final(self).reader().wf(),
            (r matches Some(item) ==> (item matches Ok(s) ==> (forall|i: int|
                0 <= i < s@.len() ==> s@[i] != '\n'))),
            (r matches Some(item) ==> (item matches Ok(s) ==> exists|line: Seq<char>|
                s@ == #[trigger] strip_line_terminator_spec(line) && line.len() > 0 && (forall|
                    i: int,
                | 0 <= i < line.len() - 1 ==> line[i] != '\n'))),
            // transient interruptions and an unexpected end of input are
            // handled inside the line read and never yielded as error items
            (r matches Some(item) ==> (item matches Err(e) ==> !(e matches Error::IOError(
                IoFailure::Interrupted,
            )) && !(e matches Error::IOError(IoFailure::UnexpectedEof)))),
            // the sequence ends only on an empty read, which leaves no
            // carried-over text behind
            (r is None ==> final(self).reader().pending() =~= Seq::<char>::empty()),
    {
        let mut s = String::new();
        match self.textreader.read_line(&mut s) {
            Ok(_) => {
                if s.as_str().is_empty() {
                    None
                } else {
                    proof {
                        lemma_strip_line_terminator(s@);
                    }
                    let ghost line = s@;
                    let stripped = strip_line_terminator(s);
                    proof {
                        assert(stripped@ == strip_line_terminator_spec(line));
                    }
                    Some(Ok(stripped))
                }
            },
            Err(e) => Some(Err(e)),
        }
    }
}

} // verus!
