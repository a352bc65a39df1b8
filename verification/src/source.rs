use vstd::prelude::*;

use crate::errors::IoFailure;

verus! {

/// A source of raw bytes, read in bounded chunks.
///
/// A source is modelled by the byte stream it stands over (`contents`) and
/// how much of it has been delivered (`position`); every implementation
/// chooses these views, and `SliceSource` shows the concrete form. One call
/// to `read` makes at most one attempt against the underlying medium; a
/// short read is valid and simply yields less material. An empty result
/// signals the end of the input. The reader retries `Interrupted` failures
/// itself; any other failure is surfaced to its caller.
pub trait ByteSource {
    /// True for sources that define the stream model below. A source that
    /// leaves the defaults in place promises nothing beyond the length bound
    /// of `read`.
    open spec fn obeys_stream_model(&self) -> bool {
        false
    }

    /// The whole byte stream this source stands over, for sources that obey
    /// the stream model.
    open spec fn contents(&self) -> Seq<u8> {
        Seq::empty()
    }

    /// How many leading bytes of the contents have been delivered, for
    /// sources that obey the stream model.
    open spec fn position(&self) -> int {
        0
    }

    /// Reads at most `max` fresh bytes: for a source that obeys the stream
    /// model, the next bytes of the contents, in order, with nothing
    /// skipped and nothing invented. An empty vector means end of input.
    fn read(&mut self, max: usize) -> (r: Result<Vec<u8>, IoFailure>)
        ensures
            (r matches Ok(v) ==> v@.len() <= max),
            final(self).obeys_stream_model() == old(self).obeys_stream_model(),
            old(self).obeys_stream_model() ==> {
                &&& final(self).contents() == old(self).contents()
                &&& (r matches Ok(v) ==> (0 <= old(self).position() <= old(
                    self,
                ).contents().len() ==> {
                    &&& v@ == old(self).contents().subrange(
                        old(self).position(),
                        old(self).position() + v@.len(),
                    )
                    &&& final(self).position() == old(self).position() + v@.len()
                    &&& final(self).position() <= final(self).contents().len()
                    &&& (v@.len() == 0 ==> old(self).position() >= old(self).contents().len()
                        || max == 0)
                }))
                &&& (r matches Err(_) ==> final(self).position() == old(self).position())
            },
    ;
}

/// A byte source backed by an in-memory buffer, delivering at most
/// `max_read` bytes per call so that chunk boundaries can be forced
/// anywhere.
pub struct SliceSource {
    data: Vec<u8>,
    pos: usize,
    max_read: usize,
}

impl SliceSource {
    /// A source that yields `data` without an artificial per-read bound.
    pub fn new(data: Vec<u8>) -> (r: SliceSource)
        ensures
            r.contents() == data@,
            r.position() == 0,
    {
        SliceSource { data, pos: 0, max_read: usize::MAX }
    }

    /// A source that yields `data` at most `max_read` bytes per call.
    pub fn with_max_read(data: Vec<u8>, max_read: usize) -> (r: SliceSource)
        requires
            max_read >= 1,
        ensures
            r.contents() == data@,
            r.position() == 0,
    {
        SliceSource { data, pos: 0, max_read }
    }
}

impl ByteSource for SliceSource {
    /// This source defines the stream model exactly.
    open spec fn obeys_stream_model(&self) -> bool {
        true
    }

    /// The bytes this source was created over.
    closed spec fn contents(&self) -> Seq<u8> {
        self.data@
    }

    /// How many leading bytes of the contents have been handed out.
    closed spec fn position(&self) -> int {
        self.pos as int
    }

    fn read(&mut self, max: usize) -> (r: Result<Vec<u8>, IoFailure>) {
        // no constructor yields a position past the end, but nothing ties the
        // fields together either: settle it here instead of trusting it
        if self.pos > self.data.len() {
            self.pos = self.data.len();
        }
        let out: Vec<u8> = Vec::new();
        if self.pos >= self.data.len() {
            assert(out@ =~= self.data@.subrange(self.pos as int, self.pos as int));
            return Ok(out);
        }
        let mut out = out;
        let remaining = self.data.len() - self.pos;
        let mut n = if max < remaining {
            max
        } else {
            remaining
        };
        let cap = if self.max_read == 0 {
            1
        } else {
            self.max_read
        };
        if cap < n {
            n = cap;
        }
        let ghost start = self.pos as int;
        assert(out@ =~= self.data@.subrange(start, start));
        let mut i: usize = 0;
        while i < n
            invariant
                i <= n,
                n <= max,
                start + n <= self.data@.len(),
                start + n <= usize::MAX,
                remaining == self.data@.len() - self.pos,
                self.pos < self.data@.len(),
                self.pos == start,
                out@ == self.data@.subrange(start, start + i),
                n == 0 ==> max == 0,
            decreases n - i,
        {
            let b = self.data[self.pos + i];
            out.push(b);
            assert(out@ =~= self.data@.subrange(start, start + i + 1));
            i = i + 1;
        }
        self.pos = self.pos + n;
        Ok(out)
    }
}

} // verus!
