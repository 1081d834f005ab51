//! An in-memory byte stream: writes append at the end, reads advance a
//! cursor.

use vstd::prelude::*;
use vstd::slice::slice_to_vec;

verus! {

/// A growable byte buffer with a read cursor.  Writing appends at the
/// end; reading hands back bytes from the cursor and advances it.
#[derive(Debug)]
pub struct ReadBuffer {
    pub bytes: Vec<u8>,
    pub cursor: usize,
}

impl ReadBuffer {
    /// The cursor never runs past the bytes.
    pub open spec fn wf(&self) -> bool {
        self.cursor <= self.bytes@.len()
    }

    /// An empty buffer with the cursor at the start.
    pub fn new() -> (b: ReadBuffer)
        ensures
            b.wf(),
            b.bytes@ == Seq::<u8>::empty(),
            b.cursor == 0,
    {
        ReadBuffer { bytes: Vec::new(), cursor: 0 }
    }

    /// Appends `buf` at the end and reports how many bytes were taken:
    /// all of them.
    pub fn write(&mut self, buf: &[u8]) -> (n: usize)
        requires
            old(self).wf(),
        ensures
            final(self).wf(),
            final(self).bytes@ == old(self).bytes@ + buf@,
            final(self).cursor == old(self).cursor,
            n == buf@.len(),
    {
        crate::frame::push_bytes(&mut self.bytes, buf);
        buf.len()
    }

    /// Does nothing: the buffer holds no platform resources to flush.
    pub fn flush(&mut self)
        ensures
            *final(self) == *old(self),
    {
    }

    /// Reads up to `count` bytes from the cursor and advances it past
    /// them; `None` once the cursor stands at the end.
    pub fn read(&mut self, count: usize) -> (r: Option<Vec<u8>>)
        requires
            old(self).wf(),
        ensures
            final(self).wf(),
            final(self).bytes@ == old(self).bytes@,
            match r {
                Some(chunk) => {
                    &&& old(self).cursor < old(self).bytes@.len()
                    &&& final(self).cursor == old(self).cursor + chunk@.len()
                    &&& chunk@ == old(self).bytes@.subrange(
                        old(self).cursor as int,
                        final(self).cursor as int,
                    )
                    &&& chunk@.len() == if count <= old(self).bytes@.len() - old(self).cursor {
                        count as int
                    } else {
                        old(self).bytes@.len() - old(self).cursor
                    }
                },
                None => {
                    &&& old(self).cursor == old(self).bytes@.len()
                    &&& *final(self) == *old(self)
                },
            },
    {
        let remaining = self.bytes.len() - self.cursor;
        if remaining == 0 {
            return None;
        }
        let take: usize = if count < remaining {
            count
        } else {
            remaining
        };
        let chunk = slice_to_vec(
            vstd::slice::slice_subrange(self.bytes.as_slice(), self.cursor, self.cursor + take),
        );
        self.cursor = self.cursor + take;
        Some(chunk)
    }
}

impl Default for ReadBuffer {
    /// The same empty buffer `new` builds.
    fn default() -> (b: ReadBuffer)
        ensures
            b.wf(),
            b.bytes@ == Seq::<u8>::empty(),
            b.cursor == 0,
    {
        ReadBuffer::new()
    }
}

} // verus!
