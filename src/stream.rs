//! A read position over an immutable message buffer.
use vstd::prelude::*;

verus! {

/// A message buffer and the position of the next unread byte.
pub struct MessageStream {
    pub data: Vec<u8>,
    pub pos: usize,
}

impl MessageStream {
    /// The position never runs past the end of the buffer.
    pub open spec fn wf(&self) -> bool {
        self.pos <= self.data@.len()
    }

    /// Starts a scan at the first byte of a copy of `data`.
    pub fn new(data: &[u8]) -> (r: MessageStream)
        ensures
            r.data@ == data@,
            r.pos == 0,
            r.wf(),
    {
        let mut buf: Vec<u8> = Vec::with_capacity(data.len());
        let mut i: usize = 0;
        while i < data.len()
            invariant
                i <= data@.len(),
                buf@ == data@.subrange(0, i as int),
            decreases data@.len() - i,
        {
            buf.push(data[i]);
            i = i + 1;
        }
        assert(buf@ == data@);
        MessageStream { data: buf, pos: 0 }
    }

    /// The bytes not read yet.
    pub fn remaining(&self) -> (r: &[u8])
        requires
            self.wf(),
        ensures
            r@ == self.data@.subrange(self.pos as int, self.data@.len() as int),
    {
        &self.data.as_slice()[self.pos..self.data.len()]
    }
}

} // verus!
