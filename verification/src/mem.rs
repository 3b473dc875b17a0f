//! An in-memory byte source.
//!
//! [`MemReader`] produces the bytes of an owned buffer, in order, through
//! both the [`CopyRead`] and the [`PeekRead`] capability. It is the simplest
//! source a [`ReadToCtrlZ`](crate::reader::ReadToCtrlZ) can wrap, and the one
//! the crate's tests wrap.

use vstd::prelude::*;

use crate::source::ByteSource;
use crate::source::CopyRead;
use crate::source::PeekRead;
use crate::source::ReadError;

verus! {

/// A byte source backed by an owned buffer: it produces `data[pos..]`, the
/// bytes not yet consumed.
pub struct MemReader {
    /// The bytes this source produces.
    pub data: Vec<u8>,
    /// How many of them have been consumed already.
    pub pos: usize,
}

impl MemReader {
    /// Creates a source that produces the bytes of `data`, from the first.
    pub fn new(data: Vec<u8>) -> (r: MemReader)
        ensures
            r.remaining() == data@,
            r.data == data,
            r.pos == 0,
    {
        let r = MemReader { data, pos: 0 };
        proof {
            assert(r.remaining() =~= r.data@);
        }
        r
    }
}

impl ByteSource for MemReader {
    open spec fn remaining(&self) -> Seq<u8> {
        if self.pos <= self.data@.len() {
            self.data@.skip(self.pos as int)
        } else {
            Seq::empty()
        }
    }
}

impl CopyRead for MemReader {
    fn read(&mut self, buf: &mut Vec<u8>) -> (r: Result<usize, ReadError>)
        ensures
            r is Ok,
    {
        if self.pos >= self.data.len() {
            return Ok(0);
        }

        let avail = self.data.len() - self.pos;
        let n = if buf.len() < avail {
            buf.len()
        } else {
            avail
        };
        let ghost rem0 = self.remaining();
        let mut j: usize = 0;
        #[verifier::loop_isolation(false)]
        while j < n
            invariant
                j <= n,
                buf@.len() == old(buf)@.len(),
                buf@.take(j as int) == rem0.take(j as int),
            decreases n - j,
        {
            let v = self.data[self.pos + j];
            buf[j] = v;
            proof {
                assert(buf@.take(j + 1) =~= rem0.take(j + 1));
            }
            j += 1;
        }
        self.pos = self.pos + n;
        proof {
            assert(self.remaining() =~= rem0.skip(n as int));
        }
        Ok(n)
    }
}

impl PeekRead for MemReader {
    fn fill_buf(&mut self) -> (r: Result<Vec<u8>, ReadError>)
        ensures
            r is Ok,
    {
        let mut b: Vec<u8> = Vec::new();
        if self.pos >= self.data.len() {
            return Ok(b);
        }

        let mut j: usize = self.pos;
        #[verifier::loop_isolation(false)]
        while j < self.data.len()
            invariant
                self.pos <= j <= self.data@.len(),
                b@ == self.data@.subrange(self.pos as int, j as int),
            decreases self.data@.len() - j,
        {
            let v = self.data[j];
            b.push(v);
            proof {
                assert(b@ =~= self.data@.subrange(self.pos as int, j + 1));
            }
            j += 1;
        }
        proof {
            assert(b@ =~= self.remaining().take(b@.len() as int));
        }
        Ok(b)
    }

    fn consume(&mut self, amount: usize) {
        let ghost rem0 = self.remaining();
        let len = self.data.len();
        proof {
            if self.pos > len {
                assert(amount == 0);
            }
        }
        self.pos = self.pos + amount;
        proof {
            assert(self.remaining() =~= rem0.skip(amount as int));
        }
    }
}

} // verus!
