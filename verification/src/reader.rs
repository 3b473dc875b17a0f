//! The sentinel-truncating reader.

use vstd::prelude::*;

use crate::sentinel::SENTINEL;
use crate::sentinel::lemma_no_sentinel_passthrough;
use crate::sentinel::lemma_sentinel_pos_is_first;
use crate::sentinel::lemma_sentinel_pos_pin;
use crate::sentinel::lemma_truncates_at_sentinel;
use crate::sentinel::lemma_visible_prefix_skip;
use crate::sentinel::sentinel_pos;
use crate::sentinel::visible_prefix;
use crate::source::ByteSource;
use crate::source::CopyRead;
use crate::source::PeekRead;
use crate::source::ReadError;

verus! {

/// A composable reader that reads until a `0x1A` byte (commonly known as
/// `CTRL-Z` or the "substitute character") is encountered.
///
/// This `struct` wraps another byte source offering [`CopyRead`] or
/// [`PeekRead`]. Calls to the methods of those traits are forwarded to the
/// interior source until a `0x1A` byte is read, at which point reading
/// ceases: the reader enters a terminated state that is never left, and every
/// later operation reports an exhausted stream without consulting the inner
/// source again. The sentinel byte itself is never exposed to the caller.
///
/// As a [`ByteSource`], the reader's remaining bytes are the visible prefix
/// of the inner source's remaining bytes — everything strictly before the
/// first `0x1A` — or nothing at all once the reader is terminated.
pub struct ReadToCtrlZ<R> {
    /// The internal source being read.
    pub inner: R,
    /// Whether the EOF `0x1A` byte has been reached.
    pub terminated: bool,
}

impl<R> ReadToCtrlZ<R> {
    /// Creates a new `ReadToCtrlZ`, wrapping the provided source.
    pub fn new(inner: R) -> (r: ReadToCtrlZ<R>)
        ensures
            r.inner == inner,
            !r.terminated,
    {
        ReadToCtrlZ { inner, terminated: false }
    }
}

impl<R: ByteSource> ByteSource for ReadToCtrlZ<R> {
    open spec fn remaining(&self) -> Seq<u8> {
        if self.terminated {
            Seq::empty()
        } else {
            visible_prefix(self.inner.remaining())
        }
    }
}

/// Once terminated, a reader's visible stream is empty: together with the
/// [`CopyRead`] and [`PeekRead`] contracts, every later read or peek returns
/// zero bytes or an empty view, indefinitely.
pub proof fn lemma_terminated_is_empty<R: ByteSource>(r: ReadToCtrlZ<R>)
    requires
        r.terminated,
    ensures
        r.remaining() == Seq::<u8>::empty(),
{
}

/// A stream without the sentinel byte passes through an active reader
/// unchanged: reading it to exhaustion yields exactly the inner source's
/// bytes.
pub proof fn lemma_reader_passes_sentinel_free_input_through<R: ByteSource>(r: ReadToCtrlZ<R>)
    requires
        !r.terminated,
        forall|j: int| 0 <= j < r.inner.remaining().len() ==> r.inner.remaining()[j] != SENTINEL,
    ensures
        r.remaining() == r.inner.remaining(),
{
    lemma_no_sentinel_passthrough(r.inner.remaining());
}

/// An active reader over a stream `a ++ [SENTINEL] ++ b`, with `a`
/// sentinel-free, exposes exactly `a`, whatever `b` holds: neither the
/// sentinel nor anything after it ever surfaces.
pub proof fn lemma_reader_truncates_at_sentinel<R: ByteSource>(
    r: ReadToCtrlZ<R>,
    a: Seq<u8>,
    b: Seq<u8>,
)
    requires
        !r.terminated,
        r.inner.remaining() == a + seq![SENTINEL] + b,
        forall|j: int| 0 <= j < a.len() ==> a[j] != SENTINEL,
    ensures
        r.remaining() == a,
{
    lemma_truncates_at_sentinel(a, b);
}

impl<R: CopyRead> CopyRead for ReadToCtrlZ<R> {
    fn read(&mut self, buf: &mut Vec<u8>) -> (r: Result<usize, ReadError>)
        ensures
            old(self).terminated ==> *final(self) == *old(self) && *final(buf) == *old(buf)
                && r == Ok::<usize, ReadError>(0),
            old(self).terminated ==> final(self).terminated,
    {
        if self.terminated {
            return Ok(0);
        }

        let ghost r0 = self.inner.remaining();
        let n = match self.inner.read(buf) {
            Ok(n) => n,
            Err(e) => {
                return Err(e);
            },
        };
        if n > buf.len() {
            // Defensive: unreachable for an inner source that honors the
            // CopyRead contract, but a required guard against one that does
            // not.
            return Err(ReadError::InvalidInnerSource);
        }

        proof {
            lemma_sentinel_pos_is_first(r0);
        }
        let mut i: usize = 0;
        #[verifier::loop_isolation(false)]
        while i < n
            invariant
                i <= n,
                n <= buf@.len(),
                n <= r0.len(),
                buf@.len() == old(buf)@.len(),
                buf@.take(n as int) == r0.take(n as int),
                !self.terminated,
                self.inner.remaining() == r0.skip(n as int),
                forall|j: int| 0 <= j < i ==> buf@[j] != SENTINEL,
            decreases n - i,
        {
            if buf[i] == SENTINEL {
                self.terminated = true;
                proof {
                    assert forall|j: int| 0 <= j < i implies r0[j] != SENTINEL by {
                        assert(r0[j] == buf@.take(n as int)[j]);
                    }
                    assert(r0[i as int] == buf@.take(n as int)[i as int]);
                    lemma_sentinel_pos_pin(r0, i as int);
                    assert(buf@.take(i as int) =~= r0.take(sentinel_pos(r0)).take(i as int));
                    assert(r0.take(sentinel_pos(r0)).skip(i as int) =~= Seq::<u8>::empty());
                }
                return Ok(i);
            }
            i += 1;
        }

        proof {
            assert(n <= sentinel_pos(r0)) by {
                if sentinel_pos(r0) < n {
                    assert(r0[sentinel_pos(r0)] == buf@.take(n as int)[sentinel_pos(r0)]);
                }
            }
            assert(buf@.take(n as int) =~= r0.take(sentinel_pos(r0)).take(n as int));
            lemma_visible_prefix_skip(r0, n as int);
        }
        Ok(n)
    }
}

impl<R: PeekRead> PeekRead for ReadToCtrlZ<R> {
    fn fill_buf(&mut self) -> (r: Result<Vec<u8>, ReadError>)
        ensures
            old(self).terminated ==> *final(self) == *old(self) && (r matches Ok(b)
                && b@.len() == 0),
            old(self).terminated ==> final(self).terminated,
    {
        if self.terminated {
            return Ok(Vec::new());
        }

        let ghost r0 = self.inner.remaining();
        let mut b = match self.inner.fill_buf() {
            Ok(b) => b,
            Err(e) => {
                return Err(e);
            },
        };

        proof {
            lemma_sentinel_pos_is_first(r0);
        }
        let m = b.len();
        let mut i: usize = 0;
        #[verifier::loop_isolation(false)]
        while i < m
            invariant
                i <= m,
                m <= r0.len(),
                b@.len() == m,
                b@ == r0.take(m as int),
                !self.terminated,
                self.inner.remaining() == r0,
                forall|j: int| 0 <= j < i ==> b@[j] != SENTINEL,
            decreases m - i,
        {
            if b[i] == SENTINEL {
                if i == 0 {
                    // An immediately-present sentinel makes the stream
                    // logically empty from this point on, so terminate now: a
                    // caller that never consumes must keep seeing an empty
                    // view.
                    self.terminated = true;
                }
                proof {
                    assert forall|j: int| 0 <= j < i implies r0[j] != SENTINEL by {
                        assert(r0[j] == r0.take(m as int)[j]);
                    }
                    assert(r0[i as int] == r0.take(m as int)[i as int]);
                    lemma_sentinel_pos_pin(r0, i as int);
                }
                b.truncate(i);
                proof {
                    assert(b@ =~= r0.take(sentinel_pos(r0)).take(i as int));
                }
                return Ok(b);
            }
            i += 1;
        }

        proof {
            assert(m <= sentinel_pos(r0)) by {
                if sentinel_pos(r0) < m {
                    assert(r0[sentinel_pos(r0)] == r0.take(m as int)[sentinel_pos(r0)]);
                }
            }
            assert(b@ =~= r0.take(sentinel_pos(r0)).take(m as int));
        }
        Ok(b)
    }

    fn consume(&mut self, amount: usize)
        ensures
            final(self).terminated == old(self).terminated,
    {
        proof {
            if !self.terminated {
                lemma_sentinel_pos_is_first(self.inner.remaining());
            }
        }
        self.inner.consume(amount);
        proof {
            if !old(self).terminated {
                lemma_visible_prefix_skip(old(self).inner.remaining(), amount as int);
            }
        }
    }
}

} // verus!
