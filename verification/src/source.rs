//! The byte-source capabilities a reader can be wrapped around, and the
//! errors a read operation can report.
//!
//! A source is modelled by the sequence of bytes it has yet to produce
//! ([`ByteSource::remaining`]). The copy-read and peek-read contracts are
//! separate traits, so a source may offer either or both: [`CopyRead`] fills
//! a caller-owned buffer and returns a count, while
//! [`PeekRead`] exposes a run of fresh bytes without consuming them and pairs
//! it with an explicit [`consume`](PeekRead::consume) operation.

use vstd::prelude::*;

verus! {

/// An error reported by a read operation.
#[derive(Clone, Copy, Debug, PartialEq, Eq, Structural)]
pub enum ReadError {
    /// The inner source's copy-read reported that it produced more bytes than
    /// the destination buffer can hold — a violation of the source's own
    /// contract, not a property of the data stream.
    InvalidInnerSource,
    /// A failure reported by the source itself; a wrapper passes it through
    /// unchanged.
    InnerSourceError,
}

impl ReadError {
    /// A fixed human-readable description of the error.
    pub fn message(&self) -> (r: &'static str)
        ensures
            *self is InvalidInnerSource ==> r@ == "buffer smaller than amount of bytes read"@,
            *self is InnerSourceError ==> r@ == "inner source reported an error"@,
    {
        match self {
            ReadError::InvalidInnerSource => "buffer smaller than amount of bytes read",
            ReadError::InnerSourceError => "inner source reported an error",
        }
    }
}

/// A producer of bytes, modelled by the sequence of bytes it has yet to
/// produce.
pub trait ByteSource {
    /// The bytes this source has yet to produce, in order.
    spec fn remaining(&self) -> Seq<u8>;
}

/// The copy-read capability: fill a caller-provided buffer with up to
/// `buf.len()` freshly produced bytes and return how many were written.
pub trait CopyRead: ByteSource {
    /// Produces up to `buf.len()` bytes into the front of `buf` and returns
    /// the count `n` of bytes written: the next `n` remaining bytes of the
    /// source, which are thereby consumed. The count is zero exactly when the
    /// source is exhausted or the buffer has length zero; on an error the
    /// source's remaining bytes are unchanged. Positions of `buf` at `n` and
    /// beyond hold no meaningful data after the call.
    fn read(&mut self, buf: &mut Vec<u8>) -> (r: Result<usize, ReadError>)
        ensures
            final(buf)@.len() == old(buf)@.len(),
            match r {
                Ok(n) => {
                    &&& n <= final(buf)@.len()
                    &&& n <= old(self).remaining().len()
                    &&& final(buf)@.take(n as int) == old(self).remaining().take(n as int)
                    &&& final(self).remaining() == old(self).remaining().skip(n as int)
                    &&& ((n == 0) <==> (old(self).remaining().len() == 0 || old(buf)@.len() == 0))
                },
                Err(_) => final(self).remaining() == old(self).remaining(),
            },
    ;
}

/// The peek-read capability: expose the largest currently-available
/// contiguous run of fresh bytes without consuming them, and let the caller
/// decide how many of them to consume.
pub trait PeekRead: ByteSource {
    /// Returns a view of the source's currently-available fresh bytes: a
    /// prefix of the remaining bytes, nonempty unless the source is
    /// exhausted. Nothing is consumed: the remaining bytes are unchanged, on
    /// success and on error alike.
    fn fill_buf(&mut self) -> (r: Result<Vec<u8>, ReadError>)
        ensures
            final(self).remaining() == old(self).remaining(),
            match r {
                Ok(b) => {
                    &&& b@.len() <= old(self).remaining().len()
                    &&& b@ == old(self).remaining().take(b@.len() as int)
                    &&& (old(self).remaining().len() > 0 ==> b@.len() > 0)
                },
                Err(_) => true,
            },
    ;

    /// Advances the source past its next `amount` remaining bytes, which a
    /// caller has already inspected through
    /// [`fill_buf`](PeekRead::fill_buf).
    fn consume(&mut self, amount: usize)
        requires
            amount <= old(self).remaining().len(),
        ensures
            final(self).remaining() == old(self).remaining().skip(amount as int),
    ;
}

/// Reads `src` to exhaustion through its copy-read capability, appending
/// every produced byte to `out`. On success the count of appended bytes is
/// returned and `out` has grown by exactly the bytes the source had
/// remaining; on an error, `out` has grown by some prefix of them and the
/// source retains exactly the rest.
pub fn read_to_end<S: CopyRead>(src: &mut S, out: &mut Vec<u8>) -> (r: Result<usize, ReadError>)
    requires
        old(src).remaining().len() <= usize::MAX,
    ensures
        match r {
            Ok(n) => {
                &&& n == old(src).remaining().len()
                &&& final(out)@ == old(out)@ + old(src).remaining()
                &&& final(src).remaining().len() == 0
            },
            Err(_) => {
                &&& final(out)@.take(old(out)@.len() as int) == old(out)@
                &&& old(src).remaining() == final(out)@.skip(old(out)@.len() as int)
                    + final(src).remaining()
            },
        },
{
    let mut buf: Vec<u8> = vec![0u8; 32];
    let mut count: usize = 0;
    let mut done = false;
    while !done
        invariant
            buf@.len() == 32,
            count <= old(src).remaining().len() <= usize::MAX,
            out@ == old(out)@ + old(src).remaining().take(count as int),
            src.remaining() == old(src).remaining().skip(count as int),
            done ==> count == old(src).remaining().len(),
        decreases old(src).remaining().len() - count + (if done { 0int } else { 1int }),
    {
        let ghost walked = old(src).remaining().skip(count as int);
        let n = match src.read(&mut buf) {
            Ok(n) => n,
            Err(e) => {
                proof {
                    assert(out@.take(old(out)@.len() as int) =~= old(out)@);
                    assert(old(src).remaining() =~= out@.skip(old(out)@.len() as int)
                        + src.remaining());
                }
                return Err(e);
            },
        };
        if n == 0 {
            proof {
                assert(old(src).remaining().take(count as int) =~= old(src).remaining());
            }
            done = true;
        } else {
            let mut j: usize = 0;
            #[verifier::loop_isolation(false)]
            while j < n
                invariant
                    j <= n,
                    n <= buf@.len(),
                    out@ == old(out)@ + old(src).remaining().take(count as int)
                        + buf@.take(j as int),
                decreases n - j,
            {
                let v = buf[j];
                out.push(v);
                proof {
                    assert(out@ =~= old(out)@ + old(src).remaining().take(count as int)
                        + buf@.take(j + 1));
                }
                j += 1;
            }
            proof {
                assert(old(src).remaining().take(count as int) + buf@.take(n as int)
                    =~= old(src).remaining().take(count + n));
                assert(walked.skip(n as int) =~= old(src).remaining().skip(count + n));
                assert(out@ =~= old(out)@ + old(src).remaining().take(count + n));
            }
            count = count + n;
        }
    }
    proof {
        assert(old(src).remaining().take(count as int) =~= old(src).remaining());
    }
    Ok(count)
}

/// Reads `src` to exhaustion through its peek/consume capability, appending
/// every peeked byte to `out` and consuming exactly what each peek returned.
/// Its contract is the same as [`read_to_end`]'s: the two capabilities,
/// drained, yield the same bytes.
pub fn peek_to_end<S: PeekRead>(src: &mut S, out: &mut Vec<u8>) -> (r: Result<usize, ReadError>)
    requires
        old(src).remaining().len() <= usize::MAX,
    ensures
        match r {
            Ok(n) => {
                &&& n == old(src).remaining().len()
                &&& final(out)@ == old(out)@ + old(src).remaining()
                &&& final(src).remaining().len() == 0
            },
            Err(_) => {
                &&& final(out)@.take(old(out)@.len() as int) == old(out)@
                &&& old(src).remaining() == final(out)@.skip(old(out)@.len() as int)
                    + final(src).remaining()
            },
        },
{
    let mut count: usize = 0;
    let mut done = false;
    while !done
        invariant
            count <= old(src).remaining().len() <= usize::MAX,
            out@ == old(out)@ + old(src).remaining().take(count as int),
            src.remaining() == old(src).remaining().skip(count as int),
            done ==> count == old(src).remaining().len(),
        decreases old(src).remaining().len() - count + (if done { 0int } else { 1int }),
    {
        let ghost walked = old(src).remaining().skip(count as int);
        let b = match src.fill_buf() {
            Ok(b) => b,
            Err(e) => {
                proof {
                    assert(out@.take(old(out)@.len() as int) =~= old(out)@);
                    assert(old(src).remaining() =~= out@.skip(old(out)@.len() as int)
                        + src.remaining());
                }
                return Err(e);
            },
        };
        let n = b.len();
        if n == 0 {
            proof {
                assert(old(src).remaining().take(count as int) =~= old(src).remaining());
            }
            done = true;
        } else {
            let mut j: usize = 0;
            #[verifier::loop_isolation(false)]
            while j < n
                invariant
                    j <= n,
                    n == b@.len(),
                    out@ == old(out)@ + old(src).remaining().take(count as int)
                        + b@.take(j as int),
                decreases n - j,
            {
                let v = b[j];
                out.push(v);
                proof {
                    assert(out@ =~= old(out)@ + old(src).remaining().take(count as int)
                        + b@.take(j + 1));
                }
                j += 1;
            }
            src.consume(n);
            proof {
                assert(old(src).remaining().take(count as int) + b@.take(n as int)
                    =~= old(src).remaining().take(count + n));
                assert(walked.skip(n as int) =~= old(src).remaining().skip(count + n));
                assert(out@ =~= old(out)@ + old(src).remaining().take(count + n));
            }
            count = count + n;
        }
    }
    proof {
        assert(old(src).remaining().take(count as int) =~= old(src).remaining());
    }
    Ok(count)
}

/// Peek/consume consistency: draining a source through the peek/consume
/// contract yields the same bytes as draining a source with the same
/// remaining bytes through the copy-read contract — each contract makes the
/// drained output exactly the source's remaining bytes, as the postconditions
/// of [`read_to_end`] and [`peek_to_end`] state.
pub proof fn lemma_peek_consume_matches_copy_read<C: CopyRead, P: PeekRead>(
    by_copy_src: C,
    by_peek_src: P,
    by_copy: Seq<u8>,
    by_peek: Seq<u8>,
)
    requires
        by_copy_src.remaining() == by_peek_src.remaining(),
        by_copy == by_copy_src.remaining(),
        by_peek == by_peek_src.remaining(),
    ensures
        by_copy == by_peek,
{
}

} // verus!
