//! The sentinel byte and the mathematical model of truncation.
//!
//! A byte stream is modelled as a `Seq<u8>`. The part of a stream that a
//! caller is allowed to see is its *visible prefix*: everything strictly
//! before the first occurrence of the sentinel byte, or the whole stream when
//! the sentinel does not occur. The functions and lemmas here define that
//! notion and prove the facts about it that the reader's contracts rest on.

use vstd::prelude::*;

verus! {

/// The sentinel byte: `0x1A`, commonly known as `CTRL-Z` or the "substitute
/// character", used by legacy formats as an explicit end-of-file marker.
pub const SENTINEL: u8 = 0x1a;

/// The index of the first occurrence of [`SENTINEL`] in `s`, or `s.len()`
/// when `s` does not contain the sentinel.
pub open spec fn sentinel_pos(s: Seq<u8>) -> int
    decreases s.len(),
{
    if s.len() == 0 {
        0
    } else if s[0] == SENTINEL {
        0
    } else {
        1 + sentinel_pos(s.skip(1))
    }
}

/// The part of the stream `s` that is visible through the truncating reader:
/// everything strictly before the first occurrence of [`SENTINEL`], or all of
/// `s` when the sentinel does not occur.
pub open spec fn visible_prefix(s: Seq<u8>) -> Seq<u8> {
    s.take(sentinel_pos(s))
}

/// `sentinel_pos(s)` is a well-formed first-occurrence index: it lies within
/// `0 ..= s.len()`, no byte before it is the sentinel, and the byte at it (if
/// any) is the sentinel.
pub proof fn lemma_sentinel_pos_is_first(s: Seq<u8>)
    ensures
        0 <= sentinel_pos(s) <= s.len(),
        forall|j: int| 0 <= j < sentinel_pos(s) ==> s[j] != SENTINEL,
        sentinel_pos(s) < s.len() ==> s[sentinel_pos(s)] == SENTINEL,
    decreases s.len(),
{
    if s.len() == 0 {
    } else if s[0] == SENTINEL {
    } else {
        lemma_sentinel_pos_is_first(s.skip(1));
        assert forall|j: int| 0 <= j < sentinel_pos(s) implies s[j] != SENTINEL by {
            if j > 0 {
                assert(s.skip(1)[j - 1] != SENTINEL);
                assert(s[j] == s.skip(1)[j - 1]);
            }
        }
        if sentinel_pos(s) < s.len() {
            assert(s[sentinel_pos(s)] == s.skip(1)[sentinel_pos(s.skip(1))]);
        }
    }
}

/// Any index with the first-occurrence shape equals `sentinel_pos(s)`: an
/// index within bounds, with no sentinel strictly before it, and with the
/// sentinel at it unless it is `s.len()`.
pub proof fn lemma_sentinel_pos_pin(s: Seq<u8>, p: int)
    requires
        0 <= p <= s.len(),
        forall|j: int| 0 <= j < p ==> s[j] != SENTINEL,
        p < s.len() ==> s[p] == SENTINEL,
    ensures
        sentinel_pos(s) == p,
{
    lemma_sentinel_pos_is_first(s);
    if sentinel_pos(s) < p {
        assert(s[sentinel_pos(s)] != SENTINEL);
    } else if p < sentinel_pos(s) {
        assert(s[p] != SENTINEL);
    }
}

/// A stream without the sentinel passes through the truncation unchanged.
pub proof fn lemma_no_sentinel_passthrough(s: Seq<u8>)
    requires
        forall|j: int| 0 <= j < s.len() ==> s[j] != SENTINEL,
    ensures
        visible_prefix(s) == s,
{
    lemma_sentinel_pos_pin(s, s.len() as int);
    assert(s.take(s.len() as int) =~= s);
}

/// A stream of the form `a ++ [SENTINEL] ++ b`, with `a` sentinel-free, is
/// truncated to exactly `a`, whatever `b` holds.
pub proof fn lemma_truncates_at_sentinel(a: Seq<u8>, b: Seq<u8>)
    requires
        forall|j: int| 0 <= j < a.len() ==> a[j] != SENTINEL,
    ensures
        visible_prefix(a + seq![SENTINEL] + b) == a,
{
    let s = a + seq![SENTINEL] + b;
    assert forall|j: int| 0 <= j < a.len() implies s[j] != SENTINEL by {
        assert(s[j] == a[j]);
    }
    assert(s[a.len() as int] == SENTINEL);
    lemma_sentinel_pos_pin(s, a.len() as int);
    assert(s.take(a.len() as int) =~= a);
}

/// Dropping `n` sentinel-free bytes from the front of a stream commutes with
/// truncation: the first sentinel moves `n` places to the left, and the
/// visible prefix loses exactly its first `n` bytes.
pub proof fn lemma_visible_prefix_skip(s: Seq<u8>, n: int)
    requires
        0 <= n <= sentinel_pos(s),
    ensures
        sentinel_pos(s.skip(n)) == sentinel_pos(s) - n,
        visible_prefix(s.skip(n)) == visible_prefix(s).skip(n),
{
    lemma_sentinel_pos_is_first(s);
    let t = s.skip(n);
    assert forall|j: int| 0 <= j < sentinel_pos(s) - n implies t[j] != SENTINEL by {
        assert(t[j] == s[j + n]);
    }
    if sentinel_pos(s) - n < t.len() {
        assert(t[sentinel_pos(s) - n] == s[sentinel_pos(s)]);
    }
    lemma_sentinel_pos_pin(t, sentinel_pos(s) - n);
    assert(t.take(sentinel_pos(t)) =~= s.take(sentinel_pos(s)).skip(n));
}

} // verus!
