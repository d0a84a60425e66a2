//! Fixed 256-bucket byte histogram: one counter per possible byte value,
//! filled by a single linear pass over the input.

use crate::counting::{
    byte_count, lemma_byte_count_is_multiset_count, lemma_elem_le_sum, lemma_sum_counts_push,
    lemma_sum_counts_update, sum_counts,
};
use vstd::prelude::*;

verus! {

/// Frequency counts for each of the 256 byte values, together with the
/// running total of bytes observed.
pub struct ByteHistogram {
    pub counts: Vec<u64>,
    pub total: u64,
}

impl ByteHistogram {
    /// Structural invariant: all 256 buckets exist and the running total is
    /// exactly the sum of the buckets.
    pub open spec fn wf(self) -> bool {
        &&& self.counts@.len() == 256
        &&& sum_counts(self.counts@) == self.total
    }

    /// The stored count for the byte `b`.
    pub open spec fn bcount(self, b: u8) -> nat {
        self.counts@[b as int] as nat
    }

    /// The number of bytes observed so far.
    pub open spec fn spec_total(self) -> u64 {
        self.total
    }

    /// A fresh histogram: 256 buckets, all zero.
    pub fn new() -> (h: ByteHistogram)
        ensures
            h.wf(),
            h.spec_total() == 0,
            forall|b: u8| h.bcount(b) == 0,
            h.counts@.len() == 256,
    {
        let mut counts: Vec<u64> = Vec::new();
        let mut i: usize = 0;
        while i < 256
            invariant
                counts@.len() == i,
                i <= 256,
                forall|j: int| 0 <= j < i ==> counts@[j] == 0,
                sum_counts(counts@) == 0,
            decreases 256 - i,
        {
            proof {
                lemma_sum_counts_push(counts@, 0);
            }
            counts.push(0);
            i += 1;
        }
        ByteHistogram { counts, total: 0 }
    }

    /// Count one byte: the bucket at index `b` grows by one, every other
    /// bucket is untouched, and the total grows by one.
    pub fn observe(&mut self, b: u8)
        requires
            old(self).wf(),
            old(self).spec_total() < u64::MAX,
        ensures
            final(self).wf(),
            final(self).spec_total() == old(self).spec_total() + 1,
            final(self).bcount(b) == old(self).bcount(b) + 1,
            forall|b2: u8| b2 != b ==> final(self).bcount(b2) == old(self).bcount(b2),
    {
        let idx: usize = b as usize;
        let c: u64 = self.counts[idx];
        proof {
            lemma_elem_le_sum(self.counts@, idx as int);
            lemma_sum_counts_update(self.counts@, idx as int, (c + 1) as u64);
        }
        self.counts.set(idx, c + 1);
        self.total = self.total + 1;
    }

    /// Fold a chunk of input into the histogram: each bucket grows by the
    /// number of occurrences of its byte in the chunk, and the total grows
    /// by the chunk's length.
    pub fn accumulate(&mut self, chunk: &[u8])
        requires
            old(self).wf(),
            old(self).spec_total() + chunk@.len() <= u64::MAX,
        ensures
            final(self).wf(),
            final(self).spec_total() == old(self).spec_total() + chunk@.len(),
            forall|b: u8|
                final(self).bcount(b) == old(self).bcount(b) + byte_count(chunk@, b),
    {
        let ghost orig = *old(self);
        let mut k: usize = 0;
        while k < chunk.len()
            invariant
                self.wf(),
                k <= chunk@.len(),
                self.spec_total() == orig.spec_total() + k,
                orig.spec_total() + chunk@.len() <= u64::MAX,
                forall|b: u8|
                    self.bcount(b) == orig.bcount(b) + byte_count(
                        chunk@.subrange(0, k as int),
                        b,
                    ),
            decreases chunk@.len() - k,
        {
            let ghost pre = *self;
            self.observe(chunk[k]);
            proof {
                let prefix = chunk@.subrange(0, k as int);
                let extended = chunk@.subrange(0, k + 1 as int);
                assert(extended.drop_last() =~= prefix);
                assert(extended.last() == chunk@[k as int]);
                assert forall|b: u8|
                    self.bcount(b) == orig.bcount(b) + byte_count(extended, b) by {
                    if b == chunk@[k as int] {
                        assert(byte_count(extended, b) == byte_count(prefix, b) + 1);
                    } else {
                        assert(byte_count(extended, b) == byte_count(prefix, b));
                    }
                }
            }
            k += 1;
        }
        proof {
            assert(chunk@.subrange(0, chunk@.len() as int) =~= chunk@);
        }
    }

    /// The running total, which equals the sum of all buckets.
    pub fn total(&self) -> (r: u64)
        requires
            self.wf(),
        ensures
            r == self.spec_total(),
            r == sum_counts(self.counts@),
    {
        self.total
    }

    /// The 256 stored counts, in ascending byte order.
    pub fn counts(&self) -> (r: &Vec<u64>)
        ensures
            r@ == self.counts@,
            forall|b: u8| r@[b as int] == self.bcount(b),
    {
        &self.counts
    }
}

/// Order independence: two inputs made of the same bytes in any order fill
/// every bucket identically, so the entropy computed from the buckets cannot
/// depend on the order of the input.
pub proof fn lemma_byte_counts_order_independent(s1: Seq<u8>, s2: Seq<u8>)
    requires
        s1.to_multiset() == s2.to_multiset(),
    ensures
        forall|b: u8| byte_count(s1, b) == byte_count(s2, b),
{
    assert forall|b: u8| byte_count(s1, b) == byte_count(s2, b) by {
        lemma_byte_count_is_multiset_count(s1, b);
        lemma_byte_count_is_multiset_count(s2, b);
    }
}

/// A run of one repeated byte puts its whole length in that byte's bucket
/// and nothing anywhere else; the distribution is then concentrated on a
/// single symbol, the case of minimal entropy.
pub proof fn lemma_repeated_byte_count(s: Seq<u8>, x: u8)
    requires
        forall|i: int| 0 <= i < s.len() ==> s[i] == x,
    ensures
        byte_count(s, x) == s.len(),
        forall|b: u8| b != x ==> byte_count(s, b) == 0,
    decreases s.len(),
{
    if s.len() > 0 {
        assert(s.last() == x);
        lemma_repeated_byte_count(s.drop_last(), x);
        assert forall|b: u8| b != x implies byte_count(s, b) == 0 by {
            assert(byte_count(s.drop_last(), b) == 0);
        }
    }
}

/// An input holding every byte value, each exactly once, fills every bucket
/// with exactly one: the uniform distribution, the case of maximal entropy.
pub proof fn lemma_all_bytes_once(s: Seq<u8>)
    requires
        s.no_duplicates(),
        forall|b: u8| s.contains(b),
    ensures
        forall|b: u8| byte_count(s, b) == 1,
{
    broadcast use vstd::seq_lib::group_to_multiset_ensures;

    assert forall|b: u8| byte_count(s, b) == 1 by {
        lemma_byte_count_is_multiset_count(s, b);
        lemma_multiset_count_of_no_duplicates(s, b);
    }
}

/// With no duplicate elements, every contained byte occurs exactly once.
proof fn lemma_multiset_count_of_no_duplicates(s: Seq<u8>, b: u8)
    requires
        s.no_duplicates(),
        s.contains(b),
    ensures
        s.to_multiset().count(b) == 1,
    decreases s.len(),
{
    broadcast use vstd::seq_lib::group_to_multiset_ensures;

    let t = s.drop_last();
    assert(s =~= t.push(s.last()));
    assert(t.push(s.last()).to_multiset() =~= t.to_multiset().insert(s.last()));
    if s.last() == b {
        assert(!t.contains(b));
        assert(t.to_multiset().count(b) == 0);
    } else {
        assert(t.contains(b));
        lemma_multiset_count_of_no_duplicates(t, b);
    }
}

} // verus!
