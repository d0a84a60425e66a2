//! Spec-level counting: occurrences of a symbol in a sequence, sums of
//! counter sequences, and the lemmas that relate them.

use vstd::prelude::*;

verus! {

/// Number of occurrences of the byte `b` in `s`.
pub open spec fn byte_count(s: Seq<u8>, b: u8) -> nat
    decreases s.len(),
{
    if s.len() == 0 {
        0
    } else {
        byte_count(s.drop_last(), b) + if s.last() == b {
            1nat
        } else {
            0nat
        }
    }
}

/// Number of occurrences of the text unit `u` in `units`.
pub open spec fn unit_occurrences(units: Seq<Seq<char>>, u: Seq<char>) -> nat
    decreases units.len(),
{
    if units.len() == 0 {
        0
    } else {
        unit_occurrences(units.drop_last(), u) + if units.last() == u {
            1nat
        } else {
            0nat
        }
    }
}

/// Sum of a sequence of counters, as an unbounded integer.
pub open spec fn sum_counts(s: Seq<u64>) -> int
    decreases s.len(),
{
    if s.len() == 0 {
        0
    } else {
        sum_counts(s.drop_last()) + s.last()
    }
}

/// Appending one counter adds its value to the sum.
pub proof fn lemma_sum_counts_push(s: Seq<u64>, x: u64)
    ensures
        sum_counts(s.push(x)) == sum_counts(s) + x,
{
    assert(s.push(x).drop_last() =~= s);
}

/// Replacing one counter shifts the sum by the difference.
pub proof fn lemma_sum_counts_update(s: Seq<u64>, i: int, v: u64)
    requires
        0 <= i < s.len(),
    ensures
        sum_counts(s.update(i, v)) == sum_counts(s) - s[i] + v,
    decreases s.len(),
{
    let t = s.update(i, v);
    if i == s.len() - 1 {
        assert(t.drop_last() =~= s.drop_last());
    } else {
        assert(t.drop_last() =~= s.drop_last().update(i, v));
        lemma_sum_counts_update(s.drop_last(), i, v);
        assert(t.last() == s.last());
    }
}

/// A sum of unsigned counters is non-negative.
pub proof fn lemma_sum_counts_nonneg(s: Seq<u64>)
    ensures
        sum_counts(s) >= 0,
    decreases s.len(),
{
    if s.len() > 0 {
        lemma_sum_counts_nonneg(s.drop_last());
    }
}

/// No single counter exceeds the sum of all of them.
pub proof fn lemma_elem_le_sum(s: Seq<u64>, i: int)
    requires
        0 <= i < s.len(),
    ensures
        s[i] <= sum_counts(s),
    decreases s.len(),
{
    if i == s.len() - 1 {
        lemma_sum_counts_nonneg(s.drop_last());
    } else {
        lemma_elem_le_sum(s.drop_last(), i);
    }
}

/// `byte_count` agrees with the multiset reading of the sequence, so it
/// depends only on which bytes occur how often, not on their order.
pub proof fn lemma_byte_count_is_multiset_count(s: Seq<u8>, b: u8)
    ensures
        byte_count(s, b) == s.to_multiset().count(b),
    decreases s.len(),
{
    broadcast use vstd::seq_lib::group_to_multiset_ensures;

    if s.len() == 0 {
        assert(!s.contains(b));
    } else {
        let t = s.drop_last();
        lemma_byte_count_is_multiset_count(t, b);
        assert(s =~= t.push(s.last()));
        assert(t.push(s.last()).to_multiset() =~= t.to_multiset().insert(s.last()));
    }
}

} // verus!
