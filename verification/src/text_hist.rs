//! Open-ended histogram keyed by text unit: a key is inserted with count 1
//! on first occurrence and incremented afterwards. The key order is
//! irrelevant to the result; pairwise-distinct keys keep each unit's count
//! well defined.

use crate::counting::{
    byte_count, lemma_elem_le_sum, lemma_sum_counts_push, lemma_sum_counts_update, sum_counts,
    unit_occurrences,
};
use crate::segment::{graphemes_of, lemma_unit_count_le_char_count, split_text_units};
use vstd::prelude::*;

verus! {

/// Frequency counts keyed by text unit. `keys` and `counts` run in
/// parallel: `counts[i]` is the number of occurrences of `keys[i]`.
pub struct SymbolHistogram {
    pub keys: Vec<String>,
    pub counts: Vec<u64>,
    pub total: u64,
}

impl SymbolHistogram {
    /// Structural invariant: the two columns have equal length, keys are
    /// pairwise distinct, every stored count is positive (a key enters with
    /// count 1 and only grows), and the running total is the sum of the
    /// counts.
    pub open spec fn wf(self) -> bool {
        &&& self.keys@.len() == self.counts@.len()
        &&& (forall|i: int, j: int|
            0 <= i < j < self.keys@.len() ==> self.keys@[i]@ != self.keys@[j]@)
        &&& (forall|i: int| 0 <= i < self.counts@.len() ==> self.counts@[i] >= 1)
        &&& sum_counts(self.counts@) == self.total
    }

    /// Whether the unit `u` has a key in the histogram.
    pub open spec fn has_unit(self, u: Seq<char>) -> bool {
        exists|i: int| 0 <= i < self.keys@.len() && self.keys@[i]@ == u
    }

    /// The index of the key holding `u` (meaningful when `has_unit(u)`).
    pub open spec fn unit_index(self, u: Seq<char>) -> int {
        choose|i: int| 0 <= i < self.keys@.len() && self.keys@[i]@ == u
    }

    /// The stored count for the unit `u`; zero for a unit never observed.
    pub open spec fn unit_count(self, u: Seq<char>) -> nat {
        if self.has_unit(u) {
            self.counts@[self.unit_index(u)] as nat
        } else {
            0
        }
    }

    /// The number of units observed so far.
    pub open spec fn spec_total(self) -> u64 {
        self.total
    }

    /// With pairwise-distinct keys, any index holding `u` is the one that
    /// `unit_count` reads.
    pub proof fn lemma_unit_index_agrees(self, u: Seq<char>, i: int)
        requires
            self.wf(),
            0 <= i < self.keys@.len(),
            self.keys@[i]@ == u,
        ensures
            self.has_unit(u),
            self.unit_index(u) == i,
            self.unit_count(u) == self.counts@[i],
    {
        assert(self.has_unit(u));
        let j = self.unit_index(u);
        assert(0 <= j < self.keys@.len() && self.keys@[j]@ == u);
        if j != i {
            if j < i {
                assert(self.keys@[j]@ != self.keys@[i]@);
            } else {
                assert(self.keys@[i]@ != self.keys@[j]@);
            }
        }
    }

    /// A fresh, empty histogram.
    pub fn new() -> (h: SymbolHistogram)
        ensures
            h.wf(),
            h.spec_total() == 0,
            forall|u: Seq<char>| h.unit_count(u) == 0,
            h.keys@.len() == 0,
    {
        SymbolHistogram { keys: Vec::new(), counts: Vec::new(), total: 0 }
    }

    /// Count one unit: its count grows by one (a first occurrence starts
    /// from zero), every other unit's count is untouched, and the total
    /// grows by one.
    pub fn observe(&mut self, unit: &String)
        requires
            old(self).wf(),
            old(self).spec_total() < u64::MAX,
        ensures
            final(self).wf(),
            final(self).spec_total() == old(self).spec_total() + 1,
            final(self).unit_count(unit@) == old(self).unit_count(unit@) + 1,
            forall|u: Seq<char>|
                u != unit@ ==> final(self).unit_count(u) == old(self).unit_count(u),
    {
        let n: usize = self.keys.len();
        let mut i: usize = 0;
        while i < n
            invariant
                *self == *old(self),
                self.wf(),
                self.spec_total() < u64::MAX,
                n == self.keys@.len(),
                i <= n,
                forall|j: int| 0 <= j < i ==> self.keys@[j]@ != unit@,
            decreases n - i,
        {
            if self.keys[i] == *unit {
                let c: u64 = self.counts[i];
                proof {
                    lemma_elem_le_sum(self.counts@, i as int);
                    lemma_sum_counts_update(self.counts@, i as int, (c + 1) as u64);
                }
                self.counts.set(i, c + 1);
                self.total = self.total + 1;
                proof {
                    old(self).lemma_unit_index_agrees(unit@, i as int);
                    self.lemma_unit_index_agrees(unit@, i as int);
                    assert forall|u: Seq<char>|
                        u != unit@ implies self.unit_count(u) == old(self).unit_count(u) by {
                        if old(self).has_unit(u) {
                            let j = old(self).unit_index(u);
                            assert(0 <= j < old(self).keys@.len() && old(self).keys@[j]@ == u);
                            old(self).lemma_unit_index_agrees(u, j);
                            self.lemma_unit_index_agrees(u, j);
                        } else {
                            assert(!self.has_unit(u));
                        }
                    }
                }
                return ;
            }
            i += 1;
        }
        let ghost pre = *self;
        self.keys.push(unit.clone());
        self.counts.push(1);
        self.total = self.total + 1;
        proof {
            lemma_sum_counts_push(pre.counts@, 1);
            let m = pre.keys@.len() as int;
            assert(self.keys@[m]@ == unit@);
            assert forall|p: int, q: int|
                0 <= p < q < self.keys@.len() implies self.keys@[p]@ != self.keys@[q]@ by {
                if q == m {
                    assert(self.keys@[p]@ == pre.keys@[p]@);
                } else {
                    assert(pre.keys@[p]@ != pre.keys@[q]@);
                }
            }
            assert(!pre.has_unit(unit@));
            self.lemma_unit_index_agrees(unit@, m);
            assert forall|u: Seq<char>|
                u != unit@ implies self.unit_count(u) == pre.unit_count(u) by {
                if pre.has_unit(u) {
                    let j = pre.unit_index(u);
                    assert(0 <= j < pre.keys@.len() && pre.keys@[j]@ == u);
                    pre.lemma_unit_index_agrees(u, j);
                    self.lemma_unit_index_agrees(u, j);
                } else {
                    if self.has_unit(u) {
                        let j = self.unit_index(u);
                        assert(0 <= j < self.keys@.len() && self.keys@[j]@ == u);
                        assert(j == m ==> u == unit@);
                        assert(j < m ==> pre.has_unit(u));
                    }
                }
            }
        }
    }

    /// The running total, which equals the sum of all stored counts.
    pub fn total(&self) -> (r: u64)
        requires
            self.wf(),
        ensures
            r == self.spec_total(),
            r == sum_counts(self.counts@),
    {
        self.total
    }

    /// The stored counts, one per distinct unit, in insertion order.
    pub fn counts(&self) -> (r: &Vec<u64>)
        ensures
            r@ == self.counts@,
    {
        &self.counts
    }
}

/// Bin a sequence of text units: each unit's count becomes its number of
/// occurrences in the input, and the total is the number of units.
pub fn bins_of_units(units: &Vec<String>) -> (h: SymbolHistogram)
    ensures
        h.wf(),
        h.spec_total() == units@.len(),
        forall|u: Seq<char>| h.unit_count(u) == unit_occurrences(units.deep_view(), u),
{
    let mut h = SymbolHistogram::new();
    let n: usize = units.len();
    let mut i: usize = 0;
    while i < n
        invariant
            h.wf(),
            n == units@.len(),
            i <= n,
            h.spec_total() == i,
            forall|u: Seq<char>|
                h.unit_count(u) == unit_occurrences(units.deep_view().subrange(0, i as int), u),
        decreases n - i,
    {
        let ghost hp = h;
        h.observe(&units[i]);
        proof {
            let dv = units.deep_view();
            let prefix = dv.subrange(0, i as int);
            let extended = dv.subrange(0, (i + 1) as int);
            assert(extended.drop_last() =~= prefix);
            assert(extended.last() == dv[i as int]);
            assert(dv[i as int] == units@[i as int]@);
            assert forall|u: Seq<char>|
                h.unit_count(u) == unit_occurrences(extended, u) by {
                if u == dv[i as int] {
                    assert(h.unit_count(u) == hp.unit_count(u) + 1);
                } else {
                    assert(h.unit_count(u) == hp.unit_count(u));
                }
            }
        }
        i += 1;
    }
    proof {
        assert(units.deep_view().subrange(0, n as int) =~= units.deep_view());
    }
    h
}

/// Bin the text units (extended grapheme clusters) of a string. The total
/// is the number of units; an empty string yields an empty histogram.
pub fn bins_of_string(instr: String) -> (h: SymbolHistogram)
    ensures
        h.wf(),
        forall|u: Seq<char>| h.unit_count(u) == unit_occurrences(graphemes_of(instr@), u),
        h.spec_total() == graphemes_of(instr@).len(),
        graphemes_of(instr@).flatten() == instr@,
        instr@.len() == 0 ==> h.spec_total() == 0,
{
    let units = split_text_units(instr.as_str());
    proof {
        let dv = units.deep_view();
        assert forall|i: int| 0 <= i < dv.len() implies dv[i].len() > 0 by {
            assert(dv[i] == units@[i]@);
        }
        lemma_unit_count_le_char_count(dv);
    }
    bins_of_units(&units)
}

/// For a single-byte character, matching the character and matching its
/// byte are the same test.
proof fn lemma_ascii_char_byte_iff(c: char, b: u8)
    requires
        c as u32 <= 127,
    ensures
        (c as u8 == b) <==> (c == b as char),
{
}

/// Text/byte agreement on plain ASCII: when every text unit of an input is
/// one single-byte character, the text-unit occurrence counts and the byte
/// occurrence counts coincide bucket for bucket, so the two pipelines see
/// the same distribution.
pub proof fn lemma_ascii_units_match_bytes(
    chars: Seq<char>,
    units: Seq<Seq<char>>,
    bytes: Seq<u8>,
)
    requires
        units.len() == chars.len(),
        bytes.len() == chars.len(),
        forall|i: int| 0 <= i < chars.len() ==> units[i] == seq![chars[i]],
        forall|i: int| 0 <= i < chars.len() ==> chars[i] as u32 <= 127,
        forall|i: int| 0 <= i < chars.len() ==> bytes[i] == chars[i] as u8,
    ensures
        forall|b: u8| unit_occurrences(units, seq![b as char]) == byte_count(bytes, b),
    decreases chars.len(),
{
    if chars.len() > 0 {
        let cs = chars.drop_last();
        let us = units.drop_last();
        let bs = bytes.drop_last();
        assert forall|i: int| 0 <= i < cs.len() implies us[i] == seq![cs[i]] && cs[i] as u32
            <= 127 && bs[i] == cs[i] as u8 by {
            assert(us[i] == units[i]);
            assert(cs[i] == chars[i]);
            assert(bs[i] == bytes[i]);
        }
        lemma_ascii_units_match_bytes(cs, us, bs);
        let lastc = chars.last();
        assert(units.last() == seq![lastc]);
        assert(bytes.last() == lastc as u8);
        assert forall|b: u8|
            unit_occurrences(units, seq![b as char]) == byte_count(bytes, b) by {
            assert(unit_occurrences(us, seq![b as char]) == byte_count(bs, b));
            assert(lastc == chars[chars.len() - 1]);
            assert(lastc as u32 <= 127);
            lemma_ascii_char_byte_iff(lastc, b);
            if lastc as u8 == b {
                assert(lastc == b as char);
                assert(units.last() == seq![b as char]);
            } else {
                if units.last() == seq![b as char] {
                    assert(seq![lastc][0] == lastc);
                    assert(seq![b as char][0] == b as char);
                    assert(lastc == b as char);
                    assert(lastc as u8 == b);
                }
            }
        }
    } else {
        assert forall|b: u8|
            unit_occurrences(units, seq![b as char]) == byte_count(bytes, b) by {
            assert(units.len() == 0);
            assert(bytes.len() == 0);
        }
    }
}

} // verus!
