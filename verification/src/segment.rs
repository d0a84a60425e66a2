//! Splitting a string into its text units: the user-perceived characters
//! (extended grapheme clusters), delivered in input order. The segmentation
//! itself comes from an outside Unicode library; everything downstream is
//! verified against the properties stated here.

use unicode_segmentation::UnicodeSegmentation;
use vstd::prelude::*;

verus! {

/// The text units of a character sequence: its extended grapheme clusters,
/// in input order. The clusters are a pure function of the characters; this
/// name stands for that function without spelling out the Unicode
/// segmentation rules.
pub uninterp spec fn graphemes_of(s: Seq<char>) -> Seq<Seq<char>>;

/// Relies on unicode_segmentation::UnicodeSegmentation::graphemes with
/// extended cluster rules (UAX #29): the clusters depend on the characters
/// alone, are each nonempty, and are consecutive substrings whose
/// concatenation is exactly the input.
#[verifier::external_body]
pub(crate) fn split_text_units(s: &str) -> (units: Vec<String>)
    ensures
        units.deep_view() == graphemes_of(s@),
        units.deep_view().flatten() == s@,
        forall|i: int| 0 <= i < units@.len() ==> units@[i]@.len() > 0,
{
    s.graphemes(true).map(|g| g.to_string()).collect()
}

/// Every nonempty unit contributes at least one character, so a string has
/// at least as many characters as units; in particular the empty string has
/// no units.
pub proof fn lemma_unit_count_le_char_count(units: Seq<Seq<char>>)
    requires
        forall|i: int| 0 <= i < units.len() ==> units[i].len() > 0,
    ensures
        units.flatten().len() >= units.len(),
    decreases units.len(),
{
    if units.len() > 0 {
        assert(units.flatten() == units.first().add(units.drop_first().flatten()));
        assert(units.first().len() > 0);
        assert forall|i: int| 0 <= i < units.drop_first().len() implies units.drop_first()[i].len()
            > 0 by {
            assert(units.drop_first()[i] == units[i + 1]);
        }
        lemma_unit_count_le_char_count(units.drop_first());
    }
}

} // verus!
