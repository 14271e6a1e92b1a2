//! The mathematical model of a rhythm and the facts about counting onsets
//! that the rest of the library builds on.

use vstd::prelude::*;

verus! {

/// Number of onsets (`true` entries) in a rhythm.
pub open spec fn onset_count(r: Seq<bool>) -> nat
    decreases r.len(),
{
    if r.len() == 0 {
        0
    } else {
        onset_count(r.drop_last()) + if r.last() { 1nat } else { 0nat }
    }
}

/// A rhythm of `n` steps that all hold the same value.
pub open spec fn uniform(n: nat, value: bool) -> Seq<bool> {
    Seq::new(n, |i: int| value)
}

/// Counting onsets distributes over concatenation.
pub proof fn lemma_onset_count_concat(a: Seq<bool>, b: Seq<bool>)
    ensures
        onset_count(a + b) == onset_count(a) + onset_count(b),
    decreases b.len(),
{
    if b.len() == 0 {
        assert(a + b =~= a);
    } else {
        assert((a + b).drop_last() =~= a + b.drop_last());
        lemma_onset_count_concat(a, b.drop_last());
    }
}

/// A uniform rhythm of rests has no onset; one of onsets has as many onsets
/// as steps.
pub proof fn lemma_onset_count_uniform(n: nat, value: bool)
    ensures
        onset_count(uniform(n, value)) == if value { n } else { 0 },
    decreases n,
{
    if n > 0 {
        assert(uniform(n, value).drop_last() =~= uniform((n - 1) as nat, value));
        lemma_onset_count_uniform((n - 1) as nat, value);
    }
}

/// The number of onsets is the number of times `true` occurs among the
/// values of the rhythm.
pub proof fn lemma_onset_count_is_multiplicity(r: Seq<bool>)
    ensures
        onset_count(r) == r.to_multiset().count(true),
    decreases r.len(),
{
    broadcast use vstd::multiset::group_multiset_axioms;

    if r.len() == 0 {
        r.to_multiset_ensures();
        assert(r.to_multiset().len() == 0);
    } else {
        let front = r.drop_last();
        lemma_onset_count_is_multiplicity(front);
        front.to_multiset_ensures();
        assert(front.push(r.last()) =~= r);
    }
}

} // verus!
