//! Construction of Euclidean rhythms by repeated pairing of groups.
//!
//! The steps start out as singleton groups, onsets first. Each round pairs
//! the first half of the groups with the second half, index by index, and
//! joins every pair into one longer group; an odd group out is carried over
//! unchanged at the end. When at most two groups are left they are joined
//! into the rhythm.
//!
//! The rhythm built this way always has the requested numbers of steps and
//! onsets. It is the outcome of this pairing rule and of no other: 7 over 16
//! comes out evenly spaced as `x.x.x.x.x.x.x...`, while 3 over 8 comes out as
//! `x.x.x...`, which is not the evenly spaced `x..x..x.`.

use vstd::prelude::*;
use vstd::multiset::Multiset;
use vstd::seq_lib::lemma_multiset_commutative;
use crate::rhythm::{
    lemma_onset_count_concat, lemma_onset_count_is_multiplicity, lemma_onset_count_uniform,
    onset_count, uniform,
};

verus! {

/// The starting order of the steps: `pulses` onsets followed by rests, up to
/// `steps` steps in all.
pub open spec fn initial_sequence(pulses: nat, steps: nat) -> Seq<bool> {
    Seq::new(steps, |i: int| i < pulses)
}

/// Every step of `r` as a group of its own.
pub open spec fn singleton_groups(r: Seq<bool>) -> Seq<Seq<bool>> {
    Seq::new(r.len(), |i: int| seq![r[i]])
}

/// One round of pairing. With `pairs` half the number of groups, rounded
/// down, group `i` of the result is group `i` followed by group `pairs + i`,
/// for every `i` below `pairs`. Where the number of groups is odd, the last
/// group follows unchanged.
pub open spec fn merge_round(bucket: Seq<Seq<bool>>) -> Seq<Seq<bool>> {
    let pairs = bucket.len() / 2;
    let paired = Seq::new(pairs, |i: int| bucket[i] + bucket[pairs + i]);
    if bucket.len() % 2 == 1 {
        paired.push(bucket.last())
    } else {
        paired
    }
}

/// The bucket after as many rounds of pairing as it takes to get down to at
/// most two groups.
pub open spec fn merge_rounds(bucket: Seq<Seq<bool>>) -> Seq<Seq<bool>>
    decreases bucket.len(),
{
    if bucket.len() > 2 {
        merge_rounds(merge_round(bucket))
    } else {
        bucket
    }
}

/// The rhythm that a bucket of at most two groups stands for: the first
/// group, followed by the second where there is one.
pub open spec fn assembled(bucket: Seq<Seq<bool>>) -> Seq<bool> {
    if bucket.len() == 0 {
        Seq::empty()
    } else if bucket.len() == 1 {
        bucket[0]
    } else {
        bucket[0] + bucket[1]
    }
}

/// The Euclidean rhythm of `pulses` onsets over `steps` steps.
///
/// More pulses than steps is not a rhythm, and is answered by the empty
/// sequence. No pulses gives all rests, as many pulses as steps gives all
/// onsets. Everything between is built by pairing.
pub open spec fn euclidean(pulses: nat, steps: nat) -> Seq<bool> {
    if pulses > steps {
        Seq::empty()
    } else if pulses == 0 {
        uniform(steps, false)
    } else if pulses == steps {
        uniform(steps, true)
    } else {
        assembled(merge_rounds(singleton_groups(initial_sequence(pulses, steps))))
    }
}

/// All the values held by the groups of a bucket, each as often as it occurs.
pub open spec fn contents(bucket: Seq<Seq<bool>>) -> Multiset<bool>
    decreases bucket.len(),
{
    if bucket.len() == 0 {
        Multiset::empty()
    } else {
        contents(bucket.drop_last()).add(bucket.last().to_multiset())
    }
}

/// The groups that a bucket holds, as sequences.
spec fn groups(bucket: Seq<Vec<bool>>) -> Seq<Seq<bool>> {
    Seq::new(bucket.len(), |i: int| bucket[i]@)
}

/// A rhythm of `steps` steps that all hold `value`.
fn uniform_rhythm(steps: usize, value: bool) -> (rhythm: Vec<bool>)
    ensures
        rhythm@ == uniform(steps as nat, value),
{
    let mut rhythm: Vec<bool> = Vec::new();
    let mut i: usize = 0;
    while i < steps
        invariant
            i <= steps,
            rhythm@ == uniform(i as nat, value),
        decreases steps - i,
    {
        rhythm.push(value);
        i += 1;
    }
    rhythm
}

/// The starting bucket: one singleton group for each step, onsets first.
fn initial_bucket(pulses: usize, steps: usize) -> (bucket: Vec<Vec<bool>>)
    ensures
        groups(bucket@) == singleton_groups(initial_sequence(pulses as nat, steps as nat)),
{
    let mut bucket: Vec<Vec<bool>> = Vec::new();
    let mut i: usize = 0;
    while i < steps
        invariant
            i <= steps,
            groups(bucket@) == singleton_groups(initial_sequence(pulses as nat, i as nat)),
        decreases steps - i,
    {
        let ghost before = groups(bucket@);
        let mut group: Vec<bool> = Vec::new();
        group.push(i < pulses);
        bucket.push(group);
        i += 1;
        assert(groups(bucket@) =~~= before.push(seq![i - 1 < pulses]));
        assert(before.push(seq![i - 1 < pulses]) =~~= singleton_groups(
            initial_sequence(pulses as nat, i as nat),
        ));
    }
    bucket
}

/// A copy of `first` followed by a copy of `second`.
fn joined(first: &Vec<bool>, second: &Vec<bool>) -> (group: Vec<bool>)
    ensures
        group@ == first@ + second@,
{
    let mut group: Vec<bool> = first.clone();
    group.extend_from_slice(second.as_slice());
    group
}

/// Carries out one round of pairing on `bucket`.
fn merged(bucket: &Vec<Vec<bool>>) -> (next_bucket: Vec<Vec<bool>>)
    ensures
        groups(next_bucket@) == merge_round(groups(bucket@)),
{
    let remainder = bucket.len() % 2;
    let pairs = bucket.len() / 2;
    let mut next_bucket: Vec<Vec<bool>> = Vec::new();
    let mut i: usize = 0;
    while i < pairs
        invariant
            i <= pairs,
            pairs == bucket.len() / 2,
            groups(next_bucket@) == Seq::new(
                i as nat,
                |k: int| bucket@[k]@ + bucket@[pairs + k]@,
            ),
        decreases pairs - i,
    {
        let ghost before = groups(next_bucket@);
        next_bucket.push(joined(&bucket[i], &bucket[pairs + i]));
        i += 1;
        assert(groups(next_bucket@) =~~= before.push(bucket@[i - 1]@ + bucket@[pairs + i - 1]@));
    }
    let ghost paired = groups(next_bucket@);
    if remainder == 1 {
        next_bucket.push(bucket[bucket.len() - 1].clone());
        assert(groups(next_bucket@) =~~= paired.push(bucket@.last()@));
    }
    assert(groups(next_bucket@) =~~= merge_round(groups(bucket@)));
    next_bucket
}

/// Generates the Euclidean rhythm of `pulses` onsets over `steps` steps.
///
/// A request for more pulses than steps cannot be met and is answered by the
/// empty rhythm. Note that the empty rhythm is also the rightful answer to a
/// request for no pulses over no steps.
pub fn euclidean_rhythm(pulses: usize, steps: usize) -> (rhythm: Vec<bool>)
    ensures
        rhythm@ == euclidean(pulses as nat, steps as nat),
        pulses > steps ==> rhythm@.len() == 0,
        pulses <= steps ==> rhythm@.len() == steps && onset_count(rhythm@) == pulses,
        pulses == 0 ==> rhythm@ == uniform(steps as nat, false),
        pulses == steps ==> rhythm@ == uniform(steps as nat, true),
{
    if pulses > steps {
        return Vec::new();
    }
    proof {
        lemma_euclidean_shape(pulses as nat, steps as nat);
    }
    if pulses == 0 {
        return uniform_rhythm(steps, false);
    }
    if pulses == steps {
        return uniform_rhythm(steps, true);
    }
    let mut bucket = initial_bucket(pulses, steps);
    let ghost start = groups(bucket@);
    while bucket.len() > 2
        invariant
            bucket.len() >= 1,
            merge_rounds(groups(bucket@)) == merge_rounds(start),
        decreases bucket.len(),
    {
        bucket = merged(&bucket);
        assert(bucket@.len() == groups(bucket@).len());
    }
    let mut rhythm = bucket[0].clone();
    if bucket.len() > 1 {
        rhythm.extend_from_slice(bucket[1].as_slice());
    }
    rhythm
}

/// The contents of two buckets put end to end are the contents of both.
proof fn lemma_contents_concat(a: Seq<Seq<bool>>, b: Seq<Seq<bool>>)
    ensures
        contents(a + b) == contents(a).add(contents(b)),
    decreases b.len(),
{
    broadcast use vstd::multiset::group_multiset_axioms;

    if b.len() == 0 {
        assert(a + b =~= a);
        assert(contents(a).add(contents(b)) =~= contents(a));
    } else {
        assert((a + b).drop_last() =~= a + b.drop_last());
        lemma_contents_concat(a, b.drop_last());
        assert(contents(a + b) =~= contents(a).add(contents(b)));
    }
}

/// Joining two buckets of equal length group by group keeps the contents of
/// both.
proof fn lemma_contents_paired(a: Seq<Seq<bool>>, b: Seq<Seq<bool>>)
    requires
        a.len() == b.len(),
    ensures
        contents(Seq::new(a.len(), |i: int| a[i] + b[i])) == contents(a).add(contents(b)),
    decreases a.len(),
{
    broadcast use vstd::multiset::group_multiset_axioms;

    let paired = Seq::new(a.len(), |i: int| a[i] + b[i]);
    if a.len() == 0 {
        assert(contents(paired) =~= contents(a).add(contents(b)));
    } else {
        let a0 = a.drop_last();
        let b0 = b.drop_last();
        assert(paired.drop_last() =~= Seq::new(a0.len(), |i: int| a0[i] + b0[i]));
        lemma_contents_paired(a0, b0);
        lemma_multiset_commutative(a.last(), b.last());
        assert(contents(paired) =~= contents(a).add(contents(b)));
    }
}

/// A round of pairing moves values between groups and neither adds nor drops
/// one.
pub proof fn lemma_merge_round_keeps_contents(bucket: Seq<Seq<bool>>)
    ensures
        contents(merge_round(bucket)) == contents(bucket),
{
    broadcast use vstd::multiset::group_multiset_axioms;

    let n = bucket.len() as int;
    let pairs = n / 2;
    let first = bucket.subrange(0, pairs);
    let second = bucket.subrange(pairs, 2 * pairs);
    let rest = bucket.subrange(2 * pairs, n);
    let paired = Seq::new(first.len(), |i: int| first[i] + second[i]);
    lemma_contents_paired(first, second);
    lemma_contents_concat(first, second);
    lemma_contents_concat(first + second, rest);
    lemma_contents_concat(paired, rest);
    assert(first + second + rest =~= bucket);
    assert(merge_round(bucket) =~= paired + rest);
}

/// Pairing down to at most two groups keeps the contents of the bucket and
/// leaves at least one group where it started with one.
pub proof fn lemma_merge_rounds_keeps_contents(bucket: Seq<Seq<bool>>)
    ensures
        contents(merge_rounds(bucket)) == contents(bucket),
        merge_rounds(bucket).len() <= 2,
        bucket.len() >= 1 ==> merge_rounds(bucket).len() >= 1,
    decreases bucket.len(),
{
    if bucket.len() > 2 {
        lemma_merge_round_keeps_contents(bucket);
        lemma_merge_rounds_keeps_contents(merge_round(bucket));
    }
}

/// Joining the last groups into a rhythm keeps their contents.
pub proof fn lemma_assembled_keeps_contents(bucket: Seq<Seq<bool>>)
    requires
        bucket.len() <= 2,
    ensures
        assembled(bucket).to_multiset() == contents(bucket),
{
    broadcast use vstd::multiset::group_multiset_axioms;

    if bucket.len() == 0 {
        assembled(bucket).to_multiset_ensures();
        assert(assembled(bucket).to_multiset() =~= contents(bucket));
    } else if bucket.len() == 1 {
        assert(contents(bucket.drop_last()) =~= Multiset::empty());
        assert(assembled(bucket).to_multiset() =~= contents(bucket));
    } else {
        let front = bucket.drop_last();
        assert(contents(front.drop_last()) =~= Multiset::empty());
        assert(contents(front) =~= bucket[0].to_multiset());
        lemma_multiset_commutative(bucket[0], bucket[1]);
        assert(assembled(bucket).to_multiset() =~= contents(bucket));
    }
}

/// Splitting a rhythm into singleton groups keeps its values.
pub proof fn lemma_singleton_groups_contents(r: Seq<bool>)
    ensures
        contents(singleton_groups(r)) == r.to_multiset(),
    decreases r.len(),
{
    broadcast use vstd::multiset::group_multiset_axioms;

    if r.len() == 0 {
        r.to_multiset_ensures();
        assert(r.to_multiset() =~= Multiset::empty());
    } else {
        let front = r.drop_last();
        assert(singleton_groups(r).drop_last() =~= singleton_groups(front));
        lemma_singleton_groups_contents(front);
        assert(front + seq![r.last()] =~= r);
        lemma_multiset_commutative(front, seq![r.last()]);
    }
}

/// The shape of every Euclidean rhythm: where the pulses fit into the steps,
/// it has exactly `steps` steps, of which exactly `pulses` are onsets.
pub proof fn lemma_euclidean_shape(pulses: nat, steps: nat)
    requires
        pulses <= steps,
    ensures
        euclidean(pulses, steps).len() == steps,
        onset_count(euclidean(pulses, steps)) == pulses,
{
    if pulses == 0 {
        lemma_onset_count_uniform(steps, false);
    } else if pulses == steps {
        lemma_onset_count_uniform(steps, true);
    } else {
        let start = initial_sequence(pulses, steps);
        let bucket = singleton_groups(start);
        let rhythm = euclidean(pulses, steps);
        lemma_singleton_groups_contents(start);
        lemma_merge_rounds_keeps_contents(bucket);
        lemma_assembled_keeps_contents(merge_rounds(bucket));
        rhythm.to_multiset_ensures();
        start.to_multiset_ensures();
        lemma_onset_count_is_multiplicity(rhythm);
        lemma_onset_count_is_multiplicity(start);
        assert(start =~= uniform(pulses, true) + uniform((steps - pulses) as nat, false));
        lemma_onset_count_concat(uniform(pulses, true), uniform((steps - pulses) as nat, false));
        lemma_onset_count_uniform(pulses, true);
        lemma_onset_count_uniform((steps - pulses) as nat, false);
    }
}

} // verus!
