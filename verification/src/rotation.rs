//! Cyclic left rotation of a rhythm.

use vstd::prelude::*;
use vstd::arithmetic::div_mod::{
    lemma_add_mod_noop, lemma_add_mod_noop_right, lemma_mod_bound, lemma_mod_self_0,
    lemma_mod_sub_multiples_vanish, lemma_mod_twice, lemma_small_mod,
};
use vstd::seq_lib::lemma_multiset_commutative;
use crate::rhythm::{lemma_onset_count_concat, onset_count};

verus! {

/// The rhythm `r` started `offset` steps later: the steps from position
/// `offset mod len` to the end, followed by the steps before that position.
/// The empty rhythm rotates to itself.
pub open spec fn rotated(r: Seq<bool>, offset: nat) -> Seq<bool> {
    if r.len() == 0 {
        Seq::empty()
    } else {
        let start = (offset % r.len()) as int;
        r.subrange(start, r.len() as int) + r.subrange(0, start)
    }
}

/// Rotates `rhythm` to the left by `rotation` steps, wrapping around. Any
/// `rotation` is accepted; it is reduced modulo the length of the rhythm.
pub fn rotate_rhythm(rhythm: &[bool], rotation: usize) -> (result: Vec<bool>)
    ensures
        result@ == rotated(rhythm@, rotation as nat),
        result@.len() == rhythm@.len(),
        onset_count(result@) == onset_count(rhythm@),
{
    proof {
        lemma_rotation_preserves_contents(rhythm@, rotation as nat);
    }
    let len = rhythm.len();
    if len == 0 {
        return Vec::new();
    }
    let start = rotation % len;
    let mut result: Vec<bool> = Vec::with_capacity(len);
    let mut i: usize = start;
    while i < len
        invariant
            len == rhythm@.len(),
            start <= i <= len,
            result@ == rhythm@.subrange(start as int, i as int),
        decreases len - i,
    {
        result.push(rhythm[i]);
        i += 1;
    }
    let mut j: usize = 0;
    while j < start
        invariant
            len == rhythm@.len(),
            j <= start < len,
            result@ == rhythm@.subrange(start as int, len as int) + rhythm@.subrange(0, j as int),
        decreases start - j,
    {
        result.push(rhythm[j]);
        j += 1;
    }
    result
}

/// Step `i` of a rotated rhythm is step `(i + offset) mod len` of the rhythm
/// it was rotated from.
pub proof fn lemma_rotated_index(r: Seq<bool>, offset: nat, i: int)
    requires
        0 <= i < r.len(),
    ensures
        rotated(r, offset).len() == r.len(),
        rotated(r, offset)[i] == r[(i + offset) % (r.len() as int)],
{
    let n = r.len() as int;
    let start = (offset as int) % n;
    lemma_add_mod_noop_right(i, offset as int, n);
    if i + start < n {
        lemma_small_mod((i + start) as nat, n as nat);
    } else {
        lemma_mod_sub_multiples_vanish(i + start, n);
        lemma_small_mod((i + start - n) as nat, n as nat);
    }
}

/// Rotation keeps the length of a rhythm and the values it holds, each as
/// often as before; in particular it keeps the number of onsets.
pub proof fn lemma_rotation_preserves_contents(r: Seq<bool>, offset: nat)
    ensures
        rotated(r, offset).len() == r.len(),
        rotated(r, offset).to_multiset() == r.to_multiset(),
        onset_count(rotated(r, offset)) == onset_count(r),
{
    if r.len() == 0 {
        assert(rotated(r, offset) =~= r);
    } else {
        let start = (offset % r.len()) as int;
        let head = r.subrange(0, start);
        let tail = r.subrange(start, r.len() as int);
        assert(head + tail =~= r);
        lemma_multiset_commutative(tail, head);
        lemma_multiset_commutative(head, tail);
        assert(tail.to_multiset().add(head.to_multiset()) =~= head.to_multiset().add(
            tail.to_multiset(),
        ));
        lemma_onset_count_concat(tail, head);
        lemma_onset_count_concat(head, tail);
    }
}

/// Rotations compose cyclically: rotating by `a` and then by `b` is rotating
/// by `a + b`.
pub proof fn lemma_rotation_composes(r: Seq<bool>, a: nat, b: nat)
    ensures
        rotated(rotated(r, a), b) == rotated(r, a + b),
{
    if r.len() > 0 {
        let n = r.len() as int;
        let once = rotated(r, a);
        assert(once.len() == n);
        assert forall|i: int| 0 <= i < n implies rotated(once, b)[i] == rotated(r, a + b)[i] by {
            let mid = (i + b) % n;
            lemma_mod_bound(i + b, n);
            lemma_rotated_index(once, b, i);
            lemma_rotated_index(r, a, mid);
            lemma_rotated_index(r, a + b, i);
            assert((mid + a) % n == (i + (a + b)) % n) by {
                lemma_add_mod_noop(i + b, a as int, n);
                lemma_add_mod_noop(mid, a as int, n);
                lemma_mod_twice(i + b, n);
            }
        }
        assert(rotated(once, b) =~= rotated(r, a + b));
    }
}

/// Rotating a rhythm by its own length (or by 0) gives the rhythm back.
pub proof fn lemma_rotation_full_cycle(r: Seq<bool>)
    ensures
        rotated(r, r.len()) == r,
        rotated(r, 0) == r,
{
    if r.len() > 0 {
        lemma_mod_self_0(r.len() as int);
        lemma_small_mod(0, r.len());
    }
    assert(rotated(r, r.len()) =~= r);
    assert(rotated(r, 0) =~= r);
}

} // verus!
