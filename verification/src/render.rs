//! Rhythms as text: one character for each step.

use vstd::prelude::*;
use vstd::string::StringExecFns;

verus! {

/// The character that stands for a step: `x` for an onset, `.` for a rest.
pub open spec fn step_char(onset: bool) -> char {
    if onset {
        'x'
    } else {
        '.'
    }
}

/// The text of a rhythm: the characters of its steps, in order.
pub open spec fn rendered(r: Seq<bool>) -> Seq<char> {
    Seq::new(r.len(), |i: int| step_char(r[i]))
}

/// Writes `rhythm` as a string of `x` (onset) and `.` (rest), one character
/// for each step, first step first.
pub fn rhythm_to_string(rhythm: &[bool]) -> (text: String)
    ensures
        text@ == rendered(rhythm@),
{
    let mut text = String::new();
    let mut i: usize = 0;
    while i < rhythm.len()
        invariant
            i <= rhythm@.len(),
            text@ == rendered(rhythm@.subrange(0, i as int)),
        decreases rhythm@.len() - i,
    {
        proof {
            reveal_strlit("x");
            reveal_strlit(".");
        }
        if rhythm[i] {
            text.append("x");
        } else {
            text.append(".");
        }
        i += 1;
        assert(text@ =~= rendered(rhythm@.subrange(0, i as int)));
    }
    assert(rhythm@.subrange(0, i as int) =~= rhythm@);
    text
}

} // verus!
