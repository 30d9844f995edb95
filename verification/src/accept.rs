//! The acceptance predicate: decides which characters participate in windows.
//!
//! A character is accepted when its code point lies strictly between the two
//! bounds below (the CJK Unified Ideographs block together with its adjoining
//! reserved region), or when it is a member of the user-supplied extra set.
//! The extra set is built by discarding every character the ideographic branch
//! already covers, so the two branches never overlap.

use vstd::prelude::*;

verus! {

/// Exclusive lower bound of the ideographic code-point range.
pub const IDEO_LOW: u32 = 0x4DFF;

/// Exclusive upper bound of the ideographic code-point range.
pub const IDEO_HIGH: u32 = 0xA000;

/// A character the windowing logic always accepts, independently of the
/// extra set.
pub open spec fn spec_is_ideograph(c: char) -> bool {
    IDEO_LOW < (c as u32) && (c as u32) < IDEO_HIGH
}

/// A character participates in windows when it is ideographic or a member of
/// the extra set.
pub open spec fn spec_accepted(c: char, extra: Seq<char>) -> bool {
    spec_is_ideograph(c) || extra.contains(c)
}

/// Membership test in the extra-character set.
pub fn contains_char(extra: &Vec<char>, c: char) -> (r: bool)
    ensures
        r == extra@.contains(c),
{
    let mut i: usize = 0;
    while i < extra.len()
        invariant
            i <= extra@.len(),
            forall|k: int| 0 <= k < i ==> extra@[k] != c,
        decreases extra@.len() - i,
    {
        if extra[i] == c {
            return true;
        }
        i = i + 1;
    }
    false
}

/// Decides whether `c` participates in windows for the given extra set.
pub fn accepted(c: char, extra: &Vec<char>) -> (r: bool)
    ensures
        r == spec_accepted(c, extra@),
{
    if IDEO_LOW < c as u32 && (c as u32) < IDEO_HIGH {
        true
    } else {
        contains_char(extra, c)
    }
}

} // verus!
