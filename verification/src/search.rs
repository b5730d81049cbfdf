//! First-match search: the earliest index in a byte slice holding a given
//! byte. The scan works block by block over fixed-width lanes with a scalar
//! pass over the remainder; the block width is a performance parameter only
//! and leftmost-match semantics hold regardless.

use vstd::prelude::*;

verus! {

/// Width of one comparison block, in bytes.
pub const MATCH_BLOCK_WIDTH: usize = 16;

/// Index of the first occurrence of `target` in `s`, if any.
pub open spec fn spec_find_first_match(s: Seq<u8>, target: u8) -> Option<int>
    decreases s.len(),
{
    if s.len() <= 0 {
        None
    } else if s[0] == target {
        Some(0)
    } else {
        match spec_find_first_match(s.skip(1), target) {
            None => None,
            Some(i) => Some(i + 1),
        }
    }
}

/// Leftmost-match law: when [`spec_find_first_match`] finds an index, that
/// index holds the target and every smaller index does not, and when it finds
/// none, no index holds the target.
pub proof fn lemma_find_first_match_leftmost(s: Seq<u8>, target: u8)
    ensures
        match spec_find_first_match(s, target) {
            Some(i) => 0 <= i < s.len() && s[i] == target && forall|j: int| 0 <= j < i ==> s[j] != target,
            None => forall|j: int| 0 <= j < s.len() ==> s[j] != target,
        },
    decreases s.len(),
{
    if s.len() > 0 && s[0] != target {
        lemma_find_first_match_leftmost(s.skip(1), target);
        assert(forall|j: int| 1 <= j < s.len() ==> s[j] == s.skip(1)[j - 1]);
    }
}

/// Converse direction: a scan that found the target at `i` after ruling out
/// every smaller index pins the value of [`spec_find_first_match`].
proof fn lemma_match_at(s: Seq<u8>, target: u8, i: int)
    requires
        0 <= i < s.len(),
        s[i] == target,
        forall|j: int| 0 <= j < i ==> s[j] != target,
    ensures
        spec_find_first_match(s, target) == Some(i),
    decreases s.len(),
{
    if i > 0 {
        assert(forall|j: int| 1 <= j < s.len() ==> s[j] == s.skip(1)[j - 1]);
        lemma_match_at(s.skip(1), target, i - 1);
    }
}

/// Converse direction: a scan that ruled out every index pins the value
/// `None`.
proof fn lemma_no_match(s: Seq<u8>, target: u8)
    requires
        forall|j: int| 0 <= j < s.len() ==> s[j] != target,
    ensures
        spec_find_first_match(s, target) is None,
    decreases s.len(),
{
    if s.len() > 0 {
        assert(forall|j: int| 1 <= j < s.len() ==> s[j] == s.skip(1)[j - 1]);
        lemma_no_match(s.skip(1), target);
    }
}

/// Leftmost occurrence of `target` within `sequence[start..end)`, scanning
/// one byte at a time.
fn scan_range(sequence: &[u8], target: u8, start: usize, end: usize) -> (r: Option<usize>)
    requires
        start <= end <= sequence@.len(),
    ensures
        match r {
            Some(i) => start <= i < end && sequence@[i as int] == target
                && forall|j: int| start <= j < i ==> sequence@[j] != target,
            None => forall|j: int| start <= j < end ==> sequence@[j] != target,
        },
{
    let mut i: usize = start;
    while i < end
        invariant
            start <= i <= end <= sequence@.len(),
            forall|j: int| start <= j < i ==> sequence@[j] != target,
        decreases end - i,
    {
        if sequence[i] == target {
            return Some(i);
        }
        i = i + 1;
    }
    None
}

/// The earliest index in `sequence` equal to `target`, or `None` when no
/// byte matches: exactly [`spec_find_first_match`]. Full blocks of
/// [`MATCH_BLOCK_WIDTH`] lanes are examined first, then the remainder is
/// scanned one byte at a time.
pub fn find_first_match(sequence: &[u8], target: u8) -> (r: Option<usize>)
    ensures
        match r {
            Some(i) => spec_find_first_match(sequence@, target) == Some(i as int),
            None => spec_find_first_match(sequence@, target) is None,
        },
        match r {
            Some(i) => i < sequence@.len() && sequence@[i as int] == target
                && forall|j: int| 0 <= j < i ==> sequence@[j] != target,
            None => forall|j: int| 0 <= j < sequence@.len() ==> sequence@[j] != target,
        },
{
    let len = sequence.len();
    let mut block_start: usize = 0;
    while MATCH_BLOCK_WIDTH <= len - block_start
        invariant
            block_start <= len == sequence@.len(),
            forall|j: int| 0 <= j < block_start ==> sequence@[j] != target,
        decreases len - block_start,
    {
        if let Some(i) = scan_range(sequence, target, block_start, block_start + MATCH_BLOCK_WIDTH) {
            proof {
                lemma_match_at(sequence@, target, i as int);
            }
            return Some(i);
        }
        block_start = block_start + MATCH_BLOCK_WIDTH;
    }
    let r = scan_range(sequence, target, block_start, len);
    proof {
        match r {
            Some(i) => lemma_match_at(sequence@, target, i as int),
            None => lemma_no_match(sequence@, target),
        }
    }
    r
}

} // verus!
