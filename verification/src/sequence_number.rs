//! 16-bit sequence numbers with wraparound-aware comparison.

use vstd::prelude::*;

verus! {

/// A 16-bit sequence number. Incremented only by the originating router;
/// comparison wraps around so that a small number can be newer than a
/// large one.
#[derive(Clone, Copy, Debug, PartialEq, Eq, Structural)]
pub struct SeqNo {
    pub value: u16,
}

/// `a` is newer than `b` iff `(a - b) mod 2^16` lies strictly between
/// 0 and 2^15. A distance of exactly 2^15 is the ambiguous boundary:
/// neither number is newer than the other.
pub open spec fn seqno_newer(a: u16, b: u16) -> bool {
    0 < (a - b) % 65536 < 32768
}

impl SeqNo {
    pub fn new(value: u16) -> (r: SeqNo)
        ensures
            r.value == value,
    {
        SeqNo { value }
    }

    /// Wraparound-aware comparison: does `self` supersede `other`?
    pub fn newer_than(self, other: SeqNo) -> (r: bool)
        ensures
            r == seqno_newer(self.value, other.value),
    {
        let diff: u32 = (self.value as u32 + 65536 - other.value as u32) % 65536;
        proof {
            let a = self.value as int;
            let b = other.value as int;
            assert((a + 65536 - b) % 65536 == (a - b) % 65536) by {
                if a >= b {
                    assert((a - b) % 65536 == a - b);
                    assert((a + 65536 - b) % 65536 == a - b);
                } else {
                    assert((a - b) % 65536 == a - b + 65536);
                    assert((a + 65536 - b) % 65536 == a - b + 65536);
                }
            }
        }
        0 < diff && diff < 32768
    }
}

/// No two distinct sequence numbers are each newer than the other, and a
/// number is never newer than itself: the wraparound comparison cannot
/// declare both directions newer.
pub proof fn lemma_seqno_newer_antisymmetric(a: u16, b: u16)
    ensures
        !(seqno_newer(a, b) && seqno_newer(b, a)),
        !seqno_newer(a, a),
{
    if a != b {
        let d = (a - b) % 65536;
        assert((b - a) % 65536 == 65536 - d);
    }
}

} // verus!
