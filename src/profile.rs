//! A terrain profile: its highest height, the room below it, and where the
//! rain overtops it.
use vstd::prelude::*;

verus! {

/// Largest height, number of hours and number of positions that the exact
/// bookkeeping of `rain` carries in 128 bits.
pub const LIMIT: u64 = 0xffff_ffff;

/// The inputs that `rain` accepts.
pub open spec fn within_limits(hours: usize, heights: Seq<usize>) -> bool {
    &&& heights.len() <= LIMIT
    &&& hours <= LIMIT
    &&& forall|i: int| 0 <= i < heights.len() ==> heights[i] <= LIMIT
}

/// All heights are the same.
pub open spec fn level(heights: Seq<usize>) -> bool {
    forall|i: int| 0 <= i < heights.len() ==> #[trigger] heights[i] == heights[0]
}

/// Highest of the heights in `s[lo..hi]` (0 for none).
pub open spec fn highest_in(s: Seq<usize>, lo: int, hi: int) -> int
    decreases hi - lo,
{
    if hi <= lo {
        0
    } else {
        let m = highest_in(s, lo, hi - 1);
        if m >= s[hi - 1] as int { m } else { s[hi - 1] as int }
    }
}

/// Room below `top` over `s[lo..hi]`.
pub open spec fn room_in(s: Seq<usize>, top: int, lo: int, hi: int) -> int
    decreases hi - lo,
{
    if hi <= lo {
        0
    } else {
        room_in(s, top, lo, hi - 1) + (top - s[hi - 1])
    }
}

/// `i` is the last position of the highest height in `s[lo..hi]`.
pub open spec fn is_last_peak_in(s: Seq<usize>, lo: int, hi: int, i: int) -> bool {
    &&& lo <= i < hi
    &&& forall|j: int| lo <= j < hi ==> #[trigger] s[j] <= s[i]
    &&& forall|j: int| i < j < hi ==> #[trigger] s[j] < s[i]
}

/// Highest height of the profile.
pub open spec fn highest(s: Seq<usize>) -> int {
    highest_in(s, 0, s.len() as int)
}

/// Water that the profile holds below its highest height.
pub open spec fn capacity(s: Seq<usize>) -> int {
    room_in(s, highest(s), 0, s.len() as int)
}

/// What position `q` holds, over the denominator `s.len()`, when the rain
/// overtops the profile: its room below the highest height, and an equal part
/// of the water above that height.
pub open spec fn share(s: Seq<usize>, hours: int, q: int) -> int {
    (highest(s) - s[q]) * s.len() + hours * s.len() - capacity(s)
}

/// `i` is the last position of the highest height of the profile.
pub open spec fn is_last_peak(s: Seq<usize>, i: int) -> bool {
    is_last_peak_in(s, 0, s.len() as int, i)
}

pub(crate) proof fn lemma_highest_below(s: Seq<usize>, lo: int, hi: int, m: int)
    requires
        0 <= m,
        forall|j: int| lo <= j < hi ==> #[trigger] s[j] <= m,
    ensures
        highest_in(s, lo, hi) <= m,
    decreases hi - lo,
{
    if hi > lo {
        lemma_highest_below(s, lo, hi - 1, m);
    }
}

/// A height that no other in the range exceeds is the highest of the range.
pub(crate) proof fn lemma_highest_is(s: Seq<usize>, lo: int, hi: int, k: int)
    requires
        lo <= k < hi,
        forall|j: int| lo <= j < hi ==> #[trigger] s[j] <= s[k],
    ensures
        highest_in(s, lo, hi) == s[k],
    decreases hi - lo,
{
    if hi - 1 == k {
        lemma_highest_below(s, lo, hi - 1, s[k] as int);
    } else {
        lemma_highest_is(s, lo, hi - 1, k);
    }
}

} // verus!
