//! What holds of the depths that `rain` gives where the rain overtops the
//! profile: every position holds its share over the length of the profile.
use vstd::prelude::*;
use crate::depth::Depth;
use crate::profile::{capacity, highest, highest_in, room_in, share};

verus! {

/// Sum of the shares of the first `k` positions.
pub open spec fn shares_upto(s: Seq<usize>, hours: int, k: int) -> int
    decreases k,
{
    if k <= 0 {
        0
    } else {
        shares_upto(s, hours, k - 1) + share(s, hours, k - 1)
    }
}

proof fn lemma_highest_above(s: Seq<usize>, lo: int, hi: int)
    ensures
        forall|j: int| lo <= j < hi ==> #[trigger] s[j] <= highest_in(s, lo, hi),
        0 <= highest_in(s, lo, hi),
    decreases hi - lo,
{
    if hi > lo {
        lemma_highest_above(s, lo, hi - 1);
    }
}

proof fn lemma_shares_upto(s: Seq<usize>, hours: int, k: int)
    requires
        0 <= k <= s.len(),
    ensures
        shares_upto(s, hours, k) == s.len() * room_in(s, highest(s), 0, k) + k * (hours * s.len()
            - capacity(s)),
    decreases k,
{
    if k > 0 {
        lemma_shares_upto(s, hours, k - 1);
        let n = s.len() as int;
        let a = room_in(s, highest(s), 0, k - 1);
        let b = highest(s) - s[k - 1];
        let c = hours * n - capacity(s);
        assert(shares_upto(s, hours, k) == shares_upto(s, hours, k - 1) + share(s, hours, k - 1));
        assert(share(s, hours, k - 1) == b * n + c);
        assert(room_in(s, highest(s), 0, k) == a + b);
        assert(n * a + (k - 1) * c + (b * n + c) == n * (a + b) + k * c) by (nonlinear_arith);
        assert(shares_upto(s, hours, k) == n * room_in(s, highest(s), 0, k) + k * c);
    } else {
        let n = s.len() as int;
        let c = hours * n - capacity(s);
        let a = room_in(s, highest(s), 0, k);
        assert(a == 0);
        assert(n * a + k * c == 0) by (nonlinear_arith)
            requires
                a == 0,
                k == 0,
        ;
    }
}

/// When the rain overtops the profile, `rain` gives each position its share
/// over the common denominator `n`, the length of the profile. The shares add
/// up to `hours * n * n`: the depths add up to all the rain that fell,
/// `hours * n`.
pub proof fn overtopped_rain_is_conserved(hours: int, s: Seq<usize>)
    ensures
        shares_upto(s, hours, s.len() as int) == hours * s.len() * s.len(),
{
    lemma_shares_upto(s, hours, s.len() as int);
    let n = s.len() as int;
    assert(n * capacity(s) + n * (hours * n - capacity(s)) == hours * n * n) by (nonlinear_arith);
}

/// Where the rain overtops the profile, no depth that `rain` gives is
/// negative.
pub proof fn overtopped_depths_are_not_negative(hours: usize, s: Seq<usize>, r: Seq<Depth>)
    requires
        r.len() == s.len(),
        forall|q: int| 0 <= q < r.len() ==> r[q].wf(),
        capacity(s) <= hours * s.len(),
        forall|q: int| 0 <= q < r.len() ==> #[trigger] r[q].equals(share(s, hours as int, q), s.len() as int),
    ensures
        forall|q: int| 0 <= q < r.len() ==> #[trigger] r[q].num >= 0,
{
    lemma_highest_above(s, 0, s.len() as int);
    assert forall|q: int| 0 <= q < r.len() implies #[trigger] r[q].num >= 0 by {
        let n = s.len() as int;
        let y = share(s, hours as int, q);
        assert(s[q] <= highest(s));
        assert(0 <= (highest(s) - s[q]) * n) by (nonlinear_arith)
            requires
                s[q] <= highest(s),
                0 <= n,
        ;
        assert(0 <= y);
        let d = r[q];
        assert(d.equals(y, n));
        assert(d.num >= 0) by (nonlinear_arith)
            requires
                d.num * n == y * d.den,
                0 <= y,
                d.den > 0,
                n > 0,
        ;
    }
}

/// Where the rain overtops a profile that reads the same both ways, the
/// depths that `rain` gives read the same both ways too.
pub proof fn overtopped_palindrome_is_mirrored(hours: usize, s: Seq<usize>, r: Seq<Depth>)
    requires
        r.len() == s.len(),
        forall|q: int| 0 <= q < r.len() ==> r[q].wf(),
        capacity(s) <= hours * s.len(),
        forall|q: int| 0 <= q < r.len() ==> #[trigger] r[q].equals(share(s, hours as int, q), s.len() as int),
        forall|q: int| 0 <= q < s.len() ==> #[trigger] s[q] == s[s.len() - 1 - q],
    ensures
        forall|q: int| 0 <= q < r.len() ==> #[trigger] r[q].same_as(r[r.len() - 1 - q]),
{
    assert forall|q: int| 0 <= q < r.len() implies #[trigger] r[q].same_as(r[r.len() - 1 - q]) by {
        let n = s.len() as int;
        let p = n - 1 - q;
        let y = share(s, hours as int, q);
        assert(s[q] == s[p]);
        assert(share(s, hours as int, p) == y);
        assert(r[q].equals(y, n));
        assert(r[p].equals(y, n));
        let (a, b, c, d) = (r[q].num as int, r[q].den as int, r[p].num as int, r[p].den as int);
        assert(a * d == c * b) by (nonlinear_arith)
            requires
                a * n == y * b,
                c * n == y * d,
                n > 0,
        ;
    }
}

} // verus!
