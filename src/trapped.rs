//! The volume that a profile holds when rain never stops.
use vstd::prelude::*;

verus! {

/// Highest of the first `k` heights (0 for none).
pub open spec fn max_before(s: Seq<usize>, k: int) -> int
    decreases k,
{
    if k <= 0 {
        0
    } else {
        let m = max_before(s, k - 1);
        if m >= s[k - 1] as int { m } else { s[k - 1] as int }
    }
}

/// Highest of the heights from position `k` to the end (0 for none).
pub open spec fn max_from(s: Seq<usize>, k: int) -> int
    decreases s.len() - k,
{
    if k >= s.len() || k < 0 {
        0
    } else {
        let m = max_from(s, k + 1);
        if m >= s[k] as int { m } else { s[k] as int }
    }
}

/// Water standing over position `i`: the lower of the two highest walls
/// around it (itself included), less its own height.
pub open spec fn water_at(s: Seq<usize>, i: int) -> int {
    let l = max_before(s, i + 1);
    let r = max_from(s, i);
    (if l <= r { l } else { r }) - s[i] as int
}

/// Water standing over the first `k` positions.
pub open spec fn trapped_upto(s: Seq<usize>, k: int) -> int
    decreases k,
{
    if k <= 0 {
        0
    } else {
        trapped_upto(s, k - 1) + water_at(s, k - 1)
    }
}

/// Water that the whole profile holds at unlimited supply.
pub open spec fn trapped_total(s: Seq<usize>) -> int {
    trapped_upto(s, s.len() as int)
}

proof fn lemma_max_before_bounds(s: Seq<usize>, k: int)
    requires
        0 <= k <= s.len(),
    ensures
        forall|j: int| 0 <= j < k ==> s[j] as int <= max_before(s, k),
        0 <= max_before(s, k),
    decreases k,
{
    if k > 0 {
        lemma_max_before_bounds(s, k - 1);
    }
}

proof fn lemma_max_from_bounds(s: Seq<usize>, k: int)
    requires
        0 <= k <= s.len(),
    ensures
        forall|j: int| k <= j < s.len() ==> s[j] as int <= max_from(s, k),
        0 <= max_from(s, k),
    decreases s.len() - k,
{
    if k < s.len() {
        lemma_max_from_bounds(s, k + 1);
    }
}

proof fn lemma_water_nonneg(s: Seq<usize>, i: int)
    requires
        0 <= i < s.len(),
    ensures
        0 <= water_at(s, i),
{
    lemma_max_before_bounds(s, i + 1);
    lemma_max_from_bounds(s, i);
}

proof fn lemma_trapped_monotone(s: Seq<usize>, j: int, k: int)
    requires
        0 <= j <= k <= s.len(),
    ensures
        trapped_upto(s, j) <= trapped_upto(s, k),
    decreases k - j,
{
    if j < k {
        lemma_trapped_monotone(s, j, k - 1);
        lemma_water_nonneg(s, k - 1);
    }
}

/// Trapped rain water: the volume held by the profile `it` at unlimited
/// supply, from a running maximum taken from each end.
pub fn rained(it: &[usize]) -> (r: usize)
    requires
        trapped_total(it@) <= usize::MAX,
    ensures
        r == trapped_total(it@),
{
    let n = it.len();
    // left[i]: highest of it[0..=i]; right[j]: highest of it[n-1-j..]
    let mut left: Vec<usize> = Vec::with_capacity(n);
    let mut right: Vec<usize> = Vec::with_capacity(n);
    let mut i: usize = 0;
    while i < n
        invariant
            i <= n,
            n == it@.len(),
            left@.len() == i,
            right@.len() == i,
            forall|k: int| 0 <= k < i ==> left@[k] as int == max_before(it@, k + 1),
            forall|k: int| 0 <= k < i ==> right@[k] as int == max_from(it@, n - 1 - k),
        decreases n - i,
    {
        let last_left: usize = if i == 0 { 0 } else { left[i - 1] };
        let l = it[i];
        assert(last_left as int == max_before(it@, i as int));
        assert(max_before(it@, i + 1) == if max_before(it@, i as int) >= it@[i as int] as int {
            max_before(it@, i as int)
        } else {
            it@[i as int] as int
        });
        left.push(if last_left >= l { last_left } else { l });
        let last_right: usize = if i == 0 { 0 } else { right[i - 1] };
        let r = it[n - 1 - i];
        assert(last_right as int == max_from(it@, n - i));
        assert(max_from(it@, n - 1 - i) == if max_from(it@, n - i) >= it@[n - 1 - i] as int {
            max_from(it@, n - i)
        } else {
            it@[n - 1 - i] as int
        });
        right.push(if last_right >= r { last_right } else { r });
        assert(left@[i as int] as int == max_before(it@, i + 1));
        assert(right@[i as int] as int == max_from(it@, n - 1 - i));
        i = i + 1;
    }
    let mut sum: usize = 0;
    let mut k: usize = 0;
    while k < n
        invariant
            k <= n,
            n == it@.len(),
            left@.len() == n,
            right@.len() == n,
            forall|j: int| 0 <= j < n ==> left@[j] as int == max_before(it@, j + 1),
            forall|j: int| 0 <= j < n ==> right@[j] as int == max_from(it@, n - 1 - j),
            sum == trapped_upto(it@, k as int),
            trapped_total(it@) <= usize::MAX,
        decreases n - k,
    {
        let l = left[k];
        let r = right[n - 1 - k];
        proof {
            lemma_max_before_bounds(it@, k + 1);
            lemma_max_from_bounds(it@, k as int);
            lemma_trapped_monotone(it@, k + 1, n as int);
        }
        let m = if l <= r { l } else { r };
        sum = sum + (m - it[k]);
        k = k + 1;
    }
    sum
}

} // verus!
