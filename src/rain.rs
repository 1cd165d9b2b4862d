//! Resting depths of a finite amount of rain over a profile.
//!
//! The water is kept exactly: amounts of a range are counted in half units,
//! and a depth is a fraction whose denominator is 1, 2 or twice the length of
//! the range that overflowed.
use vstd::prelude::*;
use crate::depth::Depth;
use crate::model::{
    amount_cap, covers, last_peak, lemma_rain_model, node_step, pending, rain_model, scan,
    scan_spec, split_spec, split_step, step_bound, task_ok, task_room, Side, Task, give_back,
    middle_from_end, run,
};
use crate::profile::{
    capacity, highest, highest_in, is_last_peak, is_last_peak_in, lemma_highest_is, level,
    room_in, share, within_limits, LIMIT,
};

verus! {

proof fn lemma_amount_fits(n: int, len: int)
    requires
        1 <= len <= n <= LIMIT,
    ensures
        (n - len + 2) * step_bound(n) <= amount_cap(),
        (n - len + 1) * step_bound(n) <= (n - len + 2) * step_bound(n),
        0 <= step_bound(n),
{
    assert(0 <= n - len + 2 <= LIMIT + 1) by (nonlinear_arith)
        requires
            1 <= len <= n <= LIMIT,
    ;
    assert(8 * n * LIMIT <= 8 * LIMIT * LIMIT) by (nonlinear_arith)
        requires
            1 <= n <= LIMIT,
    ;
    let a = n - len + 2;
    let b = 8 * n * LIMIT;
    assert(a * b <= (LIMIT + 1) * (8 * LIMIT * LIMIT)) by (nonlinear_arith)
        requires
            0 <= a <= LIMIT + 1,
            0 <= b <= 8 * LIMIT * LIMIT,
    ;
    assert((a - 1) * b <= a * b) by (nonlinear_arith)
        requires
            0 <= b,
    ;
}

/// The water of a child range stays within the bound of a task.
proof fn lemma_child_bound(n: int, len: int, clen: int, v: int)
    requires
        2 <= clen < len <= n <= LIMIT,
        -((n - len + 1) * step_bound(n) + 5 * len * LIMIT) <= v <= (n - len + 1) * step_bound(n)
            + 5 * len * LIMIT,
    ensures
        -((n - clen + 1) * step_bound(n)) <= v <= (n - clen + 1) * step_bound(n),
{
    let k = step_bound(n);
    assert(5 * len * LIMIT <= k) by (nonlinear_arith)
        requires
            0 <= len <= n,
            k == 8 * n * LIMIT,
    ;
    assert(0 <= k) by (nonlinear_arith)
        requires
            k == 8 * n * LIMIT,
            0 <= n,
    ;
    assert((n - len + 1) * k + k <= (n - clen + 1) * k) by (nonlinear_arith)
        requires
            clen < len,
            0 <= k,
    ;
}

/// The last position of the highest height in `it[start..start + len]`,
/// with that height.
fn peak(it: &[usize], start: usize, len: usize) -> (r: (usize, usize))
    requires
        1 <= len,
        start + len <= it@.len() <= LIMIT,
    ensures
        r.0 < len,
        r.1 == it@[start + r.0],
        forall|j: int| 0 <= j < len ==> #[trigger] it@[start + j] <= r.1,
        forall|j: int| r.0 < j < len ==> #[trigger] it@[start + j] < r.1,
        r.1 == highest_in(it@, start as int, start + len),
        is_last_peak_in(it@, start as int, start + len, start + r.0),
        r.0 == last_peak(it@, start as int, len as int),
{
    let mut mi: usize = 0;
    let mut top: usize = it[start];
    let mut k: usize = 1;
    while k < len
        invariant
            1 <= k <= len,
            start + len <= it@.len() <= LIMIT,
            mi < k,
            top == it@[start + mi],
            forall|j: int| 0 <= j < k ==> #[trigger] it@[start + j] <= top,
            forall|j: int| mi < j < k ==> #[trigger] it@[start + j] < top,
            mi == last_peak(it@, start as int, k as int),
        decreases len - k,
    {
        if it[start + k] >= top {
            mi = k;
            top = it[start + k];
        }
        k = k + 1;
    }
    proof {
        assert forall|j: int| start <= j < start + len implies #[trigger] it@[j] <= top by {
            assert(it@[start + (j - start)] <= top);
        }
        assert forall|j: int| start + mi < j < start + len implies #[trigger] it@[j] < top by {
            assert(it@[start + (j - start)] < top);
        }
        lemma_highest_is(it@, start as int, start + len, start + mi);
    }
    (mi, top)
}

/// Room below `top` over `it[start + from..start + to]`.
fn room(it: &[usize], start: usize, from: usize, to: usize, top: usize) -> (r: i128)
    requires
        from <= to,
        start + to <= it@.len() <= LIMIT,
        top <= LIMIT,
        forall|j: int| from <= j < to ==> #[trigger] it@[start + j] <= top,
    ensures
        0 <= r <= (to - from) * LIMIT,
        (forall|j: int| from <= j < to ==> #[trigger] it@[start + j] == top) ==> r == 0,
        r == room_in(it@, top as int, start + from, start + to),
{
    let ghost full = forall|j: int| from <= j < to ==> #[trigger] it@[start + j] == top;
    let mut total: i128 = 0;
    let mut k: usize = from;
    while k < to
        invariant
            from <= k <= to,
            start + to <= it@.len() <= LIMIT,
            top <= LIMIT,
            forall|j: int| from <= j < to ==> #[trigger] it@[start + j] <= top,
            0 <= total <= (k - from) * LIMIT,
            full == forall|j: int| from <= j < to ==> #[trigger] it@[start + j] == top,
            full ==> total == 0,
            total == room_in(it@, top as int, start + from, start + k),
        decreases to - k,
    {
        total = total + (top - it[start + k]) as i128;
        k = k + 1;
    }
    total
}

/// Fills `result[start..start + len]` up to `top`.
fn fill_to_top(it: &[usize], start: usize, len: usize, top: usize, result: &mut Vec<Depth>)
    requires
        start + len <= it@.len() <= LIMIT,
        old(result)@.len() == it@.len(),
        forall|q: int| 0 <= q < old(result)@.len() ==> old(result)@[q].wf(),
        forall|j: int| 0 <= j < len ==> #[trigger] it@[start + j] <= top,
    ensures
        final(result)@.len() == it@.len(),
        forall|q: int| 0 <= q < final(result)@.len() ==> final(result)@[q].wf(),
        forall|q: int|
            start <= q < start + len ==> #[trigger] final(result)@[q] == (Depth {
                num: (top - it@[q]) as i128,
                den: 1,
            }),
        forall|q: int|
            0 <= q < it@.len() && !(start <= q < start + len) ==> #[trigger] final(result)@[q]
                == old(result)@[q],
{
    let ghost before = result@;
    let mut k: usize = 0;
    while k < len
        invariant
            k <= len,
            start + len <= it@.len() <= LIMIT,
            result@.len() == it@.len(),
            forall|q: int| 0 <= q < result@.len() ==> result@[q].wf(),
            forall|j: int| 0 <= j < len ==> #[trigger] it@[start + j] <= top,
            forall|q: int|
                start <= q < start + k ==> #[trigger] result@[q] == (Depth {
                    num: (top - it@[q]) as i128,
                    den: 1,
                }),
            forall|q: int|
                0 <= q < it@.len() && !(start <= q < start + k) ==> #[trigger] result@[q]
                    == before[q],
        decreases len - k,
    {
        result.set(start + k, Depth { num: (top - it[start + k]) as i128, den: 1 });
        k = k + 1;
    }
}

/// Fills `result[start..start + len]` up to `top` and spreads `extra` half
/// units evenly over the range.
fn fill_over_top(
    it: &[usize],
    start: usize,
    len: usize,
    top: usize,
    extra: i128,
    result: &mut Vec<Depth>,
)
    requires
        1 <= len,
        start + len <= it@.len() <= LIMIT,
        top <= LIMIT,
        0 < extra <= amount_cap(),
        old(result)@.len() == it@.len(),
        forall|q: int| 0 <= q < old(result)@.len() ==> old(result)@[q].wf(),
        forall|j: int| 0 <= j < len ==> #[trigger] it@[start + j] <= top,
    ensures
        final(result)@.len() == it@.len(),
        forall|q: int| 0 <= q < final(result)@.len() ==> final(result)@[q].wf(),
        forall|q: int|
            start <= q < start + len ==> #[trigger] final(result)@[q].den == 2 * len
                && final(result)@[q].num == (top - it@[q]) * (2 * len) + extra,
        forall|q: int|
            0 <= q < it@.len() && !(start <= q < start + len) ==> #[trigger] final(result)@[q]
                == old(result)@[q],
{
    let ghost before = result@;
    let den = 2 * len as u64;
    let mut k: usize = 0;
    while k < len
        invariant
            k <= len <= LIMIT,
            den == 2 * len,
            start + len <= it@.len() <= LIMIT,
            top <= LIMIT,
            0 < extra <= amount_cap(),
            result@.len() == it@.len(),
            forall|q: int| 0 <= q < result@.len() ==> result@[q].wf(),
            forall|j: int| 0 <= j < len ==> #[trigger] it@[start + j] <= top,
            forall|q: int|
                start <= q < start + k ==> #[trigger] result@[q].den == 2 * len
                    && result@[q].num == (top - it@[q]) * (2 * len) + extra,
            forall|q: int|
                0 <= q < it@.len() && !(start <= q < start + k) ==> #[trigger] result@[q]
                    == before[q],
        decreases len - k,
    {
        let room = (top - it[start + k]) as i128;
        assert(room * (den as i128) <= LIMIT * (2 * LIMIT)) by (nonlinear_arith)
            requires
                0 <= room <= LIMIT,
                0 <= den <= 2 * LIMIT,
        ;
        assert(0 <= room * (den as i128)) by (nonlinear_arith)
            requires
                0 <= room,
                0 <= den,
        ;
        result.set(start + k, Depth { num: room * den as i128 + extra, den });
        k = k + 1;
    }
}

/// Walks left from the peak at `mi` while the room of each position is at
/// most `hours`: it places that room there and takes it from the water.
/// Where a higher wall ends the walk behind a lower peak, the water placed
/// beyond that peak goes back, and the middle's water is taken again from the
/// end of the range.
///
/// Returns the first position of the settled middle, the water of the middle
/// (shared by both sides, in half units), the water left, and what was placed
/// at each position.
fn settle_middle(
    hours: usize,
    it: &[usize],
    start: usize,
    len: usize,
    mi: usize,
    top: usize,
    halves: i128,
) -> (r: (usize, i128, i128, Vec<i128>))
    requires
        within_limits(hours, it@),
        mi < len,
        start + len <= it@.len(),
        top == it@[start + mi],
        forall|j: int| 0 <= j < len ==> #[trigger] it@[start + j] <= top,
        -amount_cap() <= halves <= amount_cap(),
    ensures
        r.0 <= mi,
        0 <= r.1 <= len * LIMIT,
        halves - 2 * len * LIMIT <= r.2 <= halves + 2 * len * LIMIT,
        r.3@.len() == len,
        forall|j: int| 0 <= j < len ==> 0 <= #[trigger] r.3@[j] <= hours,
        r.3@[mi as int] == 0,
        (r.0 as int, r.1 as int, r.2 as int, r.3@) == scan_spec(
            it@,
            start as int,
            len as int,
            mi as int,
            top as int,
            hours as int,
            halves as int,
        ),
{
    let max_n = mi + 1;
    let h = hours as i128;
    let mut placed: Vec<i128> = Vec::with_capacity(len);
    let mut k: usize = 0;
    while k < len
        invariant
            k <= len,
            placed@.len() == k,
            forall|j: int| 0 <= j < k ==> #[trigger] placed@[j] == 0,
        decreases len - k,
    {
        placed.push(0);
        k = k + 1;
    }
    assert(placed@ =~= Seq::new(len as nat, |j: int| 0i128));
    let ghost goal = scan_spec(it@, start as int, len as int, mi as int, top as int, hours as int, halves as int);

    let mut l_num: usize = max_n;
    let mut middle: i128 = 0;
    let mut liters: i128 = halves;
    let mut is_max = true;
    let mut last_max: usize = 0;
    let mut i: usize = 0;
    while i < max_n
        invariant_except_break
            i == 0 ==> is_max,
            i > 0 ==> last_max < i,
            last_max <= i,
            0 <= middle <= i * LIMIT,
            halves - 2 * i * LIMIT <= liters <= halves,
            i > 0 ==> l_num <= mi,
            scan(
                it@,
                start as int,
                len as int,
                mi as int,
                top as int,
                hours as int,
                i as int,
                l_num as int,
                middle as int,
                liters as int,
                is_max,
                last_max as int,
                placed@,
            ) == goal,
        invariant
            i <= max_n,
            max_n == mi + 1,
            mi < len <= LIMIT,
            start + len <= it@.len(),
            within_limits(hours, it@),
            h == hours,
            top == it@[start + mi],
            forall|j: int| 0 <= j < len ==> #[trigger] it@[start + j] <= top,
            placed@.len() == len,
            forall|j: int| 0 <= j < len ==> 0 <= #[trigger] placed@[j] <= hours,
            last_max < max_n,
            -amount_cap() <= halves <= amount_cap(),
            placed@[mi as int] == 0,
            goal == scan_spec(it@, start as int, len as int, mi as int, top as int, hours as int, halves as int),
        ensures
            (l_num as int, middle as int, liters as int, placed@) == goal,
            l_num <= mi,
            0 <= middle <= len * LIMIT,
            halves - 2 * len * LIMIT <= liters <= halves + 2 * len * LIMIT,
            forall|j: int| 0 <= j < len ==> 0 <= #[trigger] placed@[j] <= hours,
            placed@.len() == len,
            placed@[mi as int] == 0,
        decreases max_n - i,
    {
        let pos = mi - i;
        let avail = (top - it[start + pos]) as i128;
        let diff = h - avail;
        if diff >= 0 {
            middle = middle + diff;
        } else {
            if !is_max {
                let ghost back0 = placed@;
                let ghost liters0 = liters as int;
                let mut j: usize = 0;
                while j < i - last_max
                    invariant
                        j <= i - last_max,
                        last_max < i <= mi < len,
                        placed@.len() == len,
                        forall|q: int| 0 <= q < len ==> 0 <= #[trigger] placed@[q] <= hours,
                        placed@[mi as int] == 0,
                        halves - 2 * i * LIMIT <= liters <= halves + 2 * j * LIMIT,
                        i <= LIMIT,
                        hours <= LIMIT,
                        -amount_cap() <= halves <= amount_cap(),
                        give_back(placed@, liters as int, mi as int, last_max as int, i - last_max, j as int)
                            == give_back(back0, liters0, mi as int, last_max as int, i - last_max, 0),
                    decreases i - last_max - j,
                {
                    let p = mi - (last_max + 1) - j;
                    assert(0 <= placed@[p as int] <= hours);
                    liters = liters + 2 * placed[p];
                    placed.set(p, 0);
                    j = j + 1;
                }
                let mut m: i128 = 0;
                let mut j: usize = 0;
                while j <= last_max
                    invariant
                        j <= last_max + 1,
                        last_max < len,
                        h == hours,
                        placed@.len() == len,
                        forall|q: int| 0 <= q < len ==> 0 <= #[trigger] placed@[q] <= hours,
                        placed@[mi as int] == 0,
                        0 <= m <= j * LIMIT,
                        hours <= LIMIT,
                        m == middle_from_end(placed@, hours as int, len as int, j as int),
                    decreases last_max + 1 - j,
                {
                    assert(0 <= placed@[len - 1 - j] <= hours);
                    m = m + (h - placed[len - 1 - j]);
                    j = j + 1;
                }
                middle = m;
                l_num = max_n - (last_max + 1);
            }
            break;
        }
        is_max = avail == 0;
        if is_max {
            last_max = i;
        } else {
            liters = liters - 2 * avail;
            placed.set(pos, avail);
        }
        l_num = max_n - (i + 1);
        i = i + 1;
    }
    (l_num, middle, liters, placed)
}

/// Splits `liters` between the two sides of a peak: each side gets the rain
/// that fell on it and the half of the middle, what is left over goes to the
/// outer side, and then neither side keeps more than its room.
fn split_water(
    side: Side,
    hours: usize,
    len: usize,
    l_num: usize,
    r_len: usize,
    middle: i128,
    liters: i128,
    l_room: i128,
    r_room: i128,
) -> (r: (i128, i128))
    requires
        hours <= LIMIT,
        len <= LIMIT,
        l_num <= len,
        r_len <= len,
        0 <= middle <= len * LIMIT,
        -2 * amount_cap() <= liters <= 2 * amount_cap(),
        0 <= l_room <= len * LIMIT,
        0 <= r_room <= len * LIMIT,
    ensures
        r.0 + r.1 == liters,
        (0 <= r.0 <= 3 * len * LIMIT) || (0 <= r.1 <= 3 * len * LIMIT),
        (r.0 as int, r.1 as int) == split_spec(
            side,
            hours as int,
            l_num as int,
            r_len as int,
            middle as int,
            liters as int,
            l_room as int,
            r_room as int,
        ),
{
    assert(l_num * hours <= len * LIMIT && r_len * hours <= len * LIMIT) by (nonlinear_arith)
        requires
            l_num <= len,
            r_len <= len,
            hours <= LIMIT,
    ;
    assert(0 <= l_num * hours && 0 <= r_len * hours) by (nonlinear_arith);
    let h = hours as i128;
    let mut l_liters: i128 = 2 * ((l_num as i128) * h) + middle;
    let mut r_liters: i128 = 2 * ((r_len as i128) * h) + middle;
    // What is left over goes to the outer side of the range.
    let diff = liters - (l_liters + r_liters);
    match side {
        Side::Right => {
            l_liters = l_liters + diff;
        },
        Side::Left => {
            r_liters = r_liters + diff;
        },
    }
    // Neither side keeps more than its room.
    if l_liters > 2 * l_room {
        let d = l_liters - 2 * l_room;
        r_liters = r_liters + d;
        l_liters = l_liters - d;
    }
    if r_liters > 2 * r_room {
        let d = r_liters - 2 * r_room;
        r_liters = r_liters - d;
        l_liters = l_liters + d;
    }
    (l_liters, r_liters)
}

/// Resolves a task whose water stays below the peak at offset `mi`: the
/// middle beside the peak settles and the two sides are handed on, as tasks or
/// as single positions.
fn resolve_split(
    hours: usize,
    task: Task,
    it: &[usize],
    mi: usize,
    top: usize,
    result: &mut Vec<Depth>,
    stack: &mut Vec<Task>,
)
    requires
        within_limits(hours, it@),
        task_ok(task, it@.len() as int),
        old(result)@.len() == it@.len(),
        forall|q: int| 0 <= q < old(result)@.len() ==> old(result)@[q].wf(),
        forall|q: int| 0 <= q < old(stack)@.len() ==> task_ok(old(stack)@[q], it@.len() as int),
        mi < task.len,
        mi == last_peak(it@, task.start as int, task.len as int),
        top == it@[task.start + mi],
        top == highest_in(it@, task.start as int, task.start + task.len),
        forall|j: int| 0 <= j < task.len ==> #[trigger] it@[task.start + j] <= top,
        2 * task_room(it@, task) > task.halves,
    ensures
        final(result)@ == split_step(hours as int, it@, task, old(result)@).0,
        final(stack)@ == old(stack)@ + split_step(hours as int, it@, task, old(result)@).1,
        final(result)@.len() == it@.len(),
        forall|q: int| 0 <= q < final(result)@.len() ==> final(result)@[q].wf(),
        forall|q: int| 0 <= q < final(stack)@.len() ==> task_ok(final(stack)@[q], it@.len() as int),
        pending(final(stack)@) < pending(old(stack)@) + task.len,
        forall|q: int|
            0 <= q < it@.len() && !covers(task, q) ==> #[trigger] final(result)@[q] == old(
                result,
            )@[q],
        old(stack)@.len() <= final(stack)@.len(),
        forall|q: int| 0 <= q < old(stack)@.len() ==> #[trigger] final(stack)@[q] == old(stack)@[q],
        forall|q: int|
            old(stack)@.len() <= q < final(stack)@.len() ==> task.start <= (
            #[trigger] final(stack)@[q]).start && final(stack)@[q].start + final(stack)@[q].len
                <= task.start + task.len,
        final(result)@[task.start + mi].num == 0,
        forall|q: int|
            old(stack)@.len() <= q < final(stack)@.len() ==> !covers(
                #[trigger] final(stack)@[q],
                task.start + mi,
            ),
{
    let ghost n = it@.len() as int;
    let ghost stack0 = stack@;
    let ghost step = split_step(hours as int, it@, task, result@);
    let start = task.start;
    let len = task.len;
    let halves = task.halves;
    proof {
        lemma_amount_fits(n, len as int);
    }
    let (l_num, middle, liters, placed) = settle_middle(hours, it, start, len, mi, top, halves);
    let r_num = mi + 1;
    let r_len = len - r_num;
    let l_room = room(it, start, 0, l_num, top);
    let r_room = room(it, start, r_num, len, top);
    let (l_liters, r_liters) = split_water(
        task.side,
        hours,
        len,
        l_num,
        r_len,
        middle,
        liters,
        l_room,
        r_room,
    );

    // The settled middle keeps what was placed there.
    let ghost before = result@;
    let mut k: usize = l_num;
    while k < r_num
        invariant
            l_num <= k <= r_num,
            r_num <= len,
            start + len <= it@.len() <= LIMIT,
            placed@.len() == len,
            result@.len() == it@.len(),
            forall|q: int| 0 <= q < result@.len() ==> result@[q].wf(),
            forall|q: int|
                0 <= q < it@.len() && !(start + l_num <= q < start + k) ==> #[trigger] result@[q]
                    == before[q],
            forall|j: int|
                l_num <= j < k ==> #[trigger] result@[start + j] == (Depth {
                    num: placed@[j],
                    den: 1,
                }),
        decreases r_num - k,
    {
        result.set(start + k, Depth { num: placed[k], den: 1 });
        k = k + 1;
    }
    let ghost res1 = Seq::new(
        before.len(),
        |q: int|
            if start + l_num <= q < start + r_num {
                Depth { num: placed@[q - start], den: 1 }
            } else {
                before[q]
            },
    );
    assert forall|q: int| 0 <= q < result@.len() implies result@[q] == res1[q] by {
        if start + l_num <= q < start + r_num {
            assert(result@[start + (q - start)] == Depth { num: placed@[q - start], den: 1 });
        }
    }
    assert(result@ =~= res1);

    let ghost old_stack = stack@;
    if l_num > 0 {
        if l_num == 1 {
            result.set(start, Depth { num: l_liters, den: 2 });
        } else {
            proof {
                lemma_child_bound(n, len as int, l_num as int, l_liters as int);
            }
            stack.push(Task { side: Side::Left, start, len: l_num, halves: l_liters });
            assert(stack@.drop_last() == old_stack);
            assert(pending(stack@) == pending(stack@.drop_last()) + stack@.last().len);
        }
    }
    let ghost mid_stack = stack@;
    if r_len > 0 {
        if r_len == 1 {
            result.set(start + r_num, Depth { num: r_liters, den: 2 });
        } else {
            proof {
                lemma_child_bound(n, len as int, r_len as int, r_liters as int);
            }
            stack.push(Task { side: Side::Right, start: start + r_num, len: r_len, halves: r_liters });
            assert(stack@.drop_last() == mid_stack);
            assert(pending(stack@) == pending(stack@.drop_last()) + stack@.last().len);
        }
    }
    proof {
        let ghost sp = scan_spec(it@, start as int, len as int, mi as int, top as int, hours as int, halves as int);
        assert(sp.0 == l_num && sp.1 == middle && sp.2 == liters && sp.3 == placed@);
        assert(room_in(it@, top as int, start as int, start + l_num) == l_room);
        let ghost res2 = if l_num == 1 {
            res1.update(start as int, Depth { num: l_liters, den: 2 })
        } else {
            res1
        };
        let ghost res3 = if r_len == 1 {
            res2.update(start + r_num, Depth { num: r_liters, den: 2 })
        } else {
            res2
        };
        assert(result@ =~= res3);
        assert(result@ =~= step.0);
        assert(stack@ =~= stack0 + step.1);
    }
}

/// Resolves one task: fills its range where the water reaches the peak of
/// the range or beyond, and otherwise settles the water beside the peak and
/// hands the two sides on, as tasks or as single positions.
fn node(hours: usize, task: Task, it: &[usize], result: &mut Vec<Depth>, stack: &mut Vec<Task>)
    requires
        within_limits(hours, it@),
        task_ok(task, it@.len() as int),
        old(result)@.len() == it@.len(),
        forall|q: int| 0 <= q < old(result)@.len() ==> old(result)@[q].wf(),
        forall|q: int| 0 <= q < old(stack)@.len() ==> task_ok(old(stack)@[q], it@.len() as int),
    ensures
        final(result)@ == node_step(hours as int, it@, task, old(result)@).0,
        final(stack)@ == old(stack)@ + node_step(hours as int, it@, task, old(result)@).1,
        final(result)@.len() == it@.len(),
        forall|q: int| 0 <= q < final(result)@.len() ==> final(result)@[q].wf(),
        forall|q: int| 0 <= q < final(stack)@.len() ==> task_ok(final(stack)@[q], it@.len() as int),
        pending(final(stack)@) < pending(old(stack)@) + task.len,
        forall|q: int|
            0 <= q < it@.len() && !covers(task, q) ==> #[trigger] final(result)@[q] == old(
                result,
            )@[q],
        old(stack)@.len() <= final(stack)@.len(),
        forall|q: int| 0 <= q < old(stack)@.len() ==> #[trigger] final(stack)@[q] == old(stack)@[q],
        forall|q: int|
            old(stack)@.len() <= q < final(stack)@.len() ==> task.start <= (
            #[trigger] final(stack)@[q]).start && final(stack)@[q].start + final(stack)@[q].len
                <= task.start + task.len,
        2 * task_room(it@, task) <= task.halves ==> {
            &&& final(stack)@ == old(stack)@
            &&& forall|q: int|
                covers(task, q) ==> #[trigger] final(result)@[q].equals(
                    (highest_in(it@, task.start as int, task.start + task.len) - it@[q]) * (2
                        * task.len) + task.halves - 2 * task_room(it@, task),
                    2 * task.len,
                )
        },
        forall|i: int|
            #[trigger] is_last_peak_in(it@, task.start as int, task.start + task.len, i) && 2
                * task_room(it@, task) > task.halves ==> {
                &&& final(result)@[i].num == 0
                &&& forall|q: int|
                    old(stack)@.len() <= q < final(stack)@.len() ==> !covers(
                        #[trigger] final(stack)@[q],
                        i,
                    )
            },
        level(it@.subrange(task.start as int, task.start + task.len)) && task.halves == 2 * hours
            * task.len ==> {
            &&& final(stack)@ == old(stack)@
            &&& forall|q: int|
                task.start <= q < task.start + task.len ==> #[trigger] final(result)@[q].is_whole(
                    hours as int,
                )
        },
{
    let ghost n = it@.len() as int;
    let ghost res0 = result@;
    let ghost stack0 = stack@;
    let ghost step = node_step(hours as int, it@, task, result@);
    let ghost flat = level(it@.subrange(task.start as int, task.start + task.len)) && task.halves
        == 2 * hours * task.len;
    let start = task.start;
    let len = task.len;
    let halves = task.halves;
    proof {
        lemma_amount_fits(n, len as int);
        if level(it@.subrange(start as int, start + len)) {
            assert forall|j: int| 0 <= j < len implies #[trigger] it@[start + j] == it@[start as int] by {
                assert(it@.subrange(start as int, start + len)[j] == it@[start + j]);
                assert(it@.subrange(start as int, start + len)[0] == it@[start as int]);
            }
        }
    }

    let (mi, top) = peak(it, start, len);
    proof {
        if flat {
            assert(top == it@[start as int]);
            assert forall|j: int| 0 <= j < len implies #[trigger] it@[start + j] == top by {}
        }
    }
    let total = room(it, start, 0, len, top);
    let total2 = 2 * total;

    if total2 == halves {
        // The water fills the range exactly up to the peak.
        fill_to_top(it, start, len, top, result);
        proof {
            if flat {
                assert(hours == 0) by (nonlinear_arith)
                    requires
                        0 == 2 * hours * len,
                        len >= 2,
                ;
                assert forall|q: int| start <= q < start + len implies #[trigger] result@[q].is_whole(
                    hours as int,
                ) by {
                    assert(it@[start + (q - start)] == top);
                }
            }
            assert(total == task_room(it@, task));
            assert forall|q: int| covers(task, q) implies #[trigger] result@[q].equals(
                (top - it@[q]) * (2 * len) + halves - 2 * total,
                2 * len,
            ) by {
                assert(it@[start + (q - start)] <= top);
                let x = top - it@[q];
                assert(result@[q].num == x && result@[q].den == 1);
            }
        }
        assert(result@ =~= step.0);
        assert(stack@ =~= stack0 + step.1);
        return;
    }
    if total2 < halves {
        // More water than room: what is left over spreads evenly.
        fill_over_top(it, start, len, top, halves - total2, result);
        proof {
            if flat {
                assert forall|q: int| start <= q < start + len implies #[trigger] result@[q].is_whole(
                    hours as int,
                ) by {
                    assert(it@[start + (q - start)] == top);
                    assert(it@[q] == top);
                    let z = top - it@[q];
                    assert(z == 0);
                    assert(z * (2 * len) == 0) by (nonlinear_arith)
                        requires
                            z == 0,
                    ;
                    assert(total2 == 0);
                    let d = result@[q].den as int;
                    assert(d == 2 * len);
                    assert(2 * hours * len == hours * d) by (nonlinear_arith)
                        requires
                            d == 2 * len,
                    ;
                }
            }
            assert(total == task_room(it@, task));
            assert forall|q: int| covers(task, q) implies #[trigger] result@[q].equals(
                (top - it@[q]) * (2 * len) + halves - 2 * total,
                2 * len,
            ) by {
                assert(it@[start + (q - start)] <= top);
                let x = (top - it@[q]) * (2 * len) + halves - 2 * total;
                assert(result@[q].num == x && result@[q].den == 2 * len);
            }
        }
        assert(result@ =~= step.0);
        assert(stack@ =~= stack0 + step.1);
        return;
    }
    // Less water than room: the shape beside the peak decides.
    resolve_split(hours, task, it, mi, top, result, stack);
    proof {
        assert forall|i: int| #[trigger]
            is_last_peak_in(it@, start as int, start + len, i) implies i == start + mi by {
            if i < start + mi {
                assert(it@[start + mi] < it@[i]);
            } else if i > start + mi {
                assert(it@[i] < it@[start + mi]);
            }
        }
    }

}

/// A depth over a whole profile of `n` positions, given over `2 * n`, is the
/// same fraction over `n`.
proof fn lemma_halve_fraction(d: Depth, y: int, n: int)
    requires
        d.equals(2 * y, 2 * n),
    ensures
        d.equals(y, n),
{
    assert(d.num * n == y * d.den) by (nonlinear_arith)
        requires
            d.num * (2 * n) == (2 * y) * d.den,
    ;
}

/// Rain for `hours` over the profile `it`: the depth of water that rests on
/// each position once `hours` units, fallen on every position, have settled.
///
/// Amounts are exact. Where the rain reaches the highest point of the
/// profile, every position holds its room below that point and an equal share
/// of what is left over; otherwise the last highest position stays dry. In
/// particular an empty profile gets nothing, a single position keeps all of
/// its rain, and on level ground every position keeps its own rain.
pub fn rain(hours: usize, it: &[usize]) -> (r: Vec<Depth>)
    requires
        within_limits(hours, it@),
    ensures
        r@ == rain_model(hours as int, it@),
        r@.len() == it@.len(),
        forall|q: int| 0 <= q < r@.len() ==> r@[q].wf(),
        capacity(it@) <= hours * it@.len() ==> forall|q: int|
            0 <= q < r@.len() ==> #[trigger] r@[q].equals(
                share(it@, hours as int, q),
                it@.len() as int,
            ),
        forall|i: int|
            #[trigger] is_last_peak(it@, i) && capacity(it@) > hours * it@.len() ==> r@[i].num
                == 0,
        it@.len() == 1 ==> r@[0] == (Depth { num: hours as i128, den: 1 }),
        level(it@) ==> forall|q: int| 0 <= q < r@.len() ==> #[trigger] r@[q].is_whole(hours as int),
{
    let n = it.len();
    proof {
        lemma_rain_model(hours as int, it@);
    }
    if n == 0 {
        let r: Vec<Depth> = Vec::new();
        assert(r@ =~= rain_model(hours as int, it@));
        return r;
    }
    if n == 1 {
        let mut r: Vec<Depth> = Vec::new();
        r.push(Depth { num: hours as i128, den: 1 });
        proof {
            assert(r@ =~= rain_model(hours as int, it@));
            lemma_highest_is(it@, 0, 1, 0);
            assert(highest(it@) == it@[0]);
            assert(room_in(it@, highest(it@), 0, 0) == 0);
            assert(capacity(it@) == 0);
            assert(r@[0].equals(hours as int, 1));
        }
        return r;
    }
    let mut result: Vec<Depth> = Vec::with_capacity(n);
    let mut k: usize = 0;
    while k < n
        invariant
            k <= n,
            result@.len() == k,
            forall|q: int| 0 <= q < k ==> result@[q].wf(),
            forall|q: int| 0 <= q < k ==> result@[q] == (Depth { num: 0, den: 1 }),
        decreases n - k,
    {
        result.push(Depth { num: 0, den: 1 });
        k = k + 1;
    }
    proof {
        lemma_amount_fits(n as int, n as int);
        assert(2 * hours * n <= 2 * LIMIT * n) by (nonlinear_arith)
            requires
                hours <= LIMIT,
        ;
        assert(0 <= 2 * hours * n) by (nonlinear_arith);
        if level(it@) {
            assert(it@.subrange(0, n as int) == it@);
        }
    }
    assert((n as int) * (hours as int) <= LIMIT * LIMIT) by (nonlinear_arith)
        requires
            n <= LIMIT,
            hours <= LIMIT,
    ;
    assert(2 * ((n as int) * (hours as int)) == 2 * hours * n) by (nonlinear_arith);
    let root = Task { side: Side::Right, start: 0, len: n, halves: 2 * ((n as i128) * (hours as i128)) };
    proof {
        assert((n - n + 1) * step_bound(n as int) == step_bound(n as int));
        assert(2 * hours * n <= 8 * n * LIMIT) by (nonlinear_arith)
            requires
                hours <= LIMIT,
                0 <= n,
        ;
    }
    assert(task_ok(root, n as int));
    let mut stack: Vec<Task> = Vec::new();
    let ghost zeros = Seq::new(n as nat, |q: int| Depth { num: 0, den: 1 });
    assert(result@ =~= zeros);
    let ghost model = rain_model(hours as int, it@);
    assert(model == run(hours as int, it@, n as nat, seq![root], zeros));
    let ghost first = node_step(hours as int, it@, root, zeros);
    assert(seq![root].drop_last() + first.1 =~= first.1);
    assert(model == run(hours as int, it@, (n - 1) as nat, first.1, first.0));
    node(hours, root, it, &mut result, &mut stack);
    assert(stack@ =~= first.1);
    let ghost mut fuel: nat = (n - 1) as nat;
    proof {
        assert(task_room(it@, root) == capacity(it@));
        assert(2 * capacity(it@) <= root.halves <==> capacity(it@) <= hours * n) by (
        nonlinear_arith)
            requires
                root.halves == 2 * hours * n,
        ;
        if capacity(it@) <= hours * n {
            assert forall|q: int| 0 <= q < n implies #[trigger] result@[q].equals(
                (highest(it@) - it@[q]) * n + hours * n - capacity(it@),
                n as int,
            ) by {
                assert(covers(root, q));
                let y = (highest(it@) - it@[q]) * n + hours * n - capacity(it@);
                assert((highest(it@) - it@[q]) * (2 * n) + root.halves - 2 * capacity(it@) == 2
                    * y) by (nonlinear_arith)
                    requires
                        y == (highest(it@) - it@[q]) * n + hours * n - capacity(it@),
                        root.halves == 2 * hours * n,
                ;
                lemma_halve_fraction(result@[q], y, n as int);
            }
        }
    }
    while stack.len() > 0
        invariant
            within_limits(hours, it@),
            n == it@.len(),
            n >= 2,
            result@.len() == n,
            forall|q: int| 0 <= q < result@.len() ==> result@[q].wf(),
            forall|q: int| 0 <= q < stack@.len() ==> task_ok(stack@[q], n as int),
            level(it@) ==> stack@.len() == 0 && forall|q: int|
                0 <= q < n ==> #[trigger] result@[q].is_whole(hours as int),
            capacity(it@) <= hours * n ==> stack@.len() == 0 && forall|q: int|
                0 <= q < n ==> #[trigger] result@[q].equals(
                    (highest(it@) - it@[q]) * n + hours * n - capacity(it@),
                    n as int,
                ),
            capacity(it@) > hours * n ==> forall|i: int| #[trigger]
                is_last_peak(it@, i) ==> {
                    &&& result@[i].num == 0
                    &&& forall|k: int| 0 <= k < stack@.len() ==> !covers(#[trigger] stack@[k], i)
                },
            run(hours as int, it@, fuel, stack@, result@) == model,
            pending(stack@) <= fuel,
            model == rain_model(hours as int, it@),
        decreases pending(stack@),
    {
        let ghost before = stack@;
        let ghost res_before = result@;
        let t = stack.pop().unwrap();
        assert(stack@ == before.drop_last());
        assert(t == before[before.len() - 1]);
        assert(pending(before) == pending(before.drop_last()) + t.len);
        node(hours, t, it, &mut result, &mut stack);
        proof {
            fuel = (fuel - 1) as nat;
        }
        proof {
            if capacity(it@) > hours * n {
                assert forall|i: int| #[trigger] is_last_peak(it@, i) implies {
                    &&& result@[i].num == 0
                    &&& forall|k: int| 0 <= k < stack@.len() ==> !covers(#[trigger] stack@[k], i)
                } by {
                    assert(!covers(t, i));
                    assert forall|k: int| 0 <= k < stack@.len() implies !covers(
                        #[trigger] stack@[k],
                        i,
                    ) by {
                        if k < before.len() - 1 {
                            assert(stack@[k] == before[k]);
                        }
                    }
                }
            }
        }
    }
    result
}

} // verus!
