//! The resting depths that `rain` gives, as a machine of pending tasks: each
//! task is a range of the profile with the water given to it, in half units.
use vstd::prelude::*;
use crate::depth::Depth;
use crate::profile::{highest_in, room_in, LIMIT};

verus! {

/// Which side of its parent's peak a pending range lies on.
#[derive(Clone, Copy, Debug, PartialEq, Eq, Structural)]
pub(crate) enum Side {
    Left,
    Right,
}

/// A range of the profile still to be resolved, with the water that it is
/// given, in half units.
#[derive(Clone, Copy)]
pub(crate) struct Task {
    pub(crate) side: Side,
    pub(crate) start: usize,
    pub(crate) len: usize,
    pub(crate) halves: i128,
}

/// Bound on the amounts of one level of splitting, in half units.
pub(crate) open spec fn step_bound(n: int) -> int {
    8 * n * LIMIT
}

/// A task of a profile of `n` positions: a range of at least two positions
/// whose water grows by at most one step per split since the whole profile.
pub(crate) open spec fn task_ok(t: Task, n: int) -> bool {
    &&& 2 <= t.len
    &&& t.start + t.len <= n
    &&& n <= LIMIT
    &&& -((n - t.len + 1) * step_bound(n)) <= t.halves <= (n - t.len + 1) * step_bound(n)
}

/// Room below the highest height of the task's range.
pub(crate) open spec fn task_room(s: Seq<usize>, t: Task) -> int {
    room_in(s, highest_in(s, t.start as int, t.start + t.len), t.start as int, t.start + t.len)
}

/// Position `i` lies in the task's range.
pub(crate) open spec fn covers(t: Task, i: int) -> bool {
    t.start <= i < t.start + t.len
}

/// Offset of the last highest height among the first `k` heights of the
/// range at `start`.
pub(crate) open spec fn last_peak(s: Seq<usize>, start: int, k: int) -> int
    decreases k,
{
    if k <= 1 {
        0
    } else {
        let m = last_peak(s, start, k - 1);
        if s[start + k - 1] >= s[start + m] { k - 1 } else { m }
    }
}

/// Water placed beyond the last lower peak goes back: the positions
/// `mi - (last_max + 1) - j` for `j` from `j` up to `count`.
pub(crate) open spec fn give_back(
    placed: Seq<i128>,
    liters: int,
    mi: int,
    last_max: int,
    count: int,
    j: int,
) -> (Seq<i128>, int)
    decreases count - j,
{
    if j >= count {
        (placed, liters)
    } else {
        let p = mi - (last_max + 1) - j;
        give_back(placed.update(p, 0), liters + 2 * placed[p], mi, last_max, count, j + 1)
    }
}

/// Water of the middle, taken from the last `k` positions of a range of
/// `len` positions.
pub(crate) open spec fn middle_from_end(placed: Seq<i128>, h: int, len: int, k: int) -> int
    decreases k,
{
    if k <= 0 {
        0
    } else {
        middle_from_end(placed, h, len, k - 1) + (h - placed[len - 1 - (k - 1)])
    }
}

/// The walk of `settle_middle` from step `i` on, in the state it has reached:
/// the first position of the middle, the middle's water, the water left and
/// what is placed at each position.
pub(crate) open spec fn scan(
    s: Seq<usize>,
    start: int,
    len: int,
    mi: int,
    top: int,
    h: int,
    i: int,
    l_num: int,
    middle: int,
    liters: int,
    is_max: bool,
    last_max: int,
    placed: Seq<i128>,
) -> (int, int, int, Seq<i128>)
    decreases mi + 1 - i,
{
    if i >= mi + 1 {
        (l_num, middle, liters, placed)
    } else {
        let a = top - s[start + mi - i];
        let diff = h - a;
        if diff >= 0 {
            let now_max = a == 0;
            scan(
                s,
                start,
                len,
                mi,
                top,
                h,
                i + 1,
                mi + 1 - (i + 1),
                middle + diff,
                if now_max { liters } else { liters - 2 * a },
                now_max,
                if now_max { i } else { last_max },
                if now_max { placed } else { placed.update(mi - i, a as i128) },
            )
        } else if !is_max {
            let (back, left) = give_back(placed, liters, mi, last_max, i - last_max, 0);
            (mi + 1 - (last_max + 1), middle_from_end(back, h, len, last_max + 1), left, back)
        } else {
            (l_num, middle, liters, placed)
        }
    }
}

/// The walk of `settle_middle` over the range at `start`.
pub(crate) open spec fn scan_spec(s: Seq<usize>, start: int, len: int, mi: int, top: int, h: int, halves: int) -> (
    int,
    int,
    int,
    Seq<i128>,
) {
    scan(s, start, len, mi, top, h, 0, mi + 1, 0, halves, true, 0, Seq::new(len as nat, |j: int| 0i128))
}

/// How `split_water` shares `liters` between the two sides of a peak.
pub(crate) open spec fn split_spec(
    side: Side,
    h: int,
    l_num: int,
    r_len: int,
    middle: int,
    liters: int,
    l_room: int,
    r_room: int,
) -> (int, int) {
    let l0 = 2 * (l_num * h) + middle;
    let r0 = 2 * (r_len * h) + middle;
    let diff = liters - (l0 + r0);
    let l1 = if side == Side::Right { l0 + diff } else { l0 };
    let r1 = if side == Side::Left { r0 + diff } else { r0 };
    let l2 = if l1 > 2 * l_room { 2 * l_room } else { l1 };
    let r2 = if l1 > 2 * l_room { r1 + (l1 - 2 * l_room) } else { r1 };
    if r2 > 2 * r_room {
        (l2 + (r2 - 2 * r_room), 2 * r_room)
    } else {
        (l2, r2)
    }
}

/// One task resolved: the depths after it, and the tasks that it leaves, the
/// left one first.
/// A task whose water stays below its peak: the middle beside the peak
/// settles, and the two sides are handed on.
pub(crate) open spec fn split_step(h: int, s: Seq<usize>, t: Task, res: Seq<Depth>) -> (Seq<Depth>, Seq<Task>) {
    let start = t.start as int;
    let len = t.len as int;
    let mi = last_peak(s, start, len);
    let top = s[start + mi] as int;
    let (l_num, middle, liters, placed) = scan_spec(s, start, len, mi, top, h, t.halves as int);
    let r_num = mi + 1;
    let r_len = len - r_num;
    let l_room = room_in(s, top, start, start + l_num);
    let r_room = room_in(s, top, start + r_num, start + len);
    let (l, r) = split_spec(t.side, h, l_num, r_len, middle, liters, l_room, r_room);
    let res1 = Seq::new(
        res.len(),
        |q: int|
            if start + l_num <= q < start + r_num {
                Depth { num: placed[q - start], den: 1 }
            } else {
                res[q]
            },
    );
    let res2 = if l_num == 1 {
        res1.update(start, Depth { num: l as i128, den: 2 })
    } else {
        res1
    };
    let res3 = if r_len == 1 {
        res2.update(start + r_num, Depth { num: r as i128, den: 2 })
    } else {
        res2
    };
    let left = if l_num >= 2 {
        seq![Task { side: Side::Left, start: start as usize, len: l_num as usize, halves: l as i128 }]
    } else {
        Seq::empty()
    };
    let right = if r_len >= 2 {
        seq![
            Task {
                side: Side::Right,
                start: (start + r_num) as usize,
                len: r_len as usize,
                halves: r as i128,
            },
        ]
    } else {
        Seq::empty()
    };
    (res3, left + right)
}

pub(crate) open spec fn node_step(h: int, s: Seq<usize>, t: Task, res: Seq<Depth>) -> (Seq<Depth>, Seq<Task>) {
    let start = t.start as int;
    let len = t.len as int;
    let mi = last_peak(s, start, len);
    let top = s[start + mi] as int;
    let cap = room_in(s, top, start, start + len);
    if 2 * cap == t.halves {
        (
            Seq::new(
                res.len(),
                |q: int|
                    if start <= q < start + len {
                        Depth { num: (top - s[q]) as i128, den: 1 }
                    } else {
                        res[q]
                    },
            ),
            Seq::empty(),
        )
    } else if 2 * cap < t.halves {
        (
            Seq::new(
                res.len(),
                |q: int|
                    if start <= q < start + len {
                        Depth {
                            num: ((top - s[q]) * (2 * len) + t.halves - 2 * cap) as i128,
                            den: (2 * len) as u64,
                        }
                    } else {
                        res[q]
                    },
            ),
            Seq::empty(),
        )
    } else {
        split_step(h, s, t, res)
    }
}

/// Resolves the pending tasks, the last first, for at most `fuel` of them.
pub(crate) open spec fn run(h: int, s: Seq<usize>, fuel: nat, stack: Seq<Task>, res: Seq<Depth>) -> Seq<Depth>
    decreases fuel,
{
    if fuel == 0 || stack.len() == 0 {
        res
    } else {
        let (res2, kids) = node_step(h, s, stack.last(), res);
        run(h, s, (fuel - 1) as nat, stack.drop_last() + kids, res2)
    }
}

/// The depths that `rain` gives. The whole profile is the first task, with
/// all the rain that fell on it; each task either fills its range, or settles
/// the water beside its peak and hands both sides on as tasks of their own,
/// the right one resolved first.
pub closed spec fn rain_model(hours: int, s: Seq<usize>) -> Seq<Depth> {
    if s.len() == 0 {
        Seq::empty()
    } else if s.len() == 1 {
        seq![Depth { num: hours as i128, den: 1 }]
    } else {
        run(
            hours,
            s,
            s.len(),
            seq![
                Task {
                    side: Side::Right,
                    start: 0,
                    len: s.len() as usize,
                    halves: (2 * hours * s.len()) as i128,
                },
            ],
            Seq::new(s.len(), |q: int| Depth { num: 0, den: 1 }),
        )
    }
}

/// What `rain_model` is.
pub(crate) proof fn lemma_rain_model(hours: int, s: Seq<usize>)
    ensures
        rain_model(hours, s) == {
            if s.len() == 0 {
                Seq::empty()
            } else if s.len() == 1 {
                seq![Depth { num: hours as i128, den: 1 }]
            } else {
                run(
                    hours,
                    s,
                    s.len(),
                    seq![
                        Task {
                            side: Side::Right,
                            start: 0,
                            len: s.len() as usize,
                            halves: (2 * hours * s.len()) as i128,
                        },
                    ],
                    Seq::new(s.len(), |q: int| Depth { num: 0, den: 1 }),
                )
            }
        },
{
}

/// Positions that the pending tasks still have to resolve.
pub(crate) open spec fn pending(s: Seq<Task>) -> nat
    decreases s.len(),
{
    if s.len() == 0 {
        0
    } else {
        pending(s.drop_last()) + s.last().len as nat
    }
}

/// Bound on every amount of water, in half units.
pub(crate) open spec fn amount_cap() -> int {
    0x10_0000_0000_0000_0000_0000_0000
}

} // verus!
