//! A quest about a carousel wheel built by alternately appending and
//! prepending entries, then reading the seat a fixed number of turns
//! away.  The later parts build the wheel out of whole ranges.

use vstd::prelude::*;

use crate::bytes::{split_bytes, parse_u64, spec_split, all_digits, digits_val, views};

verus! {

/// The input's lines, a trailing empty line dropped.
pub open spec fn q13_lines(input: Seq<u8>) -> Seq<Seq<u8>> {
    let p = spec_split(input, 10);
    if p.len() >= 1 && p.last().len() == 0 {
        p.drop_last()
    } else {
        p
    }
}

/// Splits the input into lines, dropping one trailing empty line.
fn split_lines(input: &[u8]) -> (r: Vec<Vec<u8>>)
    ensures
        views(r@) == q13_lines(input@),
{
    let mut parts = split_bytes(input, 10);
    let ghost pre = parts@;
    if parts.len() >= 1 && parts[parts.len() - 1].len() == 0 {
        parts.pop();
        proof {
            assert(views(parts@) =~= views(pre).drop_last());
        }
    }
    parts
}

/// Every line is a number that fits in a `u16`.
pub open spec fn q13_p1_ok(input: Seq<u8>) -> bool {
    forall|k: int|
        0 <= k < q13_lines(input).len() ==> (#[trigger] q13_lines(input)[k]).len() >= 1
            && all_digits(q13_lines(input)[k]) && digits_val(q13_lines(input)[k]) <= u16::MAX
}

/// The wheel after feeding the first `i` numbers: even positions append
/// clockwise, odd positions prepend.
pub open spec fn q13_wheel(input: Seq<u8>, i: int) -> Seq<u64>
    decreases i,
{
    if i <= 0 {
        seq![1u64]
    } else {
        let prev = q13_wheel(input, i - 1);
        let x = digits_val(q13_lines(input)[i - 1]) as u64;
        if (i - 1) % 2 == 0 {
            prev.push(x)
        } else {
            seq![x] + prev
        }
    }
}

/// The wheel always holds one more seat than the numbers fed so far.
proof fn lemma_wheel_len(input: Seq<u8>, i: int)
    requires
        i >= 0,
    ensures
        q13_wheel(input, i).len() == i + 1,
    decreases i,
{
    if i > 0 {
        lemma_wheel_len(input, i - 1);
    }
}

/// First part: the seat 2025 turns clockwise from the wheel's middle.
pub fn solve_part1(input: &[u8]) -> (r: Option<u64>)
    requires
        input@.len() < 0x1000_0000,
    ensures
        r is Some <==> q13_p1_ok(input@),
        r matches Some(v) ==> {
            let w = q13_wheel(input@, q13_lines(input@).len() as int);
            v == w[(((w.len() - 1) as int / 2 + 2025) % w.len() as int)]
        },
{
    let parts = split_lines(input);
    let ghost ls = q13_lines(input@);
    let mut wheel: Vec<u64> = Vec::new();
    wheel.push(1);
    proof {
        assert(wheel@ =~= q13_wheel(input@, 0));
    }
    let mut i: usize = 0;
    while i < parts.len()
        invariant
            0 <= i <= parts@.len(),
            views(parts@) == ls,
            ls == q13_lines(input@),
            wheel@ == q13_wheel(input@, i as int),
            wheel@.len() == i + 1,
            forall|j: int|
                0 <= j < i ==> (#[trigger] ls[j]).len() >= 1 && all_digits(ls[j]) && digits_val(
                    ls[j],
                ) <= u16::MAX,
        decreases parts@.len() - i,
    {
        proof {
            assert(views(parts@)[i as int] == parts@[i as int]@);
        }
        let x = match parse_u64(parts[i].as_slice()) {
            Some(x) => x,
            None => {
                proof {
                    assert(!q13_p1_ok(input@));
                }
                return None;
            },
        };
        if x > 65535 {
            proof {
                assert(!q13_p1_ok(input@));
            }
            return None;
        }
        let ghost pre = wheel@;
        if i % 2 == 0 {
            wheel.push(x);
        } else {
            wheel.insert(0, x);
            proof {
                assert(wheel@ =~= seq![x] + pre);
            }
        }
        i += 1;
    }
    let l = wheel.len();
    let idx = ((l - 1) / 2 + 2025) % l;
    Some(wheel[idx])
}

/// A carousel range item: its bounds and its direction.
pub open spec fn q13_items(ps: Seq<(u64, u64)>, i: int) -> Seq<(u64, u64, bool)>
    decreases i,
{
    if i <= 0 {
        seq![(1u64, 1u64, true)]
    } else {
        let prev = q13_items(ps, i - 1);
        let a = ps[i - 1].0;
        let b = ps[i - 1].1;
        if (i - 1) % 2 == 0 {
            prev.push((a, b, true))
        } else {
            seq![(a, b, false)] + prev
        }
    }
}

/// The number of seats contributed by the first `i` ranges, plus one.
pub open spec fn q13_len(ps: Seq<(u64, u64)>, i: int) -> int
    decreases i,
{
    if i <= 0 {
        1
    } else {
        q13_len(ps, i - 1) + (ps[i - 1].1 - ps[i - 1].0 + 1)
    }
}

/// The target offset: the requested turns, shifted by every prepended
/// range's length.
pub open spec fn q13_target(ps: Seq<(u64, u64)>, i: int, turns: int) -> int
    decreases i,
{
    if i <= 0 {
        turns
    } else {
        q13_target(ps, i - 1, turns) + if (i - 1) % 2 == 1 {
            ps[i - 1].1 - ps[i - 1].0 + 1
        } else {
            0
        }
    }
}

/// Walks the wheel items clockwise until the target seat's range and
/// reads the seat; `None` when the target falls off a range boundary.
pub open spec fn q13_walk(items: Seq<(u64, u64, bool)>, k: int, pos: int, t: int) -> Option<u64>
    decreases items.len() - k,
{
    if k < 0 || k >= items.len() {
        None
    } else {
        let a = items[k].0;
        let b = items[k].1;
        let fwd = items[k].2;
        let il = b - a + 1;
        if pos + il < t {
            q13_walk(items, k + 1, pos + il, t)
        } else {
            let rem = t - pos;
            if fwd {
                if a + rem <= u32::MAX {
                    Some((a + rem) as u64)
                } else {
                    None
                }
            } else {
                if b - rem >= 0 {
                    Some((b - rem) as u64)
                } else {
                    None
                }
            }
        }
    }
}

/// Every line is a pair of range bounds `a-b` with `a <= b`, both within
/// `u32`.
pub open spec fn q13_p23_ok(input: Seq<u8>) -> bool {
    forall|k: int|
        0 <= k < q13_lines(input).len() ==> {
            let fields = spec_split(#[trigger] q13_lines(input)[k], 45);
            &&& fields.len() == 2
            &&& fields[0].len() >= 1 && all_digits(fields[0])
            &&& fields[1].len() >= 1 && all_digits(fields[1])
            &&& digits_val(fields[0]) <= u32::MAX
            &&& digits_val(fields[1]) <= u32::MAX
            &&& digits_val(fields[0]) <= digits_val(fields[1])
        }
}

/// The range bounds of line `k`.
pub open spec fn q13_pair(input: Seq<u8>, k: int) -> (u64, u64) {
    let fields = spec_split(q13_lines(input)[k], 45);
    (digits_val(fields[0]) as u64, digits_val(fields[1]) as u64)
}

/// The parsed pairs of the whole input.
pub open spec fn q13_pairs(input: Seq<u8>) -> Seq<(u64, u64)> {
    Seq::new(q13_lines(input).len(), |k: int| q13_pair(input, k))
}

/// Both later parts: the seat the given number of turns clockwise from
/// the initial seat, over a wheel of ranges.
pub fn solve_part23(input: &[u8], turns: u64) -> (r: Option<u64>)
    requires
        input@.len() < 0x10_0000,
        turns <= 0x1000_0000_0000_0000,
    ensures
        r is Some ==> q13_p23_ok(input@),
        r matches Some(v) ==> {
            let ps = q13_pairs(input@);
            let n = ps.len() as int;
            let items = q13_items(ps, n);
            let t = q13_target(ps, n, turns as int) % q13_len(ps, n);
            q13_walk(items, 0, 0, t) == Some(v)
        },
        r is None ==> !q13_p23_ok(input@) || {
            let ps = q13_pairs(input@);
            let n = ps.len() as int;
            q13_walk(q13_items(ps, n), 0, 0, q13_target(ps, n, turns as int) % q13_len(ps, n))
                is None
        },
{
    let parts = split_lines(input);
    let ghost ls = q13_lines(input@);
    let ghost ps = q13_pairs(input@);
    let mut pairs: Vec<(u64, u64)> = Vec::new();
    let mut i: usize = 0;
    while i < parts.len()
        invariant
            0 <= i <= parts@.len(),
            views(parts@) == ls,
            ls == q13_lines(input@),
            ps == q13_pairs(input@),
            pairs@.len() == i,
            forall|j: int| 0 <= j < i ==> #[trigger] pairs@[j] == ps[j],
            forall|j: int|
                0 <= j < i ==> {
                    let fields = spec_split(#[trigger] ls[j], 45);
                    &&& fields.len() == 2
                    &&& fields[0].len() >= 1 && all_digits(fields[0])
                    &&& fields[1].len() >= 1 && all_digits(fields[1])
                    &&& digits_val(fields[0]) <= u32::MAX
                    &&& digits_val(fields[1]) <= u32::MAX
                    &&& digits_val(fields[0]) <= digits_val(fields[1])
                },
        decreases parts@.len() - i,
    {
        proof {
            assert(views(parts@)[i as int] == parts@[i as int]@);
        }
        let fields = split_bytes(parts[i].as_slice(), 45);
        if fields.len() != 2 {
            proof {
                assert(!q13_p23_ok(input@));
            }
            return None;
        }
        proof {
            assert(views(fields@)[0] == fields@[0]@);
            assert(views(fields@)[1] == fields@[1]@);
        }
        let a = match parse_u64(fields[0].as_slice()) {
            Some(a) => a,
            None => {
                proof {
                    assert(!q13_p23_ok(input@));
                }
                return None;
            },
        };
        let b = match parse_u64(fields[1].as_slice()) {
            Some(b) => b,
            None => {
                proof {
                    assert(!q13_p23_ok(input@));
                }
                return None;
            },
        };
        if a > 4294967295 || b > 4294967295 || a > b {
            proof {
                assert(!q13_p23_ok(input@));
            }
            return None;
        }
        pairs.push((a, b));
        i += 1;
    }
    let n = pairs.len();
    proof {
        assert(pairs@ =~= ps);
        assert forall|j: int|
            0 <= j < ps.len() implies (#[trigger] ps[j]).0 <= ps[j].1 && ps[j].1 <= u32::MAX by {
            assert(ps[j] == q13_pair(input@, j));
            let fields = spec_split(ls[j], 45);
            crate::bytes::lemma_digits_nonneg(fields[0]);
            crate::bytes::lemma_digits_nonneg(fields[1]);
        }
        crate::bytes::lemma_split_len(input@, 10);
        assert(n <= 0x10_0000);
        lemma_q13_bounds(ps, n as int);
    }

    // Build the items while accumulating the wheel length and the target.
    let mut items: Vec<(u64, u64, bool)> = Vec::new();
    items.push((1, 1, true));
    let mut wlen: u64 = 1;
    let mut target: u64 = turns;
    let mut k: usize = 0;
    proof {
        assert(items@ =~= q13_items(ps, 0));
    }
    while k < n
        invariant
            0 <= k <= n,
            n == ps.len(),
            pairs@ == ps,
            n <= 0x10_0000,
            turns <= 0x1000_0000_0000_0000,
            forall|j: int| 0 <= j < n ==> (#[trigger] ps[j]).0 <= ps[j].1 && ps[j].1 <= u32::MAX,
            items@ == q13_items(ps, k as int),
            wlen == q13_len(ps, k as int),
            target == q13_target(ps, k as int, turns as int),
            1 <= wlen <= 1 + 0x1_0000_0000 * (k as int),
            turns <= target <= turns + 0x1_0000_0000 * (k as int),
        decreases n - k,
    {
        let (a, b) = pairs[k];
        let ghost pre = items@;
        proof {
            assert(0x1_0000_0000 * (k as int) + 0x1_0000_0000 == 0x1_0000_0000 * (k as int + 1));
        }
        if k % 2 == 0 {
            items.push((a, b, true));
        } else {
            items.insert(0, (a, b, false));
            proof {
                assert(items@ =~= seq![(a, b, false)] + pre);
            }
            target = target + (b - a + 1);
        }
        wlen = wlen + (b - a + 1);
        k += 1;
    }
    let t = target % wlen;

    // Walk the items clockwise to the target seat.
    let mut pos: u64 = 0;
    let mut idx: usize = 0;
    proof {
        lemma_q13_items_len(ps, n as int);
        lemma_q13_items_bounds(ps, n as int);
        assert(q13_p23_ok(input@)) by {
            assert forall|k2: int| 0 <= k2 < q13_lines(input@).len() implies {
                let fields = spec_split(#[trigger] q13_lines(input@)[k2], 45);
                &&& fields.len() == 2
                &&& fields[0].len() >= 1 && all_digits(fields[0])
                &&& fields[1].len() >= 1 && all_digits(fields[1])
                &&& digits_val(fields[0]) <= u32::MAX
                &&& digits_val(fields[1]) <= u32::MAX
                &&& digits_val(fields[0]) <= digits_val(fields[1])
            } by {
                assert(0 <= k2 < n);
            }
        }
    }
    while idx < items.len()
        invariant
            items@ == q13_items(ps, n as int),
            items@.len() == n + 1,
            forall|j: int|
                0 <= j < items@.len() ==> (#[trigger] items@[j]).0 <= items@[j].1 && items@[j].1
                    <= u32::MAX,
            0 <= idx <= items@.len(),
            t < wlen,
            wlen <= 1 + 0x1_0000_0000 * (n as int),
            n <= 0x10_0000,
            pos <= t,
            ps == q13_pairs(input@),
            n == ps.len(),
            q13_p23_ok(input@),
            t as int == q13_target(ps, n as int, turns as int) % q13_len(ps, n as int),
            q13_walk(items@, 0, 0, t as int) == q13_walk(items@, idx as int, pos as int, t as int),
        decreases items@.len() - idx,
    {
        let (a, b, fwd) = items[idx];
        let il = b - a + 1;
        if pos + il < t {
            pos = pos + il;
            idx += 1;
        } else {
            let rem = t - pos;
            if fwd {
                if a + rem > 4294967295 {
                    return None;
                }
                return Some(a + rem);
            } else {
                if rem > b {
                    return None;
                }
                return Some(b - rem);
            }
        }
    }
    None
}

/// Wheel length and target stay within machine bounds.
proof fn lemma_q13_bounds(ps: Seq<(u64, u64)>, i: int)
    requires
        0 <= i <= ps.len(),
        forall|j: int| 0 <= j < ps.len() ==> (#[trigger] ps[j]).0 <= ps[j].1 && ps[j].1 <= u32::MAX,
    ensures
        1 <= q13_len(ps, i) <= 1 + 0x1_0000_0000 * i,
    decreases i,
{
    if i > 0 {
        lemma_q13_bounds(ps, i - 1);
        assert(0x1_0000_0000 * (i - 1) + 0x1_0000_0000 == 0x1_0000_0000 * i);
    }
}

/// The item list holds one entry per range, plus the initial seat.
proof fn lemma_q13_items_len(ps: Seq<(u64, u64)>, i: int)
    requires
        0 <= i,
    ensures
        q13_items(ps, i).len() == i + 1,
    decreases i,
{
    if i > 0 {
        lemma_q13_items_len(ps, i - 1);
    }
}

/// Every item carries an ordered range within `u32`.
proof fn lemma_q13_items_bounds(ps: Seq<(u64, u64)>, i: int)
    requires
        0 <= i <= ps.len(),
        forall|j: int| 0 <= j < ps.len() ==> (#[trigger] ps[j]).0 <= ps[j].1 && ps[j].1 <= u32::MAX,
    ensures
        forall|j: int|
            0 <= j < q13_items(ps, i).len() ==> (#[trigger] q13_items(ps, i)[j]).0 <= q13_items(
                ps,
                i,
            )[j].1 && q13_items(ps, i)[j].1 <= u32::MAX,
    decreases i,
{
    if i > 0 {
        lemma_q13_items_bounds(ps, i - 1);
        lemma_q13_items_len(ps, i - 1);
        let prev = q13_items(ps, i - 1);
        assert forall|j: int|
            0 <= j < q13_items(ps, i).len() implies (#[trigger] q13_items(ps, i)[j]).0
            <= q13_items(ps, i)[j].1 && q13_items(ps, i)[j].1 <= u32::MAX by {
            if (i - 1) % 2 == 0 {
                if j < prev.len() {
                    assert(q13_items(ps, i)[j] == prev[j]);
                }
            } else {
                if j >= 1 {
                    assert(q13_items(ps, i)[j] == prev[j - 1]);
                }
            }
        }
    }
}

/// Second part: a fixed twenty million turns and change.
pub fn solve_part2(input: &[u8]) -> (r: Option<u64>)
    requires
        input@.len() < 0x10_0000,
    ensures
        r is Some ==> q13_p23_ok(input@),
        r matches Some(v) ==> {
            let ps = q13_pairs(input@);
            let n = ps.len() as int;
            q13_walk(
                q13_items(ps, n),
                0,
                0,
                q13_target(ps, n, 20252025) % q13_len(ps, n),
            ) == Some(v)
        },
        r is None ==> !q13_p23_ok(input@) || {
            let ps = q13_pairs(input@);
            let n = ps.len() as int;
            q13_walk(q13_items(ps, n), 0, 0, q13_target(ps, n, 20252025) % q13_len(ps, n))
                is None
        },
{
    solve_part23(input, 20252025)
}

/// Third part: two hundred billion turns and change.
pub fn solve_part3(input: &[u8]) -> (r: Option<u64>)
    requires
        input@.len() < 0x10_0000,
    ensures
        r is Some ==> q13_p23_ok(input@),
        r matches Some(v) ==> {
            let ps = q13_pairs(input@);
            let n = ps.len() as int;
            q13_walk(
                q13_items(ps, n),
                0,
                0,
                q13_target(ps, n, 202520252025) % q13_len(ps, n),
            ) == Some(v)
        },
        r is None ==> !q13_p23_ok(input@) || {
            let ps = q13_pairs(input@);
            let n = ps.len() as int;
            q13_walk(q13_items(ps, n), 0, 0, q13_target(ps, n, 202520252025) % q13_len(ps, n))
                is None
        },
{
    solve_part23(input, 202520252025)
}

/// All three parts, each on its own input.
pub fn solve(input1: &[u8], input2: &[u8], input3: &[u8]) -> (r: (
    Option<u64>,
    Option<u64>,
    Option<u64>,
))
    requires
        input1@.len() < 0x1000_0000,
        input2@.len() < 0x10_0000,
        input3@.len() < 0x10_0000,
    ensures
        r.0 matches Some(v) ==> {
            let w = q13_wheel(input1@, q13_lines(input1@).len() as int);
            v == w[(((w.len() - 1) as int / 2 + 2025) % w.len() as int)]
        },
        r.1 matches Some(v) ==> {
            let ps = q13_pairs(input2@);
            let n = ps.len() as int;
            q13_walk(
                q13_items(ps, n),
                0,
                0,
                q13_target(ps, n, 20252025) % q13_len(ps, n),
            ) == Some(v)
        },
        r.2 matches Some(v) ==> {
            let ps = q13_pairs(input3@);
            let n = ps.len() as int;
            q13_walk(
                q13_items(ps, n),
                0,
                0,
                q13_target(ps, n, 202520252025) % q13_len(ps, n),
            ) == Some(v)
        },
{
    (solve_part1(input1), solve_part2(input2), solve_part3(input3))
}

} // verus!
