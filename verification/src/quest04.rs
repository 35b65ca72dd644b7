//! A quest about crane speeds: the input is one decimal number per line
//! (with a trailing newline), and each part combines the first and the
//! last number.

use vstd::prelude::*;

use crate::bytes::{split_bytes, parse_u64, spec_split, all_digits, digits_val, views};

verus! {

/// The input's lines: the trailing newline byte is dropped and the rest
/// splits at every newline.
pub open spec fn q04_lines(input: Seq<u8>) -> Seq<Seq<u8>> {
    spec_split(input.take(input.len() - 1), 10)
}

/// Every line is a nonempty decimal number that fits in a `u64`.
pub open spec fn q04_ok(input: Seq<u8>) -> bool {
    &&& input.len() >= 1
    &&& forall|k: int|
        0 <= k < q04_lines(input).len() ==> (#[trigger] q04_lines(input)[k]).len() >= 1
            && all_digits(q04_lines(input)[k]) && digits_val(q04_lines(input)[k]) <= u64::MAX
}

/// The number on line `k`.
pub open spec fn q04_num(input: Seq<u8>, k: int) -> int {
    digits_val(q04_lines(input)[k])
}

/// Reads one number per line.
pub fn parse(input: &[u8]) -> (r: Option<Vec<u64>>)
    ensures
        r is Some <==> q04_ok(input@),
        r matches Some(ns) ==> ns@.len() == q04_lines(input@).len() && forall|k: int|
            0 <= k < ns@.len() ==> ns@[k] == q04_num(input@, k),
{
    if input.len() == 0 {
        return None;
    }
    let mut body: Vec<u8> = Vec::new();
    let mut i: usize = 0;
    proof {
        assert(body@ =~= input@.take(0));
    }
    while i < input.len() - 1
        invariant
            0 <= i <= input@.len() - 1,
            input@.len() >= 1,
            body@ =~= input@.take(i as int),
        decreases input@.len() - i,
    {
        body.push(input[i]);
        proof {
            assert(body@ =~= input@.take(i + 1));
        }
        i += 1;
    }
    let parts = split_bytes(body.as_slice(), 10);
    let ghost ls = q04_lines(input@);
    proof {
        assert(views(parts@) == ls);
    }
    let mut ns: Vec<u64> = Vec::new();
    let mut k: usize = 0;
    while k < parts.len()
        invariant
            0 <= k <= parts@.len(),
            views(parts@) == ls,
            ns@.len() == k,
            input@.len() >= 1,
            ls == q04_lines(input@),
            forall|j: int|
                0 <= j < k ==> (#[trigger] ls[j]).len() >= 1 && all_digits(ls[j]) && digits_val(
                    ls[j],
                ) <= u64::MAX,
            forall|j: int| 0 <= j < k ==> ns@[j] == digits_val(ls[j]),
        decreases parts@.len() - k,
    {
        proof {
            assert(parts@[k as int]@ == ls[k as int]);
        }
        match parse_u64(parts[k].as_slice()) {
            Some(v) => {
                ns.push(v);
            },
            None => {
                proof {
                    assert(!q04_ok(input@));
                }
                return None;
            },
        }
        k += 1;
    }
    Some(ns)
}

/// First part: 2025 times the first number, divided by the last.
pub fn solve_part1(input: &[u8]) -> (r: Option<u64>)
    ensures
        r is Some <==> (q04_ok(input@) && q04_lines(input@).len() >= 2 && 2025 * q04_num(input@, 0)
            <= u64::MAX && q04_num(input@, q04_lines(input@).len() - 1) != 0),
        r matches Some(v) ==> v == 2025 * q04_num(input@, 0) / q04_num(
            input@,
            q04_lines(input@).len() - 1,
        ),
{
    let ns = match parse(input) {
        Some(ns) => ns,
        None => {
            return None;
        },
    };
    if ns.len() < 2 {
        return None;
    }
    let first = ns[0];
    let last = ns[ns.len() - 1];
    proof {
        assert((2025 * first <= u64::MAX) == (first <= u64::MAX / 2025)) by (nonlinear_arith);
    }
    if first > u64::MAX / 2025 {
        return None;
    }
    if last == 0 {
        return None;
    }
    Some(2025 * first / last)
}

/// Second part: ten trillion times the last number, divided by the first
/// and rounded up.
pub fn solve_part2(input: &[u8]) -> (r: Option<u64>)
    ensures
        r is Some <==> (q04_ok(input@) && q04_lines(input@).len() >= 2 && 10000000000000 * q04_num(
            input@,
            q04_lines(input@).len() - 1,
        ) <= u64::MAX && q04_num(input@, 0) != 0),
        r matches Some(v) ==> v == (10000000000000 * q04_num(input@, q04_lines(input@).len() - 1)
            + q04_num(input@, 0) - 1) / q04_num(input@, 0),
{
    let ns = match parse(input) {
        Some(ns) => ns,
        None => {
            return None;
        },
    };
    if ns.len() < 2 {
        return None;
    }
    let first = ns[0];
    let last = ns[ns.len() - 1];
    proof {
        assert((10000000000000 * last <= u64::MAX) == (last <= u64::MAX / 10000000000000))
            by (nonlinear_arith);
    }
    if last > u64::MAX / 10000000000000 {
        return None;
    }
    if first == 0 {
        return None;
    }
    let a = 10000000000000 * last;
    let q = ((a as u128 + first as u128 - 1) / first as u128) as u64;
    proof {
        assert((a as int + first as int - 1) / first as int <= a as int) by (nonlinear_arith)
            requires
                first as int >= 1,
                a as int >= 0,
        ;
    }
    Some(q)
}

/// The first two parts together; the third part of this quest computes
/// with floating-point ratios and stays with the callers.
pub fn solve(input1: &[u8], input2: &[u8]) -> (r: (Option<u64>, Option<u64>))
    ensures
        r.0 matches Some(v) ==> v == 2025 * q04_num(input1@, 0) / q04_num(
            input1@,
            q04_lines(input1@).len() - 1,
        ),
        r.1 matches Some(v) ==> v == (10000000000000 * q04_num(
            input2@,
            q04_lines(input2@).len() - 1,
        ) + q04_num(input2@, 0) - 1) / q04_num(input2@, 0),
{
    (solve_part1(input1), solve_part2(input2))
}

} // verus!
