//! A quest about knights and tents along a road: lowercase letters pair
//! up with the uppercase knights seen so far.

use vstd::prelude::*;

verus! {

/// Number of occurrences of `b` among the first `i` bytes.
pub open spec fn count_byte(s: Seq<u8>, b: u8, i: int) -> int
    decreases i,
{
    if i <= 0 {
        0
    } else {
        count_byte(s, b, i - 1) + if s[i - 1] == b {
            1int
        } else {
            0int
        }
    }
}

/// Pairs formed by each lowercase `lo` with every earlier uppercase `up`.
pub open spec fn pairs_upto(s: Seq<u8>, up: u8, lo: u8, i: int) -> int
    decreases i,
{
    if i <= 0 {
        0
    } else {
        pairs_upto(s, up, lo, i - 1) + if s[i - 1] == lo {
            count_byte(s, up, i - 1)
        } else {
            0int
        }
    }
}

/// Counts are never negative and grow by at most one per byte.
proof fn lemma_count_byte_bound(s: Seq<u8>, b: u8, i: int)
    requires
        0 <= i <= s.len(),
    ensures
        0 <= count_byte(s, b, i) <= i,
    decreases i,
{
    if i > 0 {
        lemma_count_byte_bound(s, b, i - 1);
    }
}

/// Pair counts are bounded by the square of the prefix length.
proof fn lemma_pairs_bound(s: Seq<u8>, up: u8, lo: u8, i: int)
    requires
        0 <= i <= s.len(),
    ensures
        0 <= pairs_upto(s, up, lo, i) <= i * i,
    decreases i,
{
    if i > 0 {
        lemma_pairs_bound(s, up, lo, i - 1);
        lemma_count_byte_bound(s, up, i - 1);
        assert((i - 1) * (i - 1) + (i - 1) <= i * i) by (nonlinear_arith)
            requires
                i > 0,
        ;
    }
}

/// First part: every `a` tent pairs with each earlier `A` knight.
pub fn solve_part1(input: &[u8]) -> (r: Option<u64>)
    requires
        input@.len() < 0x1000_0000,
    ensures
        r == Some(pairs_upto(input@, 65, 97, input@.len() as int) as u64),
{
    let mut a_so_far: u64 = 0;
    let mut a_pairs: u64 = 0;
    let mut i: usize = 0;
    while i < input.len()
        invariant
            0 <= i <= input@.len(),
            input@.len() < 0x1000_0000,
            a_so_far == count_byte(input@, 65, i as int),
            a_pairs == pairs_upto(input@, 65, 97, i as int),
        decreases input@.len() - i,
    {
        proof {
            lemma_count_byte_bound(input@, 65, i as int);
            lemma_pairs_bound(input@, 65, 97, i as int);
            assert((i as int) * (i as int) < 0x1000_0000_0000_0000) by (nonlinear_arith)
                requires
                    0 <= (i as int) < 0x1000_0000,
            ;
        }
        let b = input[i];
        if b == 65 {
            a_so_far = a_so_far + 1;
        } else if b == 97 {
            a_pairs = a_pairs + a_so_far;
        }
        i += 1;
    }
    Some(a_pairs)
}

/// Second part: three independent letters pair up the same way.
pub fn solve_part2(input: &[u8]) -> (r: Option<u64>)
    requires
        input@.len() < 0x1000_0000,
    ensures
        r == Some(
            (pairs_upto(input@, 65, 97, input@.len() as int) + pairs_upto(
                input@,
                66,
                98,
                input@.len() as int,
            ) + pairs_upto(input@, 67, 99, input@.len() as int)) as u64,
        ),
{
    let mut a_so_far: u64 = 0;
    let mut b_so_far: u64 = 0;
    let mut c_so_far: u64 = 0;
    let mut a_pairs: u64 = 0;
    let mut b_pairs: u64 = 0;
    let mut c_pairs: u64 = 0;
    let mut i: usize = 0;
    while i < input.len()
        invariant
            0 <= i <= input@.len(),
            input@.len() < 0x1000_0000,
            a_so_far == count_byte(input@, 65, i as int),
            b_so_far == count_byte(input@, 66, i as int),
            c_so_far == count_byte(input@, 67, i as int),
            a_pairs == pairs_upto(input@, 65, 97, i as int),
            b_pairs == pairs_upto(input@, 66, 98, i as int),
            c_pairs == pairs_upto(input@, 67, 99, i as int),
        decreases input@.len() - i,
    {
        proof {
            lemma_count_byte_bound(input@, 65, i as int);
            lemma_count_byte_bound(input@, 66, i as int);
            lemma_count_byte_bound(input@, 67, i as int);
            lemma_pairs_bound(input@, 65, 97, i as int);
            lemma_pairs_bound(input@, 66, 98, i as int);
            lemma_pairs_bound(input@, 67, 99, i as int);
            assert((i as int) * (i as int) < 0x1000_0000_0000_0000) by (nonlinear_arith)
                requires
                    0 <= (i as int) < 0x1000_0000,
            ;
        }
        let b = input[i];
        if b == 65 {
            a_so_far = a_so_far + 1;
        } else if b == 66 {
            b_so_far = b_so_far + 1;
        } else if b == 67 {
            c_so_far = c_so_far + 1;
        } else if b == 97 {
            a_pairs = a_pairs + a_so_far;
        } else if b == 98 {
            b_pairs = b_pairs + b_so_far;
        } else if b == 99 {
            c_pairs = c_pairs + c_so_far;
        }
        i += 1;
    }
    proof {
        lemma_pairs_bound(input@, 65, 97, input@.len() as int);
        lemma_pairs_bound(input@, 66, 98, input@.len() as int);
        lemma_pairs_bound(input@, 67, 99, input@.len() as int);
        assert(3 * (input@.len() * input@.len()) < 0x3000_0000_0000_0000) by (nonlinear_arith)
            requires
                input@.len() < 0x1000_0000,
        ;
    }
    Some(a_pairs + b_pairs + c_pairs)
}

} // verus!
