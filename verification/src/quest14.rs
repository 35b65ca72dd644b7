//! A quest about a floor of tiles that toggle by a parity rule on their
//! diagonal neighbours: each part loads the floor, steps it a number of
//! times and sums the active tiles after every step.

use vstd::prelude::*;

pub mod floor;

use crate::quest14::floor::{Floor, floor_wf, grid_count, next_cell, q14_lines, q14_load_ok, row_bit};

verus! {

/// `b` is the grid `a` stepped once: same side, the parity rule on every
/// tile, and no stray bits beyond the side.
pub open spec fn grid_rel(a: Seq<u64>, b: Seq<u64>, side: int) -> bool {
    &&& b.len() == side
    &&& forall|y: int, x: int|
        0 <= y < side && 0 <= x < side ==> #[trigger] row_bit(b[y], x) == next_cell(a, side, x, y)
}

/// The counts of a chain of grids, summed from generation 1 to `k`.
pub open spec fn chain_total(gs: Seq<Seq<u64>>, side: int, k: int) -> int
    decreases k,
{
    if k <= 0 {
        0
    } else {
        chain_total(gs, side, k - 1) + grid_count(gs[k], side, side)
    }
}

/// `gs` is a valid stepping chain from the floor read out of the input:
/// the first grid holds the text's tiles (missing trailing lines read as
/// inactive rows) and every later grid is its predecessor stepped once.
pub open spec fn chain_ok(input: Seq<u8>, gs: Seq<Seq<u64>>, side: int, n: int) -> bool {
    &&& gs.len() == n + 1
    &&& q14_load_ok(input)
    &&& side == q14_lines(input)[0].len()
    &&& forall|y: int, x: int|
        0 <= y < side && 0 <= x < side ==> #[trigger] row_bit(gs[0][y], x) == (y < q14_lines(
            input,
        ).len() && q14_lines(input)[y][x] == 35)
    &&& forall|k: int| 0 <= k < n ==> grid_rel(#[trigger] gs[k], gs[k + 1], side)
}

/// Loads the floor and steps it `n` times, summing the active tiles
/// after every step.
fn run_floor(input: &[u8], n: u64) -> (r: Option<u64>)
    requires
        n <= 0x10000,
    ensures
        r is Some <==> q14_load_ok(input@),
        r matches Some(v) ==> exists|gs: Seq<Seq<u64>>|
            #[trigger] chain_ok(input@, gs, q14_lines(input@)[0].len() as int, n as int) && v
                == chain_total(gs, q14_lines(input@)[0].len() as int, n as int),
{
    let mut f = match Floor::load(input) {
        Some(f) => f,
        None => {
            return None;
        },
    };
    let side = f.side;
    let ghost sideg = side as int;
    let mut total: u64 = 0;
    let mut k: u64 = 0;
    let ghost mut gs: Seq<Seq<u64>> = seq![f.active@];
    proof {
        crate::quest14::floor::lemma_grid_count_bound(f.active@, sideg, sideg);
        assert(gs[0] == f.active@);
        assert forall|y: int, x: int|
            0 <= y < sideg && 0 <= x < sideg implies #[trigger] row_bit(gs[0][y], x) == (y
            < q14_lines(input@).len() && q14_lines(input@)[y][x] == 35) by {
            assert(crate::quest14::floor::cell(f.active@, x, y) == (y < q14_lines(input@).len()
                && q14_lines(input@)[y][x] == 35));
        }
    }
    while k < n
        invariant
            0 <= k <= n,
            n <= 0x10000,
            floor_wf(f),
            f.side == side,
            sideg == side as int,
            side <= 63,
            gs.len() == k + 1,
            gs[k as int] == f.active@,
            forall|j: int| 0 <= j < k ==> grid_rel(#[trigger] gs[j], gs[j + 1], sideg),
            q14_load_ok(input@),
            forall|y: int, x: int|
                0 <= y < sideg && 0 <= x < sideg ==> #[trigger] row_bit(gs[0][y], x) == (y
                    < q14_lines(input@).len() && q14_lines(input@)[y][x] == 35),
            total == chain_total(gs, sideg, k as int),
            0 <= total,
            total <= 3969 * k,
        decreases n - k,
    {
        let ghost oldgs = gs;
        let ghost prevg = f.active@;
        f.step();
        proof {
            gs = gs.push(f.active@);
            assert(forall|j: int| 0 <= j <= k ==> oldgs[j] == #[trigger] gs[j]);
            assert(grid_rel(gs[k as int], gs[k as int + 1], sideg)) by {
                assert(gs[k as int] == prevg && gs[k as int + 1] == f.active@);
                assert forall|y: int, x: int|
                    0 <= y < sideg && 0 <= x < sideg implies #[trigger] row_bit(f.active@[y], x)
                    == next_cell(prevg, sideg, x, y) by {
                    assert(crate::quest14::floor::cell(f.active@, x, y) == next_cell(
                        prevg,
                        sideg,
                        x,
                        y,
                    ));
                }
            }
        }
        let t = f.total_active();
        proof {
            crate::quest14::floor::lemma_grid_count_bound(f.active@, sideg, sideg);
            assert(sideg * sideg <= 3969) by (nonlinear_arith)
                requires
                    0 <= sideg <= 63,
            ;
            assert(chain_total(gs, sideg, k as int + 1) == chain_total(gs, sideg, k as int)
                + grid_count(gs[k as int + 1], sideg, sideg));
            assert(chain_total(gs, sideg, k as int) == chain_total(oldgs, sideg, k as int)) by {
                lemma_chain_congruent(oldgs, gs, sideg, k as int);
            }
        }
        proof {
            assert(3969 * (k as int) + 3969 == 3969 * (k as int + 1));
        }
        total = total + t;
        k += 1;
    }
    proof {
        assert(chain_ok(input@, gs, sideg, n as int));
    }
    Some(total)
}

/// Two chains that agree on their first cells have the same totals.
proof fn lemma_chain_congruent(a: Seq<Seq<u64>>, b: Seq<Seq<u64>>, side: int, k: int)
    requires
        0 <= k < a.len(),
        b.len() >= k + 1,
        forall|j: int| 0 <= j <= k ==> a[j] == #[trigger] b[j],
    ensures
        chain_total(a, side, k) == chain_total(b, side, k),
    decreases k,
{
    if k > 0 {
        lemma_chain_congruent(a, b, side, k - 1);
    }
}

/// First part: ten steps.
pub fn solve_part1(input: &[u8]) -> (r: Option<u64>)
    ensures
        r is Some <==> q14_load_ok(input@),
        r matches Some(v) ==> exists|gs: Seq<Seq<u64>>|
            #[trigger] chain_ok(input@, gs, q14_lines(input@)[0].len() as int, 10) && v
                == chain_total(gs, q14_lines(input@)[0].len() as int, 10),
{
    run_floor(input, 10)
}

/// Second part: 2025 steps.
pub fn solve_part2(input: &[u8]) -> (r: Option<u64>)
    ensures
        r is Some <==> q14_load_ok(input@),
        r matches Some(v) ==> exists|gs: Seq<Seq<u64>>|
            #[trigger] chain_ok(input@, gs, q14_lines(input@)[0].len() as int, 2025) && v
                == chain_total(gs, q14_lines(input@)[0].len() as int, 2025),
{
    run_floor(input, 2025)
}

/// The first two parts together; the third part detects a cycle through
/// a hash map keyed by whole floors and stays with the callers.
pub fn solve(input1: &[u8], input2: &[u8]) -> (r: (Option<u64>, Option<u64>))
    ensures
        r.0 is Some <==> q14_load_ok(input1@),
        r.1 is Some <==> q14_load_ok(input2@),
        r.0 matches Some(v) ==> exists|gs: Seq<Seq<u64>>|
            #[trigger] chain_ok(input1@, gs, q14_lines(input1@)[0].len() as int, 10) && v
                == chain_total(gs, q14_lines(input1@)[0].len() as int, 10),
        r.1 matches Some(v) ==> exists|gs: Seq<Seq<u64>>|
            #[trigger] chain_ok(input2@, gs, q14_lines(input2@)[0].len() as int, 2025) && v
                == chain_total(gs, q14_lines(input2@)[0].len() as int, 2025),
{
    (solve_part1(input1), solve_part2(input2))
}

} // verus!
