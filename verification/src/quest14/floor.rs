//! The floor itself: a square bitmask grid with a parity step.

use vstd::prelude::*;

use crate::bytes::{split_bytes, spec_split, views};

verus! {

/// The bit of `row` at column `x`.
pub open spec fn row_bit(row: u64, x: int) -> bool {
    (row >> (x as u64)) & 1 == 1
}

/// Bit testing with a mask agrees with shifting the row.
pub proof fn lemma_bit_test(r: u64, x: u64)
    requires
        x < 64,
    ensures
        (r & (1u64 << x) != 0) == ((r >> x) & 1 == 1),
{
    assert((r & (1u64 << x) != 0) == ((r >> x) & 1 == 1)) by (bit_vector)
        requires
            x < 64,
    ;
}

/// Setting one bit keeps every other bit.
pub proof fn lemma_bit_set(r: u64, x: u64, j: u64)
    requires
        x < 64,
        j < 64,
    ensures
        ((r | (1u64 << x)) >> j) & 1 == 1 <==> (((r >> j) & 1 == 1) || j == x),
{
    assert(((r | (1u64 << x)) >> j) & 1 == 1 <==> (((r >> j) & 1 == 1) || j == x))
        by (bit_vector)
        requires
            x < 64,
            j < 64,
    ;
}

/// A square floor of side `side`, one row bitmask per line.  Rows
/// only carry bits below `side`, and the side stays below 64 so that
/// every shift is in range.
#[derive(Clone, PartialEq, Eq, Debug)]
pub struct Floor {
    pub side: usize,
    pub active: Vec<u64>,
}

/// The floor's shape invariant.
pub open spec fn floor_wf(f: Floor) -> bool {
    &&& f.side <= 63
    &&& f.active@.len() == f.side
    &&& forall|y: int, x: int|
        0 <= y < f.side && f.side <= x < 64 ==> !(#[trigger] row_bit(f.active@[y], x))
}

/// The tile at column `x` of row `y` is active.
pub open spec fn cell(g: Seq<u64>, x: int, y: int) -> bool {
    row_bit(g[y], x)
}

/// The number of diagonal neighbours of `(x, y)` active in the grid.
pub open spec fn diag_count(g: Seq<u64>, side: int, x: int, y: int) -> int {
    (if x > 0 && y > 0 && cell(g, x - 1, y - 1) {
        1int
    } else {
        0int
    }) + (if x + 1 < side && y > 0 && cell(g, x + 1, y - 1) {
        1int
    } else {
        0int
    }) + (if x > 0 && y + 1 < side && cell(g, x - 1, y + 1) {
        1int
    } else {
        0int
    }) + (if x + 1 < side && y + 1 < side && cell(g, x + 1, y + 1) {
        1int
    } else {
        0int
    })
}

/// The parity rule: an active tile stays active on an odd neighbour
/// count, an inactive one becomes active on an even count.
pub open spec fn next_cell(g: Seq<u64>, side: int, x: int, y: int) -> bool {
    if cell(g, x, y) {
        diag_count(g, side, x, y) % 2 == 1
    } else {
        diag_count(g, side, x, y) % 2 == 0
    }
}

/// The number of active tiles in row `y`, in columns below `x`.
pub open spec fn row_count(g: Seq<u64>, y: int, x: int) -> int
    decreases x,
{
    if x <= 0 {
        0
    } else {
        row_count(g, y, x - 1) + if cell(g, x - 1, y) {
            1int
        } else {
            0int
        }
    }
}

/// The number of active tiles in rows below `y`.
pub open spec fn grid_count(g: Seq<u64>, side: int, y: int) -> int
    decreases y,
{
    if y <= 0 {
        0
    } else {
        grid_count(g, side, y - 1) + row_count(g, y - 1, side)
    }
}

/// Row counts are bounded by the row length.
pub proof fn lemma_row_count_bound(g: Seq<u64>, y: int, x: int)
    requires
        x >= 0,
    ensures
        0 <= row_count(g, y, x) <= x,
    decreases x,
{
    if x > 0 {
        lemma_row_count_bound(g, y, x - 1);
    }
}

/// Grid counts are bounded by the grid area.
pub proof fn lemma_grid_count_bound(g: Seq<u64>, side: int, y: int)
    requires
        y >= 0,
        side >= 0,
    ensures
        0 <= grid_count(g, side, y) <= y * side,
    decreases y,
{
    if y > 0 {
        lemma_grid_count_bound(g, side, y - 1);
        lemma_row_count_bound(g, y - 1, side);
        assert((y - 1) * side + side == y * side) by (nonlinear_arith);
    }
}

impl Floor {
    /// An all-inactive floor.
    pub fn empty(side: usize) -> (r: Option<Floor>)
        ensures
            r is Some <==> side <= 63,
            r matches Some(f) ==> {
                &&& floor_wf(f)
                &&& f.side == side
                &&& forall|y: int, x: int|
                    0 <= y < side && 0 <= x < 64 ==> !(#[trigger] row_bit(f.active@[y], x))
            },
    {
        if side > 63 {
            return None;
        }
        let mut active: Vec<u64> = Vec::new();
        let mut y: usize = 0;
        while y < side
            invariant
                0 <= y <= side,
                active@.len() == y,
                forall|j: int| 0 <= j < y ==> active@[j] == 0u64,
            decreases side - y,
        {
            active.push(0);
            y += 1;
        }
        proof {
            assert forall|y2: int, x: int|
                0 <= y2 < side && 0 <= x < 64 implies !(#[trigger] row_bit(active@[y2], x)) by {
                let xu = x as u64;
                assert((0u64 >> xu) & 1 == 0) by (bit_vector);
            }
        }
        Some(Floor { side, active })
    }

    /// Reads a floor from text: one row per line, `#` for an active
    /// tile, a trailing newline allowed.  The first line's width is the
    /// side (at most 63), every line must be that wide, and missing
    /// trailing lines are read as inactive rows.
    pub fn load(input: &[u8]) -> (r: Option<Floor>)
        ensures
            r is Some <==> q14_load_ok(input@),
            r matches Some(f) ==> {
                let ls = q14_lines(input@);
                &&& floor_wf(f)
                &&& f.side == ls[0].len()
                &&& forall|y: int, x: int|
                    0 <= y < f.side && 0 <= x < f.side ==> cell(f.active@, x, y) == (y < ls.len()
                        && ls[y][x] == 35)
            },
    {
        let mut parts = split_bytes(input, 10);
        let ghost pre = parts@;
        if parts.len() >= 1 && parts[parts.len() - 1].len() == 0 {
            parts.pop();
            proof {
                assert(views(parts@) =~= views(pre).drop_last());
            }
        }
        proof {
            assert(views(parts@) == q14_lines(input@));
        }
        if parts.len() == 0 {
            return None;
        }
        let side = parts[0].len();
        if side > 63 || parts.len() > side {
            return None;
        }
        let ghost ls = q14_lines(input@);
        let rows = parts.len();
        let mut active: Vec<u64> = Vec::new();
        let mut y: usize = 0;
        while y < rows
            invariant
                0 <= y <= rows,
                side <= 63,
                views(parts@) == ls,
                ls == q14_lines(input@),
                parts@.len() == rows,
                rows <= side,
                side == ls[0].len(),
                active@.len() == y,
                forall|j: int| 0 <= j < y ==> (#[trigger] ls[j]).len() == side,
                forall|j: int, x: int|
                    0 <= j < y && 0 <= x < side ==> cell(active@, x, j) == (ls[j][x] == 35),
                forall|j: int, x: int|
                    0 <= j < y && side <= x < 64 ==> !(#[trigger] row_bit(active@[j], x)),
            decreases rows - y,
        {
            let line = &parts[y];
            proof {
                assert(views(parts@)[y as int] == parts@[y as int]@);
            }
            if line.len() != side {
                proof {
                    assert(ls.len() == parts@.len());
                    assert(q14_lines(input@)[y as int].len() != q14_lines(input@)[0].len());
                    assert(!q14_load_ok(input@));
                }
                return None;
            }
            let mut row: u64 = 0;
            let mut x: usize = 0;
            proof {
                assert forall|j: u64| j < 64 implies ((0u64 >> j) & 1 != 1) by {
                    assert(j < 64 ==> (0u64 >> j) & 1 != 1) by (bit_vector);
                }
            }
            while x < side
                invariant
                    0 <= x <= side,
                    side <= 63,
                    views(parts@) == ls,
                    y < rows <= side,
                    parts@.len() == rows,
                    line@ == ls[y as int],
                    line@.len() == side,
                    forall|j: int| 0 <= j < x ==> row_bit(row, j) == (ls[y as int][j] == 35),
                    forall|j: int| x <= j < 64 ==> !row_bit(row, j),
                decreases side - x,
            {
                if line[x] == 35 {
                    let nrow = row | (1u64 << (x as u64));
                    proof {
                        assert forall|j: int| 0 <= j < 64 implies ((#[trigger] row_bit(nrow, j))
                            <==> (row_bit(row, j) || j == x as int)) by {
                            lemma_bit_set(row, x as u64, j as u64);
                        }
                    }
                    row = nrow;
                }
                x += 1;
            }
            let ghost prev_active = active@;
            active.push(row);
            proof {
                assert forall|j: int, x: int|
                    0 <= j < y + 1 && 0 <= x < side implies cell(active@, x, j) == (ls[j][x]
                    == 35) by {
                    if j < y {
                        assert(active@[j] == prev_active[j]);
                        assert(cell(prev_active, x, j) == (ls[j][x] == 35));
                    } else {
                        assert(active@[j] == row);
                    }
                }
                assert forall|j: int, x: int|
                    0 <= j < y + 1 && side <= x < 64 implies !(#[trigger] row_bit(
                    active@[j],
                    x,
                )) by {
                    if j < y {
                        assert(active@[j] == prev_active[j]);
                        assert(!row_bit(prev_active[j], x));
                    } else {
                        assert(active@[j] == row);
                    }
                }
            }
            y += 1;
        }
        // The missing trailing rows are inactive.
        while y < side
            invariant
                rows <= y <= side,
                side <= 63,
                views(parts@) == ls,
                ls == q14_lines(input@),
                parts@.len() == rows,
                side == ls[0].len(),
                active@.len() == y,
                forall|j: int| 0 <= j < rows ==> (#[trigger] ls[j]).len() == side,
                forall|j: int, x: int|
                    0 <= j < y && j < rows && 0 <= x < side ==> cell(active@, x, j) == (ls[j][x]
                        == 35),
                forall|j: int, x: int|
                    rows <= j < y && 0 <= x < 64 ==> !(#[trigger] row_bit(active@[j], x)),
                forall|j: int, x: int|
                    0 <= j < y && side <= x < 64 ==> !(#[trigger] row_bit(active@[j], x)),
            decreases side - y,
        {
            let ghost prev_active = active@;
            active.push(0);
            proof {
                assert forall|j: int, x: int|
                    0 <= j < y + 1 && 0 <= x < 64 && (j >= rows || x >= side) implies !(
                #[trigger] row_bit(active@[j], x)) by {
                    if j < y {
                        assert(active@[j] == prev_active[j]);
                    } else {
                        let xu = x as u64;
                        assert((0u64 >> xu) & 1 == 0) by (bit_vector);
                    }
                }
                assert forall|j: int, x: int|
                    0 <= j < y + 1 && j < rows && 0 <= x < side implies cell(active@, x, j) == (
                ls[j][x] == 35) by {
                    assert(active@[j] == prev_active[j]);
                    assert(cell(prev_active, x, j) == (ls[j][x] == 35));
                }
            }
            y += 1;
        }
        Some(Floor { side, active })
    }

    /// The number of active tiles.
    pub fn total_active(&self) -> (r: u64)
        requires
            floor_wf(*self),
        ensures
            r == grid_count(self.active@, self.side as int, self.side as int),
    {
        let mut count: u64 = 0;
        let mut y: usize = 0;
        proof {
            lemma_grid_count_bound(self.active@, self.side as int, self.side as int);
        }
        while y < self.side
            invariant
                floor_wf(*self),
                0 <= y <= self.side,
                count == grid_count(self.active@, self.side as int, y as int),
                0 <= count <= 63 * 63,
            decreases self.side - y,
        {
            let row = self.active[y];
            let mut x: usize = 0;
            let mut rc: u64 = 0;
            while x < self.side
                invariant
                    floor_wf(*self),
                    0 <= y < self.side,
                    0 <= x <= self.side,
                    row == self.active@[y as int],
                    rc == row_count(self.active@, y as int, x as int),
                    0 <= rc <= 63,
                decreases self.side - x,
            {
                proof {
                    lemma_bit_test(row, x as u64);
                    lemma_row_count_bound(self.active@, y as int, x as int + 1);
                }
                if row & (1u64 << (x as u64)) != 0 {
                    rc = rc + 1;
                }
                x += 1;
            }
            proof {
                lemma_grid_count_bound(self.active@, self.side as int, y as int + 1);
                assert((y as int + 1) * (self.side as int) <= 3969) by (nonlinear_arith)
                    requires
                        0 <= y as int + 1 <= 63,
                        0 <= self.side as int <= 63,
                ;
            }
            count = count + rc;
            y += 1;
        }
        count
    }

    /// Rewrites every tile from the previous generation by the
    /// parity rule on its diagonal neighbours.
    pub fn step(&mut self)
        requires
            floor_wf(*old(self)),
        ensures
            floor_wf(*final(self)),
            final(self).side == old(self).side,
            forall|y: int, x: int|
                0 <= y < old(self).side && 0 <= x < old(self).side ==> cell(
                    final(self).active@,
                    x,
                    y,
                ) == next_cell(old(self).active@, old(self).side as int, x, y),
    {
        let ghost g = self.active@;
        let ghost side_g = self.side as int;
        let side = self.side;
        let mut out: Vec<u64> = Vec::new();
        let mut y: usize = 0;
        while y < side
            invariant
                floor_wf(*self),
                self.active@ == g,
                self.side == side,
                side_g == side as int,
                0 <= y <= side,
                out@.len() == y,
                forall|j: int, x: int|
                    0 <= j < y && 0 <= x < side ==> cell(out@, x, j) == next_cell(
                        g,
                        side_g,
                        x,
                        j,
                    ),
                forall|j: int, x: int|
                    0 <= j < y && side <= x < 64 ==> !(#[trigger] row_bit(out@[j], x)),
            decreases side - y,
        {
            let mut row: u64 = 0;
            let mut x: usize = 0;
            proof {
                assert forall|j: u64| j < 64 implies ((0u64 >> j) & 1 != 1) by {
                    assert(j < 64 ==> (0u64 >> j) & 1 != 1) by (bit_vector);
                }
            }
            while x < side
                invariant
                    floor_wf(*self),
                    self.active@ == g,
                    self.side == side,
                    side_g == side as int,
                    0 <= y < side,
                    0 <= x <= side,
                    forall|j: int| 0 <= j < x ==> row_bit(row, j) == next_cell(g, side_g, j, y as int),
                    forall|j: int| x <= j < 64 ==> !row_bit(row, j),
                decreases side - x,
            {
                let mut cnt: u64 = 0;
                if x > 0 && y > 0 {
                    proof {
                        lemma_bit_test(self.active@[y as int - 1], (x - 1) as u64);
                    }
                    if self.active[y - 1] & (1u64 << ((x - 1) as u64)) != 0 {
                        cnt = cnt + 1;
                    }
                }
                if x + 1 < side && y > 0 {
                    proof {
                        lemma_bit_test(self.active@[y as int - 1], (x + 1) as u64);
                    }
                    if self.active[y - 1] & (1u64 << ((x + 1) as u64)) != 0 {
                        cnt = cnt + 1;
                    }
                }
                if x > 0 && y + 1 < side {
                    proof {
                        lemma_bit_test(self.active@[y as int + 1], (x - 1) as u64);
                    }
                    if self.active[y + 1] & (1u64 << ((x - 1) as u64)) != 0 {
                        cnt = cnt + 1;
                    }
                }
                if x + 1 < side && y + 1 < side {
                    proof {
                        lemma_bit_test(self.active@[y as int + 1], (x + 1) as u64);
                    }
                    if self.active[y + 1] & (1u64 << ((x + 1) as u64)) != 0 {
                        cnt = cnt + 1;
                    }
                }
                proof {
                    assert(cnt == diag_count(g, side_g, x as int, y as int));
                    lemma_bit_test(self.active@[y as int], x as u64);
                }
                let cur = self.active[y] & (1u64 << (x as u64)) != 0;
                let newbit = if cur {
                    cnt % 2 != 0
                } else {
                    cnt % 2 == 0
                };
                if newbit {
                    let nrow = row | (1u64 << (x as u64));
                    proof {
                        assert forall|j: int| 0 <= j < 64 implies ((#[trigger] row_bit(nrow, j))
                            <==> (row_bit(row, j) || j == x as int)) by {
                            lemma_bit_set(row, x as u64, j as u64);
                        }
                    }
                    row = nrow;
                }
                x += 1;
            }
            out.push(row);
            y += 1;
        }
        self.active = out;
    }
}

/// The text reads as a floor: at least one line, the first line's width
/// is at most 63, there are no more lines than that width, and every
/// line is exactly that wide.
pub open spec fn q14_load_ok(input: Seq<u8>) -> bool {
    let ls = q14_lines(input);
    &&& ls.len() >= 1
    &&& ls[0].len() <= 63
    &&& ls.len() <= ls[0].len()
    &&& forall|k: int| 0 <= k < ls.len() ==> (#[trigger] ls[k]).len() == ls[0].len()
}

/// The input's lines, a trailing empty line dropped.
pub open spec fn q14_lines(input: Seq<u8>) -> Seq<Seq<u8>> {
    let p = spec_split(input, 10);
    if p.len() >= 1 && p.last().len() == 0 {
        p.drop_last()
    } else {
        p
    }
}


} // verus!
