//! A quest about engraving a plate with an escape-time fractal over
//! Gaussian-style integers: complex squaring with a component-wise
//! truncating division, and a bail-out bound.

use vstd::prelude::*;

use crate::bytes::{split_bytes, parse_i64, spec_split, int_ok, int_val, views};

verus! {

/// Truncating division for a positive divisor, as Rust's `/` computes it.
pub open spec fn tdiv(a: int, b: int) -> int {
    if a >= 0 {
        a / b
    } else {
        -((-a) / b)
    }
}

/// An integer complex number.
#[derive(Clone, Copy, PartialEq, Eq, Structural, Debug)]
pub struct Complex {
    pub real: i64,
    pub imag: i64,
}

/// Truncating division by a positive divisor.
fn tdiv_exec(a: i64, b: i64) -> (r: i64)
    requires
        b > 0,
        a > i64::MIN,
    ensures
        r == tdiv(a as int, b as int),
{
    if a >= 0 {
        ((a as u64) / (b as u64)) as i64
    } else {
        let m = ((-a) as u64) / (b as u64);
        proof {
            assert((-a) as u64 / (b as u64) <= (-a) as u64) by (nonlinear_arith)
                requires
                    b as u64 >= 1,
            ;
        }
        -(m as i64)
    }
}

impl Complex {
    /// A complex number from its parts.
    pub fn new(re: i64, im: i64) -> (r: Complex)
        ensures
            r == (Complex { real: re, imag: im }),
    {
        Complex { real: re, imag: im }
    }

    /// The additive zero.
    pub fn zero() -> (r: Complex)
        ensures
            r == (Complex { real: 0i64, imag: 0i64 }),
    {
        Complex::new(0, 0)
    }

    /// Component-wise sum.
    pub fn add(self, other: Complex) -> (r: Complex)
        requires
            i64::MIN <= self.real + other.real <= i64::MAX,
            i64::MIN <= self.imag + other.imag <= i64::MAX,
        ensures
            r.real == self.real + other.real,
            r.imag == self.imag + other.imag,
    {
        Complex { real: self.real + other.real, imag: self.imag + other.imag }
    }

    /// The complex product.
    pub fn mul(self, rhs: Complex) -> (r: Complex)
        requires
            -0x7fff_ffff <= self.real <= 0x7fff_ffff,
            -0x7fff_ffff <= self.imag <= 0x7fff_ffff,
            -0x7fff_ffff <= rhs.real <= 0x7fff_ffff,
            -0x7fff_ffff <= rhs.imag <= 0x7fff_ffff,
        ensures
            r.real == self.real * rhs.real - self.imag * rhs.imag,
            r.imag == self.real * rhs.imag + self.imag * rhs.real,
    {
        proof {
            assert(-4611686014132420609 <= self.real * rhs.real <= 4611686014132420609
                && -4611686014132420609 <= self.imag * rhs.imag <= 4611686014132420609
                && -4611686014132420609 <= self.real * rhs.imag <= 4611686014132420609
                && -4611686014132420609 <= self.imag * rhs.real <= 4611686014132420609)
                by (nonlinear_arith)
                requires
                    -0x7fff_ffff <= self.real <= 0x7fff_ffff,
                    -0x7fff_ffff <= self.imag <= 0x7fff_ffff,
                    -0x7fff_ffff <= rhs.real <= 0x7fff_ffff,
                    -0x7fff_ffff <= rhs.imag <= 0x7fff_ffff,
            ;
        }
        Complex {
            real: self.real * rhs.real - self.imag * rhs.imag,
            imag: self.real * rhs.imag + self.imag * rhs.real,
        }
    }

    /// Component-wise truncating division by a positive divisor.
    pub fn div(self, rhs: Complex) -> (r: Complex)
        requires
            rhs.real > 0,
            rhs.imag > 0,
            self.real > i64::MIN,
            self.imag > i64::MIN,
        ensures
            r.real == tdiv(self.real as int, rhs.real as int),
            r.imag == tdiv(self.imag as int, rhs.imag as int),
    {
        Complex { real: tdiv_exec(self.real, rhs.real), imag: tdiv_exec(self.imag, rhs.imag) }
    }
}

/// One engraving step: square, divide component-wise by `d`, add `b`.
pub open spec fn q02_step(z: (int, int), d: int, b: (int, int)) -> (int, int) {
    (
        tdiv(z.0 * z.0 - z.1 * z.1, d) + b.0,
        tdiv(z.0 * z.1 + z.1 * z.0, d) + b.1,
    )
}

/// The iterate after `k` engraving steps, starting from zero.
pub open spec fn q02_iter(b: (int, int), d: int, k: int) -> (int, int)
    decreases k,
{
    if k <= 0 {
        (0, 0)
    } else {
        q02_step(q02_iter(b, d, k - 1), d, b)
    }
}

/// Both components are within the bail-out bound.
pub open spec fn q02_within(z: (int, int)) -> bool {
    -1000000 <= z.0 <= 1000000 && -1000000 <= z.1 <= 1000000
}

/// The point `b` stays engraved: the first hundred iterates all stay
/// within the bail-out bound.
pub open spec fn q02_engraved(b: (int, int)) -> bool {
    forall|k: int| 1 <= k <= 100 ==> q02_within(#[trigger] q02_iter(b, 100000, k))
}

/// Decides whether a plate point stays engraved.
fn engraved_cell(b: Complex) -> (r: bool)
    requires
        -20000000 <= b.real <= 20000000,
        -20000000 <= b.imag <= 20000000,
    ensures
        r == q02_engraved((b.real as int, b.imag as int)),
{
    let ghost bb = (b.real as int, b.imag as int);
    let divisor = Complex::new(100000, 100000);
    let mut z = Complex::zero();
    let mut k: u32 = 0;
    while k < 100
        invariant
            0 <= k <= 100,
            -20000000 <= b.real <= 20000000,
            -20000000 <= b.imag <= 20000000,
            divisor == (Complex { real: 100000i64, imag: 100000i64 }),
            (z.real as int, z.imag as int) == q02_iter(bb, 100000, k as int),
            q02_within((z.real as int, z.imag as int)),
            bb == (b.real as int, b.imag as int),
            forall|j: int| 1 <= j <= k ==> q02_within(#[trigger] q02_iter(bb, 100000, j)),
        decreases 100 - k,
    {
        let sq = z.mul(z);
        proof {
            assert(-2000000000000 <= sq.real <= 2000000000000 && -2000000000000 <= sq.imag
                <= 2000000000000) by (nonlinear_arith)
                requires
                    sq.real == z.real * z.real - z.imag * z.imag,
                    sq.imag == z.real * z.imag + z.imag * z.real,
                    -1000000 <= z.real <= 1000000,
                    -1000000 <= z.imag <= 1000000,
            ;
        }
        let div = sq.div(divisor);
        proof {
            assert(-2000000000000 <= tdiv(sq.real as int, 100000) * 100000 || true);
            assert(-20000000 <= div.real <= 20000000 && -20000000 <= div.imag <= 20000000) by {
                assert(-20000000 <= tdiv(sq.real as int, 100000) <= 20000000) by (nonlinear_arith)
                    requires
                        -2000000000000 <= sq.real <= 2000000000000,
                        div.real == tdiv(sq.real as int, 100000),
                ;
                assert(-20000000 <= tdiv(sq.imag as int, 100000) <= 20000000) by (nonlinear_arith)
                    requires
                        -2000000000000 <= sq.imag <= 2000000000000,
                        div.imag == tdiv(sq.imag as int, 100000),
                ;
            }
        }
        let nz = div.add(b);
        proof {
            assert((nz.real as int, nz.imag as int) == q02_iter(bb, 100000, k as int + 1));
        }
        if nz.real > 1000000 || nz.real < -1000000 || nz.imag > 1000000 || nz.imag < -1000000 {
            proof {
                assert(!q02_within(q02_iter(bb, 100000, k as int + 1)));
            }
            return false;
        }
        z = nz;
        k += 1;
    }
    true
}

/// Counts engraved points along one row, from column `x` on, stepping by
/// `step` until the column passes 1000.
pub open spec fn q02_row(b0: (int, int), x: int, y: int, step: int) -> int
    decreases 1001 + step - x,
{
    if step <= 0 || x > 1000 {
        0
    } else {
        (if q02_engraved((b0.0 + x, b0.1 + y)) {
            1int
        } else {
            0int
        }) + q02_row(b0, x + step, y, step)
    }
}


/// Counts engraved points of the whole plate, from row `y` on.
pub open spec fn q02_grid(b0: (int, int), y: int, step: int) -> int
    decreases 1001 + step - y,
{
    if step <= 0 || y > 1000 {
        0
    } else {
        q02_row(b0, 0, y, step) + q02_grid(b0, y + step, step)
    }
}

/// Rows never count more than 1001 points each.
proof fn lemma_q02_row_bound(b0: (int, int), x: int, y: int, step: int)
    requires
        step >= 1,
        x >= 0,
    ensures
        0 <= q02_row(b0, x, y, step),
        q02_row(b0, x, y, step) <= (if x <= 1002 {
            1002 - x
        } else {
            0
        }),
    decreases 1001 + step - x,
{
    if x <= 1000 {
        lemma_q02_row_bound(b0, x + step, y, step);
    }
}

/// The plate never counts more points than it has rows and columns.
proof fn lemma_q02_grid_bound(b0: (int, int), y: int, step: int)
    requires
        step >= 1,
        y >= 0,
    ensures
        0 <= q02_grid(b0, y, step),
        q02_grid(b0, y, step) <= (if y <= 1002 {
            1002 * (1002 - y)
        } else {
            0
        }),
    decreases 1001 + step - y,
{
    if y <= 1000 {
        lemma_q02_grid_bound(b0, y + step, step);
        lemma_q02_row_bound(b0, 0, y, step);
        if y + step <= 1002 {
            assert(1002 * (1002 - y - step) <= 1002 * (1001 - y));
        }
    }
}

/// Counts the engraved points of the plate anchored at `a`, visiting
/// every `step`-th column and row.
pub fn count_engraved(a: Complex, step: usize) -> (r: u64)
    requires
        1 <= step <= 1000000,
        -10000000 <= a.real <= 10000000,
        -10000000 <= a.imag <= 10000000,
    ensures
        r == q02_grid((a.real as int, a.imag as int), 0, step as int),
{
    let ghost b0 = (a.real as int, a.imag as int);
    let mut count: u64 = 0;
    let mut y: usize = 0;
    proof {
        lemma_q02_grid_bound(b0, 0, step as int);
    }
    while y <= 1000
        invariant
            1 <= step <= 1000000,
            -10000000 <= a.real <= 10000000,
            -10000000 <= a.imag <= 10000000,
            b0 == (a.real as int, a.imag as int),
            0 <= y,
            count + q02_grid(b0, y as int, step as int) == q02_grid(b0, 0, step as int),
            0 <= count <= q02_grid(b0, 0, step as int),
            q02_grid(b0, 0, step as int) <= 1002 * 1002,
        decreases 1001 + step - y,
    {
        let mut x: usize = 0;
        proof {
            lemma_q02_row_bound(b0, 0, y as int, step as int);
            lemma_q02_grid_bound(b0, y as int + step as int, step as int);
        }
        let mut row: u64 = 0;
        while x <= 1000
            invariant
                1 <= step <= 1000000,
                -10000000 <= a.real <= 10000000,
                -10000000 <= a.imag <= 10000000,
                b0 == (a.real as int, a.imag as int),
                0 <= x,
                y <= 1000,
                row + q02_row(b0, x as int, y as int, step as int) == q02_row(
                    b0,
                    0,
                    y as int,
                    step as int,
                ),
                0 <= row <= q02_row(b0, 0, y as int, step as int),
                q02_row(b0, 0, y as int, step as int) <= 1002,
            decreases 1001 + step - x,
        {
            let b = Complex::new(a.real + x as i64, a.imag + y as i64);
            if engraved_cell(b) {
                row = row + 1;
            }
            proof {
                lemma_q02_row_bound(b0, x as int + step as int, y as int, step as int);
            }
            x = x + step;
        }
        count = count + row;
        y = y + step;
    }
    count
}

/// The anchor from text of the shape `A=[<real>,<imag>]`.
pub open spec fn q02_body(input: Seq<u8>) -> Seq<Seq<u8>> {
    spec_split(input.subrange(3, input.len() - 1), 44)
}

/// The input has the anchor shape and both coordinates fit in an `i64`.
pub open spec fn q02_parse_ok(input: Seq<u8>) -> bool {
    &&& input.len() >= 5
    &&& input[0] == 65 && input[1] == 61 && input[2] == 91
    &&& input[input.len() - 1] == 93
    &&& q02_body(input).len() == 2
    &&& int_ok(q02_body(input)[0]) && i64::MIN <= int_val(q02_body(input)[0]) <= i64::MAX
    &&& int_ok(q02_body(input)[1]) && i64::MIN <= int_val(q02_body(input)[1]) <= i64::MAX
}

/// Reads the plate anchor from text of the shape `A=[<real>,<imag>]`.
pub fn parse_a(input: &[u8]) -> (r: Option<Complex>)
    ensures
        r is Some <==> q02_parse_ok(input@),
        r matches Some(c) ==> c.real == int_val(q02_body(input@)[0]) && c.imag == int_val(
            q02_body(input@)[1],
        ),
{
    if input.len() < 5 {
        return None;
    }
    if !(input[0] == 65 && input[1] == 61 && input[2] == 91 && input[input.len() - 1] == 93) {
        return None;
    }
    let mut body: Vec<u8> = Vec::new();
    let mut i: usize = 3;
    proof {
        assert(body@ =~= input@.subrange(3, 3));
    }
    while i < input.len() - 1
        invariant
            3 <= i <= input@.len() - 1,
            input@.len() >= 5,
            body@ =~= input@.subrange(3, i as int),
        decreases input@.len() - i,
    {
        body.push(input[i]);
        proof {
            assert(body@ =~= input@.subrange(3, i + 1));
        }
        i += 1;
    }
    let parts = split_bytes(body.as_slice(), 44);
    proof {
        assert(views(parts@) == q02_body(input@));
    }
    if parts.len() != 2 {
        return None;
    }
    let re = match parse_i64(parts[0].as_slice()) {
        Some(v) => v,
        None => {
            return None;
        },
    };
    let im = match parse_i64(parts[1].as_slice()) {
        Some(v) => v,
        None => {
            return None;
        },
    };
    Some(Complex::new(re, im))
}

/// First part: three engraving steps with divisor ten, starting from the
/// anchor read from the input.
pub fn solve_part1(input: &[u8]) -> (r: Option<Complex>)
    ensures
        r is Some <==> (q02_parse_ok(input@) && {
            let b = (int_val(q02_body(input@)[0]), int_val(q02_body(input@)[1]));
            -1000 <= b.0 <= 1000 && -1000 <= b.1 <= 1000
        }),
        r matches Some(c) ==> {
            let b = (int_val(q02_body(input@)[0]), int_val(q02_body(input@)[1]));
            (c.real as int, c.imag as int) == q02_iter(b, 10, 3)
        },
{
    let a = match parse_a(input) {
        Some(a) => a,
        None => {
            return None;
        },
    };
    if a.real > 1000 || a.real < -1000 || a.imag > 1000 || a.imag < -1000 {
        return None;
    }
    let ghost b = (a.real as int, a.imag as int);
    let divisor = Complex::new(10, 10);
    let mut result = Complex::zero();
    let mut k: u32 = 0;
    while k < 3
        invariant
            0 <= k <= 3,
            -1000 <= a.real <= 1000,
            -1000 <= a.imag <= 1000,
            b == (a.real as int, a.imag as int),
            divisor == (Complex { real: 10i64, imag: 10i64 }),
            (result.real as int, result.imag as int) == q02_iter(b, 10, k as int),
            k == 0 ==> result == (Complex { real: 0i64, imag: 0i64 }),
            k <= 1 ==> -1000 <= result.real <= 1000 && -1000 <= result.imag <= 1000,
            k <= 2 ==> -201000 <= result.real <= 201000 && -201000 <= result.imag <= 201000,
            -9000000000 <= result.real <= 9000000000,
            -9000000000 <= result.imag <= 9000000000,
        decreases 3 - k,
    {
        let sq = result.mul(result);
        proof {
            assert(-81000000000 <= sq.real <= 81000000000 && -81000000000 <= sq.imag
                <= 81000000000) by (nonlinear_arith)
                requires
                    sq.real == result.real * result.real - result.imag * result.imag,
                    sq.imag == result.real * result.imag + result.imag * result.real,
                    -201000 <= result.real <= 201000,
                    -201000 <= result.imag <= 201000,
            ;
            if k <= 0 {
                assert(sq.real == 0 && sq.imag == 0) by (nonlinear_arith)
                    requires
                        result.real == 0,
                        result.imag == 0,
                        sq.real == result.real * result.real - result.imag * result.imag,
                        sq.imag == result.real * result.imag + result.imag * result.real,
                ;
            }
            if k <= 1 {
                assert(-2000000 <= sq.real <= 2000000 && -2000000 <= sq.imag <= 2000000)
                    by (nonlinear_arith)
                    requires
                        sq.real == result.real * result.real - result.imag * result.imag,
                        sq.imag == result.real * result.imag + result.imag * result.real,
                        -1000 <= result.real <= 1000,
                        -1000 <= result.imag <= 1000,
                ;
            }
        }
        let div = sq.div(divisor);
        proof {
            assert(-8100000000 <= tdiv(sq.real as int, 10) <= 8100000000) by (nonlinear_arith)
                requires
                    -81000000000 <= sq.real <= 81000000000,
            ;
            assert(-8100000000 <= tdiv(sq.imag as int, 10) <= 8100000000) by (nonlinear_arith)
                requires
                    -81000000000 <= sq.imag <= 81000000000,
            ;
            if k <= 1 {
                assert(-200000 <= tdiv(sq.real as int, 10) <= 200000) by (nonlinear_arith)
                    requires
                        -2000000 <= sq.real <= 2000000,
                ;
                assert(-200000 <= tdiv(sq.imag as int, 10) <= 200000) by (nonlinear_arith)
                    requires
                        -2000000 <= sq.imag <= 2000000,
                ;
            }
        }
        result = div.add(a);
        k += 1;
        proof {
            assert((result.real as int, result.imag as int) == q02_iter(b, 10, k as int));
        }
    }
    Some(result)
}

/// Second part: engraved points of the coarse plate, every tenth point.
pub fn solve_part2(input: &[u8]) -> (r: Option<u64>)
    ensures
        r is Some <==> (q02_parse_ok(input@) && {
            let b = (int_val(q02_body(input@)[0]), int_val(q02_body(input@)[1]));
            -10000000 <= b.0 <= 10000000 && -10000000 <= b.1 <= 10000000
        }),
        r matches Some(v) ==> v == q02_grid(
            (int_val(q02_body(input@)[0]), int_val(q02_body(input@)[1])),
            0,
            10,
        ),
{
    let a = match parse_a(input) {
        Some(a) => a,
        None => {
            return None;
        },
    };
    if a.real > 10000000 || a.real < -10000000 || a.imag > 10000000 || a.imag < -10000000 {
        return None;
    }
    Some(count_engraved(a, 10))
}

/// Third part: engraved points of the full plate, every point.
pub fn solve_part3(input: &[u8]) -> (r: Option<u64>)
    ensures
        r is Some <==> (q02_parse_ok(input@) && {
            let b = (int_val(q02_body(input@)[0]), int_val(q02_body(input@)[1]));
            -10000000 <= b.0 <= 10000000 && -10000000 <= b.1 <= 10000000
        }),
        r matches Some(v) ==> v == q02_grid(
            (int_val(q02_body(input@)[0]), int_val(q02_body(input@)[1])),
            0,
            1,
        ),
{
    let a = match parse_a(input) {
        Some(a) => a,
        None => {
            return None;
        },
    };
    if a.real > 10000000 || a.real < -10000000 || a.imag > 10000000 || a.imag < -10000000 {
        return None;
    }
    Some(count_engraved(a, 1))
}

/// All three parts, each on its own input.
pub fn solve(input1: &[u8], input2: &[u8], input3: &[u8]) -> (r: (
    Option<Complex>,
    Option<u64>,
    Option<u64>,
))
    ensures
        r.0 == solve_part1_spec(input1@),
        r.1 matches Some(v) ==> v == q02_grid(
            (int_val(q02_body(input2@)[0]), int_val(q02_body(input2@)[1])),
            0,
            10,
        ),
        r.2 matches Some(v) ==> v == q02_grid(
            (int_val(q02_body(input3@)[0]), int_val(q02_body(input3@)[1])),
            0,
            1,
        ),
{
    (solve_part1(input1), solve_part2(input2), solve_part3(input3))
}

/// The first part's result as a function of the input.
pub open spec fn solve_part1_spec(input: Seq<u8>) -> Option<Complex> {
    if q02_parse_ok(input) && -1000 <= int_val(q02_body(input)[0]) <= 1000 && -1000 <= int_val(
        q02_body(input)[1],
    ) <= 1000 {
        let b = (int_val(q02_body(input)[0]), int_val(q02_body(input)[1]));
        Some(
            Complex {
                real: q02_iter(b, 10, 3).0 as i64,
                imag: q02_iter(b, 10, 3).1 as i64,
            },
        )
    } else {
        None
    }
}

} // verus!
