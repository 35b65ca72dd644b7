//! A quest about casting a mending spell: the input is a comma-separated
//! list of counters.  A sweep over strides drains the counters; the
//! strides that fire make up the spell, and a binary search finds the
//! wall length a block budget allows.

use vstd::prelude::*;

use crate::bytes::{split_bytes, parse_u64, spec_split, all_digits, digits_val, views};

verus! {

/// The comma-separated fields of the input.
pub open spec fn q16_fields(input: Seq<u8>) -> Seq<Seq<u8>> {
    spec_split(input, 44)
}

/// Every field is a number that fits in a `u64`.
pub open spec fn q16_ok(input: Seq<u8>) -> bool {
    forall|k: int|
        0 <= k < q16_fields(input).len() ==> (#[trigger] q16_fields(input)[k]).len() >= 1
            && all_digits(q16_fields(input)[k]) && digits_val(q16_fields(input)[k]) <= u64::MAX
}

/// The parsed numbers of the input.
pub open spec fn q16_nums(input: Seq<u8>) -> Seq<u64> {
    Seq::new(q16_fields(input).len(), |k: int| digits_val(q16_fields(input)[k]) as u64)
}

/// Reads the comma-separated numbers.
fn parse(input: &[u8]) -> (r: Option<Vec<u64>>)
    ensures
        r is Some <==> q16_ok(input@),
        r matches Some(ns) ==> ns@ == q16_nums(input@),
{
    let parts = split_bytes(input, 44);
    proof {
        assert(views(parts@) == q16_fields(input@));
    }
    let mut ns: Vec<u64> = Vec::new();
    let mut k: usize = 0;
    while k < parts.len()
        invariant
            0 <= k <= parts@.len(),
            views(parts@) == q16_fields(input@),
            ns@.len() == k,
            forall|j: int|
                0 <= j < k ==> (#[trigger] q16_fields(input@)[j]).len() >= 1 && all_digits(
                    q16_fields(input@)[j],
                ) && digits_val(q16_fields(input@)[j]) <= u64::MAX,
            forall|j: int| 0 <= j < k ==> ns@[j] == digits_val(q16_fields(input@)[j]),
        decreases parts@.len() - k,
    {
        proof {
            assert(views(parts@)[k as int] == parts@[k as int]@);
        }
        match parse_u64(parts[k].as_slice()) {
            Some(v) => {
                ns.push(v);
            },
            None => {
                proof {
                    assert(!q16_ok(input@));
                }
                return None;
            },
        }
        k += 1;
    }
    proof {
        assert(ns@ =~= q16_nums(input@));
    }
    Some(ns)
}

/// The sum of 90 divided by each of the first `i` numbers.
pub open spec fn q16_sum(ns: Seq<u64>, i: int) -> int
    decreases i,
{
    if i <= 0 {
        0
    } else {
        q16_sum(ns, i - 1) + 90int / (ns[i - 1] as int)
    }
}

/// First part: full turns of ninety degrees for each wheel.
pub fn solve_part1(input: &[u8]) -> (r: Option<u64>)
    requires
        input@.len() < 0x1000_0000,
    ensures
        r is Some <==> (q16_ok(input@) && forall|j: int|
            0 <= j < q16_nums(input@).len() ==> #[trigger] q16_nums(input@)[j] != 0),
        r matches Some(v) ==> v == q16_sum(q16_nums(input@), q16_nums(input@).len() as int),
{
    let ns = match parse(input) {
        Some(ns) => ns,
        None => {
            return None;
        },
    };
    let mut acc: u64 = 0;
    let mut k: usize = 0;
    proof {
        crate::bytes::lemma_split_len(input@, 44);
    }
    while k < ns.len()
        invariant
            0 <= k <= ns@.len(),
            ns@.len() <= 0x1000_0001,
            ns@ == q16_nums(input@),
            q16_ok(input@),
            forall|j: int| 0 <= j < k ==> #[trigger] ns@[j] != 0,
            acc == q16_sum(ns@, k as int),
            acc <= 90 * (k as int),
        decreases ns@.len() - k,
    {
        if ns[k] == 0 {
            return None;
        }
        acc = acc + 90 / ns[k];
        k += 1;
    }
    Some(acc)
}

/// Every counter is zero.
pub open spec fn all_zero(ns: Seq<u64>) -> bool {
    forall|j: int| 0 <= j < ns.len() ==> #[trigger] ns[j] == 0
}

/// Every counter the stride `d` touches is nonzero.
pub open spec fn stride_ok(ns: Seq<u64>, d: int) -> bool {
    forall|j: int| 0 <= j < ns.len() && (j + 1) % d == 0 ==> #[trigger] ns[j] != 0
}

/// The counters after the stride `d` fires: each touched one drops by one.
pub open spec fn dec_stride(ns: Seq<u64>, d: int) -> Seq<u64> {
    Seq::new(
        ns.len(),
        |j: int|
            if (j + 1) % d == 0 {
                (ns[j] - 1) as u64
            } else {
                ns[j]
            },
    )
}

/// The product of the strides that fire while draining the counters, or
/// `None` when the sweep passes the last stride with counters left.
pub open spec fn q16_spin(ns: Seq<u64>, d: int) -> Option<int>
    decreases ns.len() + 2 - d,
{
    if d < 1 || d > ns.len() + 1 {
        None
    } else if all_zero(ns) {
        Some(1)
    } else if d > ns.len() {
        None
    } else if stride_ok(ns, d) {
        spin_scale(q16_spin(dec_stride(ns, d), d + 1), d)
    } else {
        q16_spin(ns, d + 1)
    }
}

/// An optional value, scaled.
pub open spec fn spin_scale(o: Option<int>, k: int) -> Option<int> {
    match o {
        Option::None => Option::None,
        Option::Some(m) => Option::Some(k * m),
    }
}

/// A product of strides is at least one.
proof fn lemma_spin_pos(ns: Seq<u64>, d: int)
    ensures
        q16_spin(ns, d) matches Some(m) ==> m >= 1,
    decreases ns.len() + 2 - d,
{
    if d < 1 || d > ns.len() + 1 || all_zero(ns) || d > ns.len() {
    } else if stride_ok(ns, d) {
        lemma_spin_pos(dec_stride(ns, d), d + 1);
        let o = q16_spin(dec_stride(ns, d), d + 1);
        if o is Some {
            let m = o->Some_0;
            assert(d * m >= 1) by (nonlinear_arith)
                requires
                    d >= 1,
                    m >= 1,
            ;
        }
    } else {
        lemma_spin_pos(ns, d + 1);
    }
}

/// Scaling composes multiplicatively.
proof fn lemma_spin_scale(o: Option<int>, a: int, b: int)
    ensures
        spin_scale(spin_scale(o, a), b) == spin_scale(o, b * a),
{
    if o is Some {
        let m = o->Some_0;
        assert(b * (a * m) == (b * a) * m) by (nonlinear_arith);
    }
}

/// Second part: the product of the strides that fire.
pub fn solve_part2(input: &[u8]) -> (r: Option<u64>)
    requires
        input@.len() < 0x100_0000,
    ensures
        r matches Some(v) ==> q16_ok(input@) && q16_spin(q16_nums(input@), 1) == Some(v as int),
        r is None ==> !q16_ok(input@) || q16_spin(q16_nums(input@), 1) is None || (q16_spin(
            q16_nums(input@),
            1,
        ) matches Some(m) && m > u64::MAX),
{
    let ns = match parse(input) {
        Some(ns) => ns,
        None => {
            return None;
        },
    };
    proof {
        crate::bytes::lemma_split_len(input@, 44);
    }
    match spin(ns) {
        Some((res, _spell)) => Some(res),
        None => None,
    }
}

/// Runs the draining sweep: returns the product of the firing strides
/// and the strides themselves, or `None` when the sweep gives up or the
/// product leaves `u64`.
fn spin(ns: Vec<u64>) -> (r: Option<(u64, Vec<u64>)>)
    requires
        ns@.len() < 0x1000_0000,
    ensures
        r matches Some(p) ==> q16_spin(ns@, 1) == Some(p.0 as int) && spell_of(ns@, 1) == Some(
            p.1@,
        ) && forall|j: int| 0 <= j < p.1@.len() ==> #[trigger] p.1@[j] >= 1,
        r is None ==> q16_spin(ns@, 1) is None || (q16_spin(ns@, 1) matches Some(m) && m
            > u64::MAX),
{
    let ghost ns0 = ns@;
    let mut cur = ns;
    let mut d: usize = 1;
    let mut res: u64 = 1;
    let mut spell: Vec<u64> = Vec::new();
    loop
        invariant
            ns0 == ns@,
            1 <= d,
            cur@.len() == ns0.len(),
            ns0.len() < 0x1000_0000,
            d <= ns0.len() + 1,
            q16_spin(ns0, 1) == spin_scale(q16_spin(cur@, d as int), res as int),
            spell_of(ns0, 1) == spell_cons(spell@, spell_of(cur@, d as int)),
            forall|j: int| 0 <= j < spell@.len() ==> #[trigger] spell@[j] >= 1,
            res >= 1,
        ensures
            q16_spin(ns0, 1) == Some(res as int) && spell_of(ns0, 1) == Some(spell@),
            forall|j: int| 0 <= j < spell@.len() ==> #[trigger] spell@[j] >= 1,
        decreases ns0.len() + 2 - d,
    {
        // Is anything left to drain?
        let mut any: bool = false;
        let mut j: usize = 0;
        while j < cur.len()
            invariant
                0 <= j <= cur@.len(),
                any == exists|i: int| 0 <= i < j && #[trigger] cur@[i] != 0,
            decreases cur@.len() - j,
        {
            if cur[j] != 0 {
                any = true;
            }
            j += 1;
        }
        if !any {
            proof {
                assert(all_zero(cur@));
                assert(q16_spin(cur@, d as int) == Some(1int));
                assert(spin_scale(Some(1int), res as int) == Some((res as int) * 1));
                assert((res as int) * 1 == res as int) by (nonlinear_arith);
                assert(q16_spin(ns0, 1) == Some(res as int));
                assert(spell_of(cur@, d as int) == Some(Seq::<u64>::empty()));
                assert(spell@ + Seq::<u64>::empty() =~= spell@);
                assert(spell_cons(spell@, spell_of(cur@, d as int)) == Some(spell@));
            }
            break ;
        }
        if d > cur.len() {
            proof {
                assert(q16_spin(cur@, d as int) is None);
            }
            return None;
        }
        // Does the stride only touch live counters?
        let mut ok: bool = true;
        let mut j2: usize = d - 1;
        proof {
            assert(0int % (d as int) == 0) by (nonlinear_arith)
                requires
                    d >= 1,
            ;
            assert forall|i: int| 0 <= i < d - 1 && (i + 1) % (d as int) == 0 implies #[trigger] cur@[i]
                != 0 by {
                assert((i + 1) % (d as int) != 0) by (nonlinear_arith)
                    requires
                        0 < i + 1 < d,
                ;
            }
        }
        while j2 < cur.len()
            invariant
                1 <= d <= cur@.len(),
                cur@.len() < 0x1000_0000,
                d - 1 <= j2,
                j2 < cur@.len() + d,
                (j2 + 1 - d as int) % (d as int) == 0,
                ok ==> forall|i: int|
                    0 <= i < j2 && i < cur@.len() && (i + 1) % (d as int) == 0
                        ==> #[trigger] cur@[i] != 0,
                !ok ==> !stride_ok(cur@, d as int),
            decreases cur@.len() + d - j2,
        {
            proof {
                assert((j2 + 1) % (d as int) == 0) by (nonlinear_arith)
                    requires
                        (j2 + 1 - d as int) % (d as int) == 0,
                        d >= 1,
                ;
                assert forall|i: int| j2 < i < j2 + d implies #[trigger] ((i + 1) % (
                d as int)) != 0 by {
                    assert((i + 1) % (d as int) != 0) by (nonlinear_arith)
                        requires
                            j2 + 1 < i + 1 < j2 + 1 + d,
                            (j2 + 1) % (d as int) == 0,
                            d >= 1,
                    ;
                }
            }
            if cur[j2] == 0 {
                ok = false;
            }
            if j2 + d >= cur.len() && ok {
                proof {
                    if cur[j2 as int] != 0 {
                        assert forall|i: int|
                            0 <= i < cur@.len() && (i + 1) % (d as int) == 0 implies #[trigger] cur@[i]
                            != 0 by {
                            if i > j2 {
                                assert(false);
                            }
                        }
                    }
                }
            }
            j2 = j2 + d;
        }
        proof {
            if ok {
                assert(stride_ok(cur@, d as int)) by {
                    assert forall|i: int|
                        0 <= i < cur@.len() && (i + 1) % (d as int) == 0 implies #[trigger] cur@[i]
                        != 0 by {
                        assert(i < j2);
                    }
                }
            }
        }
        if ok {
            // Fire the stride: drain each touched counter.
            let ghost pre = cur@;
            let mut j3: usize = d - 1;
            proof {
                assert(0int % (d as int) == 0) by (nonlinear_arith)
                    requires
                        d >= 1,
                ;
                assert forall|i: int| 0 <= i < d - 1 implies #[trigger] ((i + 1) % (d as int)) != 0 by {
                    assert((i + 1) % (d as int) != 0) by (nonlinear_arith)
                        requires
                            0 < i + 1 < d,
                    ;
                }
            }
            while j3 < cur.len()
                invariant
                    1 <= d <= cur@.len(),
                    cur@.len() < 0x1000_0000,
                    cur@.len() == pre.len(),
                    d - 1 <= j3,
                    j3 < cur@.len() + d,
                    (j3 + 1 - d as int) % (d as int) == 0,
                    stride_ok(pre, d as int),
                    forall|i: int|
                        0 <= i < j3 && i < cur@.len() ==> cur@[i] == dec_stride(
                            pre,
                            d as int,
                        )[i],
                    forall|i: int| j3 <= i < cur@.len() ==> cur@[i] == pre[i],
                decreases cur@.len() + d - j3,
            {
                proof {
                    assert((j3 + 1) % (d as int) == 0) by (nonlinear_arith)
                        requires
                            (j3 + 1 - d as int) % (d as int) == 0,
                            d >= 1,
                    ;
                    assert forall|i: int| j3 < i < j3 + d implies #[trigger] ((i + 1) % (
                    d as int)) != 0 by {
                        assert((i + 1) % (d as int) != 0) by (nonlinear_arith)
                            requires
                                j3 + 1 < i + 1 < j3 + 1 + d,
                                (j3 + 1) % (d as int) == 0,
                                d >= 1,
                        ;
                    }
                }
                proof {
                    assert(pre[j3 as int] != 0);
                }
                let v = cur[j3];
                let ghost before = cur@;
                cur.set(j3, v - 1);
                proof {
                    assert forall|i: int|
                        0 <= i < j3 + d && i < cur@.len() implies cur@[i] == dec_stride(
                        pre,
                        d as int,
                    )[i] by {
                        if i < j3 {
                            assert(cur@[i] == before[i]);
                        } else if i == j3 {
                        } else {
                            assert(cur@[i] == pre[i]);
                            assert((i + 1) % (d as int) != 0);
                        }
                    }
                }
                j3 = j3 + d;
            }
            proof {
                assert(cur@ =~= dec_stride(pre, d as int));
            }
            if res > u64::MAX / (d as u64) {
                proof {
                    assert((res as int) * (d as int) > u64::MAX) by (nonlinear_arith)
                        requires
                            res as int > u64::MAX as int / (d as int),
                            d as int >= 1,
                            res as int >= 0,
                    ;
                    assert(q16_spin(pre, d as int) == spin_scale(
                        q16_spin(cur@, d as int + 1),
                        d as int,
                    ));
                    lemma_spin_scale(q16_spin(cur@, d as int + 1), d as int, res as int);
                    lemma_spin_pos(cur@, d as int + 1);
                    let ghost o = q16_spin(cur@, d as int + 1);
                    if o is Some {
                        let ghost m = o->Some_0;
                        assert((res as int) * ((d as int) * m) >= (res as int) * (d as int))
                            by (nonlinear_arith)
                            requires
                                m >= 1,
                                res as int >= 1,
                                d as int >= 1,
                        ;
                    }
                }
                return None;
            }
            proof {
                assert(res * (d as u64) <= u64::MAX) by (nonlinear_arith)
                    requires
                        res <= u64::MAX / (d as u64),
                        d >= 1,
                ;
                lemma_spin_scale(q16_spin(cur@, d as int + 1), d as int, res as int);
                assert(q16_spin(pre, d as int) == spin_scale(
                    q16_spin(cur@, d as int + 1),
                    d as int,
                ));
                assert(spell_of(pre, d as int) == spell_cons(
                    seq![d as u64],
                    spell_of(cur@, d as int + 1),
                ));
                lemma_spell_assoc(spell@, seq![d as u64], spell_of(cur@, d as int + 1));
            }
            proof {
                assert(res * (d as u64) >= 1) by (nonlinear_arith)
                    requires
                        res >= 1,
                        d >= 1,
                ;
            }
            res = res * (d as u64);
            spell.push(d as u64);
        } else {
            proof {
                assert(q16_spin(cur@, d as int) == q16_spin(cur@, d as int + 1));
                assert(spell_of(cur@, d as int) == spell_of(cur@, d as int + 1));
            }
        }
        d += 1;
    }
    Some((res, spell))
}

/// The strides that fire while draining the counters.
pub open spec fn spell_of(ns: Seq<u64>, d: int) -> Option<Seq<u64>>
    decreases ns.len() + 2 - d,
{
    if d < 1 || d > ns.len() + 1 {
        None
    } else if all_zero(ns) {
        Some(Seq::empty())
    } else if d > ns.len() {
        None
    } else if stride_ok(ns, d) {
        spell_cons(seq![d as u64], spell_of(dec_stride(ns, d), d + 1))
    } else {
        spell_of(ns, d + 1)
    }
}

/// An optional sequence with a prefix attached.
pub open spec fn spell_cons(pre: Seq<u64>, o: Option<Seq<u64>>) -> Option<Seq<u64>> {
    match o {
        Option::None => Option::None,
        Option::Some(s) => Option::Some(pre + s),
    }
}

/// Attaching prefixes one after the other attaches their concatenation.
proof fn lemma_spell_assoc(a: Seq<u64>, b: Seq<u64>, o: Option<Seq<u64>>)
    ensures
        spell_cons(a, spell_cons(b, o)) == spell_cons(a + b, o),
{
    if o is Some {
        assert(a + (b + o->Some_0) =~= (a + b) + o->Some_0);
    }
}

/// The blocks a wall of length `m` needs: one per stride multiple.
pub open spec fn q16_blocks(spell: Seq<u64>, m: int, i: int) -> int
    decreases i,
{
    if i <= 0 {
        0
    } else {
        q16_blocks(spell, m, i - 1) + m / (spell[i - 1] as int)
    }
}

/// The wall length the binary search settles on for the given budget:
/// a length whose block need meets the budget exactly, or otherwise the
/// largest probed length whose block need stays under it.
pub open spec fn q16_search(spell: Seq<u64>, lo: int, hi: int, budget: int) -> Option<int>
    decreases hi + 1 - lo,
{
    if lo > hi {
        Some(hi)
    } else {
        let mid = lo + (hi - lo) / 2;
        let blocks = q16_blocks(spell, mid, spell.len() as int);
        if blocks < budget {
            q16_search(spell, mid + 1, hi, budget)
        } else if blocks == budget {
            Some(mid)
        } else if mid == 0 {
            None
        } else {
            q16_search(spell, lo, mid - 1, budget)
        }
    }
}

/// Third part: the longest wall the block budget allows, by binary
/// search over the spell found by the draining sweep.
pub fn solve_part3(input: &[u8]) -> (r: Option<u64>)
    requires
        input@.len() < 0x100_0000,
    ensures
        r matches Some(v) ==> {
            &&& q16_ok(input@)
            &&& spell_of(q16_nums(input@), 1) is Some
            &&& q16_search(
                spell_of(q16_nums(input@), 1)->Some_0,
                0,
                100000000000000,
                202520252025000,
            ) == Some(v as int)
        },
        r matches Some(v) ==> {
            let sp = spell_of(q16_nums(input@), 1)->Some_0;
            let need = q16_blocks(sp, v as int, sp.len() as int);
            &&& need <= 202520252025000
            &&& (need == 202520252025000 || v == 100000000000000 || q16_blocks(
                sp,
                v as int + 1,
                sp.len() as int,
            ) > 202520252025000)
        },
        r is None ==> !q16_ok(input@) || q16_spin(q16_nums(input@), 1) is None || (q16_spin(
            q16_nums(input@),
            1,
        ) matches Some(m) && m > u64::MAX) || q16_search(
            spell_of(q16_nums(input@), 1)->Some_0,
            0,
            100000000000000,
            202520252025000,
        ) is None,
{
    let ns = match parse(input) {
        Some(ns) => ns,
        None => {
            return None;
        },
    };
    proof {
        crate::bytes::lemma_split_len(input@, 44);
    }
    let spell = match spin(ns) {
        Some((_res, spell)) => spell,
        None => {
            return None;
        },
    };
    let mut lo: u64 = 0;
    let mut hi: u64 = 100000000000000;
    let ghost sp = spell@;
    loop
        invariant
            sp == spell@,
            forall|j: int| 0 <= j < sp.len() ==> #[trigger] sp[j] >= 1,
            q16_ok(input@),
            spell_of(q16_nums(input@), 1) == Some(sp),
            hi <= 100000000000000,
            lo <= 100000000000001,
            lo as int <= hi as int + 1,
            lo == 0 || q16_blocks(sp, lo as int - 1, sp.len() as int) < 202520252025000,
            hi == 100000000000000 || q16_blocks(sp, hi as int + 1, sp.len() as int)
                > 202520252025000,
            q16_search(sp, 0, 100000000000000, 202520252025000) == q16_search(
                sp,
                lo as int,
                hi as int,
                202520252025000,
            ),
        ensures
            lo as int > hi as int,
            q16_search(sp, 0, 100000000000000, 202520252025000) == Some(hi as int),
            q16_blocks(sp, hi as int, sp.len() as int) < 202520252025000,
            hi == 100000000000000 || q16_blocks(sp, hi as int + 1, sp.len() as int)
                > 202520252025000,
        decreases hi + 1 - lo,
    {
        if lo > hi {
            break ;
        }
        let mid = lo + (hi - lo) / 2;
        let mut blocks: u128 = 0;
        let mut k: usize = 0;
        while k < spell.len()
            invariant
                sp == spell@,
                forall|j: int| 0 <= j < sp.len() ==> #[trigger] sp[j] >= 1,
                mid <= 100000000000000,
                0 <= k <= sp.len(),
                blocks == q16_blocks(sp, mid as int, k as int),
                blocks <= (k as int) * 100000000000000,
            decreases sp.len() - k,
        {
            let d = spell[k];
            let q: u64 = mid / d;
            proof {
                assert((k as int) * 100000000000000 + 100000000000000 == (k as int + 1)
                    * 100000000000000) by (nonlinear_arith);
                assert(mid as int / (d as int) <= 100000000000000) by (nonlinear_arith)
                    requires
                        0 <= mid as int <= 100000000000000,
                        d as int >= 1,
                ;
                assert(q16_blocks(sp, mid as int, k as int + 1) == q16_blocks(
                    sp,
                    mid as int,
                    k as int,
                ) + mid as int / (sp[k as int] as int));
            }
            blocks = blocks + q as u128;
            k += 1;
        }
        proof {
            assert(blocks == q16_blocks(sp, mid as int, sp.len() as int));
        }
        if blocks < 202520252025000 {
            lo = mid + 1;
        } else if blocks == 202520252025000 {
            proof {
                assert(q16_search(sp, lo as int, hi as int, 202520252025000) == Some(mid as int));
            }
            return Some(mid);
        } else {
            if mid == 0 {
                return None;
            }
            hi = mid - 1;
        }
    }
    Some(hi)
}

/// All three parts, each on its own input.
pub fn solve(input1: &[u8], input2: &[u8], input3: &[u8]) -> (r: (
    Option<u64>,
    Option<u64>,
    Option<u64>,
))
    requires
        input1@.len() < 0x1000_0000,
        input2@.len() < 0x100_0000,
        input3@.len() < 0x100_0000,
    ensures
        r.0 is Some <==> (q16_ok(input1@) && forall|j: int|
            0 <= j < q16_nums(input1@).len() ==> #[trigger] q16_nums(input1@)[j] != 0),
        r.0 matches Some(v) ==> v == q16_sum(q16_nums(input1@), q16_nums(input1@).len() as int),
        r.1 matches Some(v) ==> q16_spin(q16_nums(input2@), 1) == Some(v as int),
        r.1 is None ==> !q16_ok(input2@) || q16_spin(q16_nums(input2@), 1) is None || (q16_spin(
            q16_nums(input2@),
            1,
        ) matches Some(m) && m > u64::MAX),
        r.2 matches Some(v) ==> q16_search(
            spell_of(q16_nums(input3@), 1)->Some_0,
            0,
            100000000000000,
            202520252025000,
        ) == Some(v as int),
        r.2 is None ==> !q16_ok(input3@) || q16_spin(q16_nums(input3@), 1) is None || (q16_spin(
            q16_nums(input3@),
            1,
        ) matches Some(m) && m > u64::MAX) || q16_search(
            spell_of(q16_nums(input3@), 1)->Some_0,
            0,
            100000000000000,
            202520252025000,
        ) is None,
{
    (solve_part1(input1), solve_part2(input2), solve_part3(input3))
}

} // verus!
