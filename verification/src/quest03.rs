//! A quest about stacking crates: the input is a comma-separated list of
//! numbers; duplicates collapse, the smallest values matter, and the
//! number of rounds needed to drain the list is the largest multiplicity.

use vstd::prelude::*;

use crate::bytes::{split_bytes, parse_u64, spec_split, all_digits, digits_val, views};

verus! {

/// The sequence is sorted in nondecreasing order.
pub open spec fn sorted(s: Seq<u64>) -> bool {
    forall|i: int, j: int| 0 <= i <= j < s.len() ==> s[i] <= s[j]
}

/// How often `x` occurs in the sequence.
pub open spec fn count_val(s: Seq<u64>, x: u64) -> int
    decreases s.len(),
{
    if s.len() == 0 {
        0
    } else {
        count_val(s.drop_last(), x) + if s.last() == x {
            1int
        } else {
            0int
        }
    }
}

/// The two sequences hold the same values with the same multiplicities.
pub open spec fn same_counts(a: Seq<u64>, b: Seq<u64>) -> bool {
    forall|x: u64| #[trigger] count_val(a, x) == count_val(b, x)
}

/// Updating one position trades its old value for the new one.
proof fn lemma_count_update(s: Seq<u64>, i: int, y: u64, x: u64)
    requires
        0 <= i < s.len(),
    ensures
        count_val(s.update(i, y), x) == count_val(s, x) + (if y == x {
            1int
        } else {
            0int
        }) - (if s[i] == x {
            1int
        } else {
            0int
        }),
    decreases s.len(),
{
    if i == s.len() - 1 {
        assert(s.update(i, y).drop_last() =~= s.drop_last());
    } else {
        assert(s.update(i, y).drop_last() =~= s.drop_last().update(i, y));
        lemma_count_update(s.drop_last(), i, y, x);
    }
}

/// Sorts the numbers in nondecreasing order, keeping every multiplicity.
fn sort_u64(v: Vec<u64>) -> (r: Vec<u64>)
    ensures
        sorted(r@),
        same_counts(r@, v@),
        r@.len() == v@.len(),
{
    let mut v = v;
    let ghost orig = v@;
    let n = v.len();
    let mut i: usize = 1;
    while i < n
        invariant
            n == v@.len(),
            1 <= i || n == 0,
            i <= n || n == 0,
            same_counts(v@, orig),
            forall|p: int, q: int| 0 <= p <= q < i && q < n ==> v@[p] <= v@[q],
        decreases n - i,
    {
        let mut j: usize = i;
        while j > 0 && v[j - 1] > v[j]
            invariant
                n == v@.len(),
                0 <= j <= i < n,
                same_counts(v@, orig),
                forall|p: int, q: int| 0 <= p <= q <= i && p != j && q != j ==> v@[p] <= v@[q],
                forall|q: int| j < q <= i ==> v@[j as int] <= v@[q],
            decreases j,
        {
            let a = v[j - 1];
            let b = v[j];
            let ghost pre = v@;
            v.set(j - 1, b);
            v.set(j, a);
            proof {
                assert forall|x: u64| #[trigger] count_val(v@, x) == count_val(pre, x) by {
                    lemma_count_update(pre, j - 1, b, x);
                    lemma_count_update(pre.update(j - 1, b), j as int, a, x);
                }
            }
            j -= 1;
        }
        i += 1;
    }
    v
}

/// The numbers of the comma-separated input.
pub open spec fn q03_nums(input: Seq<u8>) -> Seq<Seq<u8>> {
    spec_split(input, 44)
}

/// Every comma-separated field is a number that fits in a `u64`.
pub open spec fn q03_ok(input: Seq<u8>) -> bool {
    forall|k: int|
        0 <= k < q03_nums(input).len() ==> (#[trigger] q03_nums(input)[k]).len() >= 1
            && all_digits(q03_nums(input)[k]) && digits_val(q03_nums(input)[k]) <= u64::MAX
}

/// Reads the comma-separated numbers.
fn parse(input: &[u8]) -> (r: Option<Vec<u64>>)
    ensures
        r is Some <==> q03_ok(input@),
        r matches Some(ns) ==> ns@.len() == q03_nums(input@).len() && forall|k: int|
            0 <= k < ns@.len() ==> ns@[k] == digits_val(q03_nums(input@)[k]),
{
    let parts = split_bytes(input, 44);
    proof {
        assert(views(parts@) == q03_nums(input@));
    }
    let mut ns: Vec<u64> = Vec::new();
    let mut k: usize = 0;
    while k < parts.len()
        invariant
            0 <= k <= parts@.len(),
            views(parts@) == q03_nums(input@),
            ns@.len() == k,
            forall|j: int|
                0 <= j < k ==> (#[trigger] q03_nums(input@)[j]).len() >= 1 && all_digits(
                    q03_nums(input@)[j],
                ) && digits_val(q03_nums(input@)[j]) <= u64::MAX,
            forall|j: int| 0 <= j < k ==> ns@[j] == digits_val(q03_nums(input@)[j]),
        decreases parts@.len() - k,
    {
        proof {
            assert(views(parts@)[k as int] == parts@[k as int]@);
        }
        match parse_u64(parts[k].as_slice()) {
            Some(v) => {
                ns.push(v);
            },
            None => {
                proof {
                    assert(!q03_ok(input@));
                }
                return None;
            },
        }
        k += 1;
    }
    Some(ns)
}

/// The deduplicated suffix of a sorted sequence, from index `i` on: the
/// first element of every run of equal values.
pub open spec fn dedup_from(s: Seq<u64>, i: int) -> Seq<u64>
    decreases s.len() - i,
{
    if i < 0 || i >= s.len() {
        Seq::empty()
    } else if i == 0 || s[i] != s[i - 1] {
        seq![s[i]] + dedup_from(s, i + 1)
    } else {
        dedup_from(s, i + 1)
    }
}

/// The sum of a sequence of numbers.
pub open spec fn seq_sum(s: Seq<u64>) -> int
    decreases s.len(),
{
    if s.len() == 0 {
        0
    } else {
        seq_sum(s.drop_last()) + s.last()
    }
}

/// Sums are nonnegative and splitting a sequence splits its sum.
proof fn lemma_sum_concat(a: Seq<u64>, b: Seq<u64>)
    ensures
        seq_sum(a + b) == seq_sum(a) + seq_sum(b),
        seq_sum(b) >= 0,
    decreases b.len(),
{
    if b.len() == 0 {
        assert(a + b =~= a);
    } else {
        lemma_sum_concat(a, b.drop_last());
        assert((a + b).drop_last() =~= a + b.drop_last());
    }
}

/// `v` is the sum of the distinct values of some sorted arrangement of
/// the input's numbers.
pub open spec fn q03_p1_valid(input: Seq<u8>, v: u64) -> bool {
    exists|s: Seq<u64>|
        #[trigger] sorted(s) && same_counts(s, spec_parsed(input)) && v == seq_sum(
            dedup_from(s, 0),
        )
}

/// `v` is the sum of the twenty smallest distinct values.
pub open spec fn q03_p2_valid(input: Seq<u8>, v: u64) -> bool {
    exists|s: Seq<u64>|
        #[trigger] sorted(s) && same_counts(s, spec_parsed(input)) && dedup_from(s, 0).len() >= 20
            && v == seq_sum(dedup_from(s, 0).take(20))
}

/// `v` is the number of draining rounds of the sorted arrangement.
pub open spec fn q03_p3_valid(input: Seq<u8>, v: u64) -> bool {
    exists|s: Seq<u64>|
        #[trigger] sorted(s) && same_counts(s, spec_parsed(input)) && v == rounds(s)
}

/// The distinct crate sizes of some sorted arrangement of the input's
/// numbers sum past `u64`.
pub open spec fn q03_p1_over(input: Seq<u8>) -> bool {
    exists|s: Seq<u64>|
        #[trigger] sorted(s) && same_counts(s, spec_parsed(input)) && seq_sum(dedup_from(s, 0))
            > u64::MAX
}

/// Some sorted arrangement of the input's numbers has fewer than twenty
/// distinct values, or their twenty smallest sum past `u64`.
pub open spec fn q03_p2_blocked(input: Seq<u8>) -> bool {
    exists|s: Seq<u64>|
        #[trigger] sorted(s) && same_counts(s, spec_parsed(input)) && (dedup_from(s, 0).len() < 20
            || seq_sum(dedup_from(s, 0).take(20)) > u64::MAX)
}

/// First part: the sum of the distinct crate sizes.  The witness is the
/// sorted arrangement of the input's numbers.
pub fn solve_part1(input: &[u8]) -> (r: Option<u64>)
    ensures
        r matches Some(v) ==> q03_p1_valid(input@, v),
        r is None ==> !q03_ok(input@) || q03_p1_over(input@),
{
    let ns = match parse(input) {
        Some(ns) => ns,
        None => {
            return None;
        },
    };
    let ghost orig = ns@;
    let s = sort_u64(ns);
    proof {
        assert(orig == spec_parsed(input@)) by {
            assert(orig =~= spec_parsed(input@));
        }
    }
    let mut acc: u128 = 0;
    let mut k: usize = 0;
    while k < s.len()
        invariant
            sorted(s@),
            same_counts(s@, spec_parsed(input@)),
            0 <= k <= s@.len(),
            acc == seq_sum(dedup_upto(s@, k as int)),
            acc <= 0xffff_ffff_ffff_ffff * (k as int),
        decreases s@.len() - k,
    {
        let take_it = if k == 0 {
            true
        } else {
            s[k - 1] != s[k]
        };
        proof {
            lemma_dedup_upto_succ(s@, k as int);
        }
        if take_it {
            acc = acc + s[k] as u128;
        }
        k += 1;
    }
    proof {
        lemma_dedup_upto_all(s@);
    }
    if acc > u64::MAX as u128 {
        proof {
            assert(q03_p1_over(input@)) by {
                assert(sorted(s@) && same_counts(s@, spec_parsed(input@)) && seq_sum(
                    dedup_from(s@, 0),
                ) > u64::MAX);
            }
        }
        return None;
    }
    proof {
        assert(q03_p1_valid(input@, acc as u64)) by {
            assert(sorted(s@) && same_counts(s@, spec_parsed(input@)) && (acc as u64) as int
                == seq_sum(dedup_from(s@, 0)));
        }
    }
    Some(acc as u64)
}

/// The parsed numbers of the input, as a sequence.
pub open spec fn spec_parsed(input: Seq<u8>) -> Seq<u64> {
    Seq::new(q03_nums(input).len(), |k: int| digits_val(q03_nums(input)[k]) as u64)
}

/// The deduplicated prefix of a sorted sequence, up to index `i`.
pub open spec fn dedup_upto(s: Seq<u64>, i: int) -> Seq<u64>
    decreases i,
{
    if i <= 0 || i > s.len() {
        Seq::empty()
    } else if i == 1 || s[i - 1] != s[i - 2] {
        dedup_upto(s, i - 1).push(s[i - 1])
    } else {
        dedup_upto(s, i - 1)
    }
}

/// Extends the deduplicated prefix by one element.
proof fn lemma_dedup_upto_succ(s: Seq<u64>, i: int)
    requires
        0 <= i < s.len(),
    ensures
        seq_sum(dedup_upto(s, i + 1)) == seq_sum(dedup_upto(s, i)) + (if i == 0 || s[i] != s[i - 1] {
            s[i] as int
        } else {
            0int
        }),
        seq_sum(dedup_upto(s, i)) >= 0,
{
    lemma_sum_concat(Seq::empty(), dedup_upto(s, i));
    assert(Seq::<u64>::empty() + dedup_upto(s, i) =~= dedup_upto(s, i));
    if i == 0 || s[i] != s[i - 1] {
        assert(dedup_upto(s, i + 1) == dedup_upto(s, i).push(s[i]));
        assert(dedup_upto(s, i).push(s[i]).drop_last() =~= dedup_upto(s, i));
    }
}

/// The whole deduplicated prefix has the same sum as the deduplicated
/// suffix from the start.
proof fn lemma_dedup_upto_all(s: Seq<u64>)
    ensures
        seq_sum(dedup_upto(s, s.len() as int)) == seq_sum(dedup_from(s, 0)),
{
    lemma_dedup_eq(s, s.len() as int);
}

/// The prefix and suffix formulations of deduplication agree.
proof fn lemma_dedup_eq(s: Seq<u64>, i: int)
    requires
        0 <= i <= s.len(),
    ensures
        dedup_upto(s, i) + dedup_from(s, i) =~= dedup_from(s, 0),
    decreases i,
{
    if i == 0 {
        assert(dedup_upto(s, 0) + dedup_from(s, 0) =~= dedup_from(s, 0));
    } else {
        lemma_dedup_eq(s, i - 1);
        if i == 1 || s[i - 1] != s[i - 2] {
            assert(dedup_from(s, i - 1) =~= seq![s[i - 1]] + dedup_from(s, i));
            assert(dedup_upto(s, i) + dedup_from(s, i) =~= dedup_upto(s, i - 1) + dedup_from(
                s,
                i - 1,
            ));
        } else {
            assert(dedup_from(s, i - 1) =~= dedup_from(s, i));
            assert(dedup_upto(s, i) + dedup_from(s, i) =~= dedup_upto(s, i - 1) + dedup_from(
                s,
                i - 1,
            ));
        }
    }
}

/// Second part: the sum of the twenty smallest distinct crate sizes.
pub fn solve_part2(input: &[u8]) -> (r: Option<u64>)
    ensures
        r matches Some(v) ==> q03_p2_valid(input@, v),
        r is None ==> !q03_ok(input@) || q03_p2_blocked(input@),
{
    let ns = match parse(input) {
        Some(ns) => ns,
        None => {
            return None;
        },
    };
    let ghost orig = ns@;
    let s = sort_u64(ns);
    proof {
        assert(orig =~= spec_parsed(input@));
    }
    let mut acc: u128 = 0;
    let mut taken: u64 = 0;
    let mut k: usize = 0;
    let ghost dd = dedup_from(s@, 0);
    while k < s.len() && taken < 20
        invariant
            sorted(s@),
            same_counts(s@, spec_parsed(input@)),
            dd == dedup_from(s@, 0),
            0 <= k <= s@.len(),
            taken == dedup_upto(s@, k as int).len(),
            taken <= 20,
            taken as int <= dd.len(),
            dedup_upto(s@, k as int) =~= dd.take(taken as int),
            acc == seq_sum(dd.take(taken as int)),
            acc <= 0xffff_ffff_ffff_ffff * (taken as int),
        decreases s@.len() - k,
    {
        let take_it = if k == 0 {
            true
        } else {
            s[k - 1] != s[k]
        };
        proof {
            lemma_dedup_upto_succ(s@, k as int);
            lemma_dedup_eq(s@, k as int + 1);
            lemma_dedup_eq(s@, k as int);
        }
        if take_it {
            acc = acc + s[k] as u128;
            taken = taken + 1;
            proof {
                assert(dedup_upto(s@, k as int + 1) =~= dd.take(taken as int));
                assert(dd.len() >= taken as int) by {
                    assert(dedup_upto(s@, k as int + 1) + dedup_from(s@, k as int + 1) =~= dd);
                }
            }
        } else {
            proof {
                assert(dedup_upto(s@, k as int + 1) =~= dd.take(taken as int));
            }
        }
        k += 1;
    }
    proof {
        assert(dedup_upto(s@, s@.len() as int) =~= dd) by {
            lemma_dedup_eq(s@, s@.len() as int);
            assert(dedup_from(s@, s@.len() as int) =~= Seq::<u64>::empty());
            assert(dedup_upto(s@, s@.len() as int) + dedup_from(s@, s@.len() as int)
                =~= dedup_upto(s@, s@.len() as int));
        }
    }
    if taken < 20 {
        proof {
            assert(q03_p2_blocked(input@)) by {
                assert(dd.len() == taken as int);
                assert(sorted(s@) && same_counts(s@, spec_parsed(input@)) && dedup_from(
                    s@,
                    0,
                ).len() < 20);
            }
        }
        return None;
    }
    if acc > u64::MAX as u128 {
        proof {
            assert(q03_p2_blocked(input@)) by {
                assert(sorted(s@) && same_counts(s@, spec_parsed(input@)) && seq_sum(
                    dedup_from(s@, 0).take(20),
                ) > u64::MAX);
            }
        }
        return None;
    }
    proof {
        assert(q03_p2_valid(input@, acc as u64)) by {
            assert(dedup_upto(s@, s@.len() as int) =~= dd) by {
                lemma_dedup_eq(s@, s@.len() as int);
                assert(dedup_from(s@, s@.len() as int) =~= Seq::<u64>::empty());
                assert(dedup_upto(s@, s@.len() as int) + dedup_from(s@, s@.len() as int)
                    =~= dedup_upto(s@, s@.len() as int));
            }
            assert(sorted(s@) && same_counts(s@, spec_parsed(input@)) && dd.len() >= 20 && (
            acc as u64) as int == seq_sum(dd.take(20)));
        }
    }
    Some(acc as u64)
}

/// One draining round of a sorted sequence: the first crate of every run
/// of equal sizes is removed, from index `i` on.
pub open spec fn keep_from(s: Seq<u64>, i: int) -> Seq<u64>
    decreases s.len() - i,
{
    if i < 0 || i >= s.len() {
        Seq::empty()
    } else if i >= 1 && s[i] == s[i - 1] {
        seq![s[i]] + keep_from(s, i + 1)
    } else {
        keep_from(s, i + 1)
    }
}

/// A round never keeps more crates than remain after its start.
proof fn lemma_keep_len(s: Seq<u64>, i: int)
    requires
        0 <= i <= s.len(),
    ensures
        keep_from(s, i).len() <= s.len() - i,
        i == 0 && s.len() > 0 ==> keep_from(s, i).len() < s.len(),
    decreases s.len() - i,
{
    if i < s.len() {
        lemma_keep_len(s, i + 1);
    }
}

/// The number of draining rounds until nothing is left.
pub open spec fn rounds(s: Seq<u64>) -> int
    decreases s.len(),
    via rounds_dec
{
    if s.len() == 0 {
        0
    } else {
        1 + rounds(keep_from(s, 0))
    }
}

#[via_fn]
proof fn rounds_dec(s: Seq<u64>) {
    if s.len() > 0 {
        lemma_keep_len(s, 0);
    }
}

/// Third part: the number of rounds to drain the crates, removing one
/// crate of each distinct size per round.
pub fn solve_part3(input: &[u8]) -> (r: Option<u64>)
    ensures
        r is Some <==> q03_ok(input@),
        r matches Some(v) ==> q03_p3_valid(input@, v),
{
    let ns = match parse(input) {
        Some(ns) => ns,
        None => {
            return None;
        },
    };
    let ghost orig = ns@;
    let mut cur = sort_u64(ns);
    proof {
        assert(orig =~= spec_parsed(input@));
    }
    let ghost s0 = cur@;
    let n0 = cur.len();
    proof {
        lemma_rounds_nonneg(s0);
    }
    let mut n: u64 = 0;
    while cur.len() > 0
        invariant
            sorted(cur@),
            n + rounds(cur@) == rounds(s0),
            0 <= n,
            0 <= rounds(cur@) <= cur@.len(),
            rounds(s0) <= n0,
            n0 == s0.len(),
        decreases cur@.len(),
    {
        let mut next: Vec<u64> = Vec::new();
        let mut k: usize = 0;
        proof {
            assert(next@ + keep_from(cur@, 0) =~= keep_from(cur@, 0));
        }
        while k < cur.len()
            invariant
                sorted(cur@),
                0 <= k <= cur@.len(),
                next@ + keep_from(cur@, k as int) =~= keep_from(cur@, 0),
                sorted(next@),
                next@.len() > 0 && k < cur@.len() ==> next@.last() <= cur@[k as int],
                next@.len() <= k,
            decreases cur@.len() - k,
        {
            if k >= 1 && cur[k] == cur[k - 1] {
                let ghost pre = next@;
                next.push(cur[k]);
                proof {
                    assert(next@ =~= pre.push(cur@[k as int]));
                    assert(keep_from(cur@, k as int) =~= seq![cur@[k as int]] + keep_from(
                        cur@,
                        k as int + 1,
                    ));
                    assert(next@ + keep_from(cur@, k as int + 1) =~= pre + keep_from(
                        cur@,
                        k as int,
                    ));
                }
            } else {
                proof {
                    assert(keep_from(cur@, k as int) =~= keep_from(cur@, k as int + 1));
                }
            }
            k += 1;
        }
        proof {
            assert(next@ =~= keep_from(cur@, 0));
            lemma_keep_len(cur@, 0);
            lemma_rounds_nonneg(next@);
            assert(rounds(cur@) == 1 + rounds(next@));
        }
        proof {
            assert(rounds(cur@) >= 1);
        }
        cur = next;
        n = n + 1;
    }
    proof {
        assert(rounds(cur@) == 0);
        assert(q03_p3_valid(input@, n)) by {
            assert(sorted(s0) && same_counts(s0, spec_parsed(input@)) && n as int == rounds(s0));
        }
    }
    Some(n)
}

/// A drain takes at least zero and at most one round per crate.
proof fn lemma_rounds_nonneg(s: Seq<u64>)
    ensures
        0 <= rounds(s) <= s.len(),
    decreases s.len(),
{
    if s.len() > 0 {
        lemma_keep_len(s, 0);
        lemma_rounds_nonneg(keep_from(s, 0));
    }
}

/// All three parts, each on its own input.
pub fn solve(input1: &[u8], input2: &[u8], input3: &[u8]) -> (r: (
    Option<u64>,
    Option<u64>,
    Option<u64>,
))
    ensures
        r.0 matches Some(v) ==> q03_p1_valid(input1@, v),
        r.0 is None ==> !q03_ok(input1@) || q03_p1_over(input1@),
        r.1 matches Some(v) ==> q03_p2_valid(input2@, v),
        r.1 is None ==> !q03_ok(input2@) || q03_p2_blocked(input2@),
        r.2 is Some <==> q03_ok(input3@),
        r.2 matches Some(v) ==> q03_p3_valid(input3@, v),
{
    (solve_part1(input1), solve_part2(input2), solve_part3(input3))
}

} // verus!
