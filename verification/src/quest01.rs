//! A quest about following left/right instructions through a list of
//! names: the input holds the comma-separated names, a blank line, and
//! comma-separated instructions such as `R3` or `L1`.

use vstd::prelude::*;

use crate::bytes::{split_bytes, parse_u64, copy_bytes, spec_split, all_digits, digits_val, views};

verus! {

/// The index of the first blank-line separator, or the length.
pub open spec fn idx2(s: Seq<u8>) -> int
    decreases s.len(),
{
    if s.len() < 2 {
        s.len() as int
    } else if s[0] == 10 && s[1] == 10 {
        0
    } else {
        1 + idx2(s.skip(1))
    }
}

/// The comma-separated names before the blank line.
pub open spec fn q01_names(input: Seq<u8>) -> Seq<Seq<u8>> {
    spec_split(input.take(idx2(input)), 44)
}

/// The comma-separated instruction texts after the blank line.
pub open spec fn q01_instr_texts(input: Seq<u8>) -> Seq<Seq<u8>> {
    spec_split(input.skip(idx2(input) + 2), 44)
}

/// An instruction text is a direction byte followed by a number.
pub open spec fn instr_ok(t: Seq<u8>) -> bool {
    &&& t.len() >= 2
    &&& (t[0] == 82 || t[0] == 76)
    &&& all_digits(t.skip(1))
    &&& digits_val(t.skip(1)) <= u64::MAX
}

/// The input splits at a blank line and every instruction is well formed.
pub open spec fn q01_ok(input: Seq<u8>) -> bool {
    &&& idx2(input) + 2 <= input.len()
    &&& q01_names(input).len() >= 1
    &&& forall|k: int|
        0 <= k < q01_instr_texts(input).len() ==> instr_ok(#[trigger] q01_instr_texts(input)[k])
}

/// The instruction at index `k`: its direction byte and distance.
pub open spec fn q01_instr(input: Seq<u8>, k: int) -> (u8, int) {
    (q01_instr_texts(input)[k][0], digits_val(q01_instr_texts(input)[k].skip(1)))
}

/// A scan that passed `i` bytes without a blank line pins down `idx2`.
proof fn lemma_idx2(s: Seq<u8>, i: int)
    requires
        0 <= i,
        i + 1 <= s.len(),
        forall|j: int| 0 <= j < i ==> !(#[trigger] s[j] == 10 && s[j + 1] == 10),
    ensures
        idx2(s) >= i,
        (i + 1 < s.len() && s[i] == 10 && s[i + 1] == 10) ==> idx2(s) == i,
    decreases i,
{
    lemma_idx2_bounds(s);
    if i > 0 {
        assert(!(s[0] == 10 && s[1] == 10));
        assert(forall|j: int| 0 <= j < i - 1 ==> s.skip(1)[j] == s[j + 1]);
        lemma_idx2(s.skip(1), i - 1);
    }
}

/// The blank-line separator is never found beyond the length.
proof fn lemma_idx2_bounds(s: Seq<u8>)
    ensures
        0 <= idx2(s) <= s.len(),
    decreases s.len(),
{
    if s.len() >= 2 && !(s[0] == 10 && s[1] == 10) {
        lemma_idx2_bounds(s.skip(1));
    }
}

/// Splits the input into its name list and its instruction list.
pub fn parse(input: &[u8]) -> (r: Option<(Vec<Vec<u8>>, Vec<(u8, u64)>)>)
    ensures
        r is Some <==> q01_ok(input@),
        r matches Some(p) ==> {
            &&& views(p.0@) == q01_names(input@)
            &&& p.1@.len() == q01_instr_texts(input@).len()
            &&& forall|k: int|
                0 <= k < p.1@.len() ==> (#[trigger] p.1@[k]).0 == q01_instr(input@, k).0
                    && p.1@[k].1 == q01_instr(input@, k).1
        },
{
    proof {
        lemma_idx2_bounds(input@);
    }
    let n = input.len();
    let mut i: usize = 0;
    while i + 1 < n && !(input[i] == 10 && input[i + 1] == 10)
        invariant
            n == input@.len(),
            0 <= i,
            input@.len() >= 1 ==> i + 1 <= input@.len(),
            input@.len() == 0 ==> i == 0,
            forall|j: int| 0 <= j < i ==> !(#[trigger] input@[j] == 10 && input@[j + 1] == 10),
        decreases input@.len() - i,
    {
        i += 1;
    }
    if input.len() == 0 || i + 1 >= input.len() {
        proof {
            if input@.len() >= 1 {
                lemma_idx2(input@, i as int);
            }
            assert(idx2(input@) + 2 > input@.len());
        }
        return None;
    }
    proof {
        lemma_idx2(input@, i as int);
    }
    let mut head: Vec<u8> = Vec::new();
    let mut j: usize = 0;
    proof {
        assert(head@ =~= input@.take(i as int).take(0));
    }
    while j < i
        invariant
            0 <= j <= i,
            i < input@.len(),
            head@ =~= input@.take(i as int).take(j as int),
        decreases i - j,
    {
        head.push(input[j]);
        proof {
            assert(head@ =~= input@.take(i as int).take(j + 1));
        }
        j += 1;
    }
    proof {
        assert(head@ =~= input@.take(i as int));
    }
    let mut tail: Vec<u8> = Vec::new();
    let mut j2: usize = i + 2;
    proof {
        assert(tail@ =~= input@.skip(i as int + 2).take(0));
    }
    while j2 < input.len()
        invariant
            i + 2 <= j2 <= input@.len(),
            tail@ =~= input@.skip(i as int + 2).take(j2 - i - 2),
        decreases input@.len() - j2,
    {
        tail.push(input[j2]);
        proof {
            assert(tail@ =~= input@.skip(i as int + 2).take(j2 + 1 - i - 2));
        }
        j2 += 1;
    }
    proof {
        assert(tail@ =~= input@.skip(i as int + 2));
    }
    let names = split_bytes(head.as_slice(), 44);
    let texts = split_bytes(tail.as_slice(), 44);
    proof {
        assert(views(names@) == q01_names(input@));
        assert(views(texts@) == q01_instr_texts(input@));
    }
    let ghost txts = q01_instr_texts(input@);
    let mut instrs: Vec<(u8, u64)> = Vec::new();
    let mut k: usize = 0;
    while k < texts.len()
        invariant
            0 <= k <= texts@.len(),
            views(texts@) == txts,
            txts == q01_instr_texts(input@),
            instrs@.len() == k,
            forall|j3: int| 0 <= j3 < k ==> instr_ok(#[trigger] txts[j3]),
            forall|j3: int|
                0 <= j3 < k ==> (#[trigger] instrs@[j3]).0 == txts[j3][0] && instrs@[j3].1
                    == digits_val(txts[j3].skip(1)),
        decreases texts@.len() - k,
    {
        let t = &texts[k];
        proof {
            assert(views(texts@)[k as int] == texts@[k as int]@);
        }
        if t.len() < 2 {
            proof {
                assert(views(texts@)[k as int] == texts@[k as int]@);
                assert(!instr_ok(q01_instr_texts(input@)[k as int]));
                assert(!q01_ok(input@));
            }
            return None;
        }
        let d = t[0];
        if !(d == 82 || d == 76) {
            proof {
                assert(views(texts@)[k as int] == texts@[k as int]@);
                assert(!instr_ok(q01_instr_texts(input@)[k as int]));
                assert(!q01_ok(input@));
            }
            return None;
        }
        let mut digits: Vec<u8> = Vec::new();
        let mut m: usize = 1;
        proof {
            assert(digits@ =~= t@.skip(1).take(0));
        }
        while m < t.len()
            invariant
                1 <= m <= t@.len(),
                t@.len() >= 2,
                digits@ =~= t@.skip(1).take(m - 1),
            decreases t@.len() - m,
        {
            digits.push(t[m]);
            proof {
                assert(digits@ =~= t@.skip(1).take(m as int));
            }
            m += 1;
        }
        proof {
            assert(digits@ =~= t@.skip(1));
        }
        let n = match parse_u64(digits.as_slice()) {
            Some(n) => n,
            None => {
                proof {
                    assert(views(texts@)[k as int] == texts@[k as int]@);
                    assert(!instr_ok(q01_instr_texts(input@)[k as int]));
                    assert(!q01_ok(input@));
                }
                return None;
            },
        };
        instrs.push((d, n));
        k += 1;
    }
    Some((names, instrs))
}

/// The position after the first part's walk: right moves saturate at the
/// last name, left moves saturate at the first.
pub open spec fn q01_pos1(nlen: int, input: Seq<u8>, i: int) -> int
    decreases i,
{
    if i <= 0 {
        0
    } else {
        let p = q01_pos1(nlen, input, i - 1);
        let d = q01_instr(input, i - 1).0;
        let n = q01_instr(input, i - 1).1;
        if d == 82 {
            if n < nlen - 1 - p {
                p + n
            } else {
                nlen - 1
            }
        } else {
            if n <= p {
                p - n
            } else {
                0
            }
        }
    }
}

/// First part: the name reached by saturating left/right moves.
pub fn solve_part1(input: &[u8]) -> (r: Option<Vec<u8>>)
    ensures
        r is Some <==> q01_ok(input@),
        r matches Some(name) ==> name@ == q01_names(input@)[q01_pos1(
            q01_names(input@).len() as int,
            input@,
            q01_instr_texts(input@).len() as int,
        )],
{
    let (names, instrs) = match parse(input) {
        Some(p) => p,
        None => {
            return None;
        },
    };
    let nlen = names.len();
    let ghost gn = q01_names(input@).len() as int;
    let mut pos: usize = 0;
    let mut k: usize = 0;
    while k < instrs.len()
        invariant
            0 <= k <= instrs@.len(),
            nlen == gn,
            nlen >= 1,
            0 <= pos < nlen,
            pos == q01_pos1(gn, input@, k as int),
            q01_ok(input@),
            instrs@.len() == q01_instr_texts(input@).len(),
            forall|j: int|
                0 <= j < instrs@.len() ==> (#[trigger] instrs@[j]).0 == q01_instr(input@, j).0
                    && instrs@[j].1 == q01_instr(input@, j).1,
        decreases instrs@.len() - k,
    {
        let (d, n) = instrs[k];
        if d == 82 {
            let room = (nlen - 1 - pos) as u64;
            if n < room {
                pos = pos + n as usize;
            } else {
                pos = nlen - 1;
            }
        } else {
            if n <= pos as u64 {
                pos = pos - n as usize;
            } else {
                pos = 0;
            }
        }
        k += 1;
    }
    Some(copy_bytes(&names[pos]))
}

/// The position after the second part's walk: moves wrap around the
/// name list in both directions.
pub open spec fn q01_pos2(nlen: int, input: Seq<u8>, i: int) -> int
    decreases i,
{
    if i <= 0 || nlen <= 0 {
        0
    } else {
        let p = q01_pos2(nlen, input, i - 1);
        let d = q01_instr(input, i - 1).0;
        let n = q01_instr(input, i - 1).1;
        if d == 82 {
            (p + n % nlen) % nlen
        } else {
            (p + nlen - n % nlen) % nlen
        }
    }
}

/// Second part: the name reached by wrapping left/right moves.
pub fn solve_part2(input: &[u8]) -> (r: Option<Vec<u8>>)
    ensures
        r is Some <==> q01_ok(input@),
        r matches Some(name) ==> name@ == q01_names(input@)[q01_pos2(
            q01_names(input@).len() as int,
            input@,
            q01_instr_texts(input@).len() as int,
        )],
{
    let (names, instrs) = match parse(input) {
        Some(p) => p,
        None => {
            return None;
        },
    };
    let nlen = names.len();
    let ghost gn = q01_names(input@).len() as int;
    let mut pos: usize = 0;
    let mut k: usize = 0;
    while k < instrs.len()
        invariant
            0 <= k <= instrs@.len(),
            nlen == gn,
            nlen >= 1,
            0 <= pos < nlen,
            pos == q01_pos2(gn, input@, k as int),
            q01_ok(input@),
            instrs@.len() == q01_instr_texts(input@).len(),
            forall|j: int|
                0 <= j < instrs@.len() ==> (#[trigger] instrs@[j]).0 == q01_instr(input@, j).0
                    && instrs@[j].1 == q01_instr(input@, j).1,
        decreases instrs@.len() - k,
    {
        let (d, n) = instrs[k];
        let m = (n % nlen as u64) as usize;
        if d == 82 {
            pos = ((pos as u128 + m as u128) % nlen as u128) as usize;
        } else {
            pos = ((pos as u128 + nlen as u128 - m as u128) % nlen as u128) as usize;
        }
        k += 1;
    }
    Some(copy_bytes(&names[pos]))
}

/// The name list after the third part's walk: each move swaps the first
/// name with the one the wrapped distance points at.
pub open spec fn q01_names3(input: Seq<u8>, i: int) -> Seq<Seq<u8>>
    decreases i,
{
    if i <= 0 {
        q01_names(input)
    } else {
        let prev = q01_names3(input, i - 1);
        let nlen = q01_names(input).len() as int;
        let d = q01_instr(input, i - 1).0;
        let n = q01_instr(input, i - 1).1;
        let j = if nlen <= 0 {
            0
        } else if d == 82 {
            n % nlen
        } else {
            (nlen - n % nlen) % nlen
        };
        prev.update(0, prev[j]).update(j, prev[0])
    }
}

/// Third part: repeated swaps of the front name.
pub fn solve_part3(input: &[u8]) -> (r: Option<Vec<u8>>)
    ensures
        r is Some <==> q01_ok(input@),
        r matches Some(name) ==> name@ == q01_names3(
            input@,
            q01_instr_texts(input@).len() as int,
        )[0],
{
    let (mut names, instrs) = match parse(input) {
        Some(p) => p,
        None => {
            return None;
        },
    };
    let nlen = names.len();
    let mut k: usize = 0;
    while k < instrs.len()
        invariant
            0 <= k <= instrs@.len(),
            nlen >= 1,
            names@.len() == nlen,
            nlen == q01_names(input@).len(),
            views(names@) =~= q01_names3(input@, k as int),
            q01_ok(input@),
            instrs@.len() == q01_instr_texts(input@).len(),
            forall|j: int|
                0 <= j < instrs@.len() ==> (#[trigger] instrs@[j]).0 == q01_instr(input@, j).0
                    && instrs@[j].1 == q01_instr(input@, j).1,
        decreases instrs@.len() - k,
    {
        let (d, n) = instrs[k];
        let m = (n % nlen as u64) as usize;
        let j = if d == 82 {
            m
        } else {
            (nlen - m) % nlen
        };
        let a = copy_bytes(&names[0]);
        let b = copy_bytes(&names[j]);
        names.set(0, b);
        names.set(j, a);
        proof {
            assert(views(names@) =~= q01_names3(input@, k as int + 1));
        }
        k += 1;
    }
    Some(copy_bytes(&names[0]))
}

/// All three parts, each on its own input.
pub fn solve(input1: &[u8], input2: &[u8], input3: &[u8]) -> (r: (
    Option<Vec<u8>>,
    Option<Vec<u8>>,
    Option<Vec<u8>>,
))
    ensures
        r.0 matches Some(name) ==> name@ == q01_names(input1@)[q01_pos1(
            q01_names(input1@).len() as int,
            input1@,
            q01_instr_texts(input1@).len() as int,
        )],
        r.1 matches Some(name) ==> name@ == q01_names(input2@)[q01_pos2(
            q01_names(input2@).len() as int,
            input2@,
            q01_instr_texts(input2@).len() as int,
        )],
        r.2 matches Some(name) ==> name@ == q01_names3(
            input3@,
            q01_instr_texts(input3@).len() as int,
        )[0],
{
    (solve_part1(input1), solve_part2(input2), solve_part3(input3))
}

} // verus!
