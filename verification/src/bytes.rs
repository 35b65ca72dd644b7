//! Byte-level text helpers shared by the quest solvers: splitting a byte
//! string at a separator and reading unsigned decimal numbers.
//!
//! Splitting is specified through `spec_join`: the returned parts never
//! contain the separator and joining them with it reproduces the input,
//! which determines the parts uniquely.

use vstd::prelude::*;

verus! {

/// The index of the first occurrence of the separator, or the length.
pub open spec fn idx_of(s: Seq<u8>, sep: u8) -> int
    decreases s.len(),
{
    if s.len() == 0 {
        0
    } else if s[0] == sep {
        0
    } else {
        1 + idx_of(s.skip(1), sep)
    }
}

/// The parts of a byte string between occurrences of the separator.
pub open spec fn spec_split(s: Seq<u8>, sep: u8) -> Seq<Seq<u8>>
    decreases s.len(),
{
    let i = idx_of(s, sep);
    if i < 0 || i >= s.len() {
        seq![s]
    } else {
        seq![s.take(i)] + spec_split(s.skip(i + 1), sep)
    }
}

/// Every byte is a decimal digit.
pub open spec fn all_digits(s: Seq<u8>) -> bool {
    forall|i: int| 0 <= i < s.len() ==> 48 <= #[trigger] s[i] <= 57
}

/// The value of a decimal digit string.
pub open spec fn digits_val(s: Seq<u8>) -> int
    decreases s.len(),
{
    if s.len() == 0 {
        0
    } else {
        digits_val(s.drop_last()) * 10 + (s.last() - 48)
    }
}

/// Digit strings denote nonnegative values, and prefixes never denote
/// more than the whole string.
pub proof fn lemma_digits_mono(s: Seq<u8>, i: int)
    requires
        all_digits(s),
        0 <= i <= s.len(),
    ensures
        0 <= digits_val(s.take(i)) <= digits_val(s),
    decreases s.len() - i,
{
    if i == s.len() {
        assert(s.take(i) =~= s);
        lemma_digits_nonneg(s);
    } else {
        lemma_digits_mono(s, i + 1);
        assert(s.take(i + 1).drop_last() =~= s.take(i));
        lemma_digits_nonneg(s.take(i));
    }
}

/// A digit string denotes a nonnegative value.
pub proof fn lemma_digits_nonneg(s: Seq<u8>)
    requires
        all_digits(s),
    ensures
        digits_val(s) >= 0,
    decreases s.len(),
{
    if s.len() > 0 {
        assert(all_digits(s.drop_last())) by {
            assert(forall|i: int| 0 <= i < s.len() - 1 ==> s.drop_last()[i] == s[i]);
        }
        lemma_digits_nonneg(s.drop_last());
    }
}

/// A scan that passed `i` separator-free bytes has found the first
/// separator exactly when it stopped at one.
pub proof fn lemma_idx_of(s: Seq<u8>, sep: u8, i: int)
    requires
        0 <= i <= s.len(),
        forall|j: int| 0 <= j < i ==> s[j] != sep,
        i < s.len() ==> s[i] == sep,
    ensures
        idx_of(s, sep) == i,
    decreases i,
{
    if i == 0 {
    } else {
        assert(s[0] != sep);
        lemma_idx_of(s.skip(1), sep, i - 1);
    }
}

/// Splits the suffix of a byte string starting at `from` at every
/// occurrence of the separator.
fn split_from(s: &[u8], from: usize, sep: u8) -> (r: Vec<Vec<u8>>)
    requires
        from <= s@.len(),
    ensures
        views(r@) == spec_split(s@.skip(from as int), sep),
    decreases s@.len() - from,
{
    let suf = Ghost(s@.skip(from as int));
    let mut i: usize = from;
    let mut part: Vec<u8> = Vec::new();
    while i < s.len() && s[i] != sep
        invariant
            from <= i <= s@.len(),
            part@ =~= suf@.take(i - from),
            suf@ == s@.skip(from as int),
            forall|j: int| 0 <= j < i - from ==> suf@[j] != sep,
            i < s@.len() ==> s@[i as int] == suf@[i - from],
        decreases s@.len() - i,
    {
        part.push(s[i]);
        proof {
            assert(part@ =~= suf@.take(i + 1 - from));
        }
        i += 1;
    }
    proof {
        lemma_idx_of(suf@, sep, i - from);
    }
    if i == s.len() {
        proof {
            assert(part@ =~= suf@);
            assert(spec_split(suf@, sep) == seq![suf@]);
        }
        let mut r: Vec<Vec<u8>> = Vec::new();
        r.push(part);
        proof {
            assert(views(r@) =~= seq![part@]);
        }
        r
    } else {
        let mut r = split_from(s, i + 1, sep);
        proof {
            assert(s@.skip(i + 1) =~= suf@.skip(i - from + 1));
            assert(part@ =~= suf@.take(i - from));
        }
        r.insert(0, part);
        proof {
            assert(views(r@) =~= seq![part@] + spec_split(suf@.skip(i - from + 1), sep));
        }
        r
    }
}

/// Splits a byte string at every occurrence of the separator.
pub fn split_bytes(s: &[u8], sep: u8) -> (r: Vec<Vec<u8>>)
    ensures
        views(r@) == spec_split(s@, sep),
        r@.len() >= 1,
{
    let r = split_from(s, 0, sep);
    proof {
        assert(s@.skip(0) =~= s@);
        assert(spec_split(s@, sep).len() >= 1);
    }
    r
}

/// A split yields at most one part per byte, plus one.
pub proof fn lemma_split_len(s: Seq<u8>, sep: u8)
    ensures
        1 <= spec_split(s, sep).len() <= s.len() + 1,
    decreases s.len(),
{
    let i = idx_of(s, sep);
    if !(i < 0 || i >= s.len()) {
        lemma_split_len(s.skip(i + 1), sep);
    }
}

/// The views of a vector of byte vectors.
pub open spec fn views(parts: Seq<Vec<u8>>) -> Seq<Seq<u8>> {
    parts.map_values(|v: Vec<u8>| v@)
}

/// Reads an unsigned decimal number, the whole slice.  Succeeds exactly
/// on nonempty all-digit strings whose value fits in a `u64`.
pub fn parse_u64(s: &[u8]) -> (r: Option<u64>)
    ensures
        r is Some <==> s@.len() >= 1 && all_digits(s@) && digits_val(s@) <= u64::MAX,
        r matches Some(v) ==> v == digits_val(s@),
{
    if s.len() == 0 {
        return None;
    }
    let mut acc: u64 = 0;
    let mut i: usize = 0;
    proof {
        assert(s@.take(0) =~= Seq::<u8>::empty());
    }
    while i < s.len()
        invariant
            0 <= i <= s@.len(),
            all_digits(s@.take(i as int)),
            acc == digits_val(s@.take(i as int)),
        decreases s@.len() - i,
    {
        let b = s[i];
        if b < 48 || b > 57 {
            proof {
                assert(!all_digits(s@));
            }
            return None;
        }
        let d = (b - 48) as u64;
        if acc > (u64::MAX - d) / 10 {
            proof {
                assert(s@.take(i + 1).drop_last() =~= s@.take(i as int));
                assert(all_digits(s@.take(i + 1)));
                assert(10 * acc > u64::MAX - d) by (nonlinear_arith)
                    requires
                        acc > (u64::MAX - d) / 10,
                        0 <= d <= 9,
                ;
                assert(digits_val(s@.take(i + 1)) == acc * 10 + d);
                if all_digits(s@) {
                    lemma_digits_mono(s@, i + 1);
                    assert(digits_val(s@) > u64::MAX);
                }
            }
            return None;
        }
        proof {
            assert(acc * 10 + d <= u64::MAX) by (nonlinear_arith)
                requires
                    acc <= (u64::MAX - d) / 10,
                    0 <= d <= 9,
            ;
            assert(s@.take(i + 1).drop_last() =~= s@.take(i as int));
        }
        acc = acc * 10 + d;
        i += 1;
    }
    proof {
        assert(s@.take(i as int) =~= s@);
    }
    Some(acc)
}

/// A fresh copy of a byte vector.
pub fn copy_bytes(v: &Vec<u8>) -> (r: Vec<u8>)
    ensures
        r@ == v@,
{
    let mut r: Vec<u8> = Vec::new();
    let mut i: usize = 0;
    while i < v.len()
        invariant
            0 <= i <= v@.len(),
            r@ =~= v@.take(i as int),
        decreases v@.len() - i,
    {
        r.push(v[i]);
        proof {
            assert(r@ =~= v@.take(i + 1));
        }
        i += 1;
    }
    proof {
        assert(v@.take(i as int) =~= v@);
    }
    r
}

/// The integer denoted by an optionally minus-signed digit string.
pub open spec fn int_val(s: Seq<u8>) -> int {
    if s.len() >= 1 && s[0] == 45 {
        -digits_val(s.skip(1))
    } else {
        digits_val(s)
    }
}

/// The string is a well-formed signed decimal number.
pub open spec fn int_ok(s: Seq<u8>) -> bool {
    if s.len() >= 1 && s[0] == 45 {
        s.len() >= 2 && all_digits(s.skip(1))
    } else {
        s.len() >= 1 && all_digits(s)
    }
}

/// Reads a signed decimal number, the whole slice.  Succeeds exactly on
/// well-formed numbers whose value fits in an `i64`.
pub fn parse_i64(s: &[u8]) -> (r: Option<i64>)
    ensures
        r is Some <==> int_ok(s@) && i64::MIN <= int_val(s@) <= i64::MAX,
        r matches Some(v) ==> v == int_val(s@),
{
    if s.len() == 0 {
        return None;
    }
    if s[0] == 45 {
        let mut digits: Vec<u8> = Vec::new();
        let mut i: usize = 1;
        proof {
            assert(digits@ =~= s@.skip(1).take(0));
        }
        while i < s.len()
            invariant
                1 <= i <= s@.len(),
                s@.len() >= 1,
                digits@ =~= s@.skip(1).take(i - 1),
            decreases s@.len() - i,
        {
            digits.push(s[i]);
            proof {
                assert(digits@ =~= s@.skip(1).take(i as int));
            }
            i += 1;
        }
        proof {
            assert(digits@ =~= s@.skip(1));
        }
        match parse_u64(digits.as_slice()) {
            Some(v) => {
                if v > 0x8000_0000_0000_0000u64 {
                    proof {
                        lemma_digits_nonneg(s@.skip(1));
                    }
                    return None;
                }
                if v == 0x8000_0000_0000_0000u64 {
                    Some(i64::MIN)
                } else {
                    Some(-(v as i64))
                }
            },
            None => {
                proof {
                    if int_ok(s@) {
                        lemma_digits_nonneg(s@.skip(1));
                        assert(digits_val(s@.skip(1)) > u64::MAX);
                        assert(int_val(s@) < i64::MIN);
                    }
                }
                None
            },
        }
    } else {
        match parse_u64(s) {
            Some(v) => {
                if v > i64::MAX as u64 {
                    return None;
                }
                Some(v as i64)
            },
            None => {
                proof {
                    if int_ok(s@) {
                        lemma_digits_nonneg(s@);
                    }
                }
                None
            },
        }
    }
}

} // verus!
