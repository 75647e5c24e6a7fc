//! Canonical decimal formatting and parsing for the expiry timestamp.
//!
//! The token payload carries the expiry as a plain base-ten integer, no
//! leading zeros and a leading `-` only for negative values — exactly the
//! strings these functions emit.

use vstd::prelude::*;

verus! {

pub open spec fn is_dec_digit(c: u8) -> bool {
    48 <= c && c <= 57
}

pub open spec fn all_dec_digits(s: Seq<u8>) -> bool {
    forall|i: int| 0 <= i < s.len() ==> is_dec_digit(s[i])
}

/// Canonical decimal rendering of a non-negative value.
pub open spec fn dec_nat(n: nat) -> Seq<u8>
    decreases n,
{
    if n < 10 {
        seq![(48 + n) as u8]
    } else {
        dec_nat(n / 10).push((48 + n % 10) as u8)
    }
}

/// Canonical decimal rendering of a signed value.
pub open spec fn dec_int(v: int) -> Seq<u8> {
    if v < 0 {
        seq![45u8] + dec_nat((-v) as nat)
    } else {
        dec_nat(v as nat)
    }
}

/// Value of a string of decimal digits, most significant first.
pub open spec fn dec_value(s: Seq<u8>) -> int
    decreases s.len(),
{
    if s.len() == 0 {
        0
    } else {
        dec_value(s.drop_last()) * 10 + (s.last() - 48)
    }
}

pub proof fn lemma_dec_nat_props(n: nat)
    ensures
        dec_nat(n).len() >= 1,
        all_dec_digits(dec_nat(n)),
        dec_value(dec_nat(n)) == n,
    decreases n,
{
    if n < 10 {
        let s = dec_nat(n);
        assert(s.drop_last() =~= Seq::<u8>::empty());
        assert(dec_value(Seq::<u8>::empty()) == 0);
        assert(dec_value(s) == 0 * 10 + ((48 + n) - 48));
    } else {
        lemma_dec_nat_props(n / 10);
        let s = dec_nat(n);
        assert(s.drop_last() =~= dec_nat(n / 10));
        assert(dec_value(s) == (n / 10) * 10 + (n % 10));
        assert((n / 10) * 10 + (n % 10) == n) by (nonlinear_arith);
    }
}

pub proof fn lemma_dec_value_bounds(s: Seq<u8>)
    requires
        all_dec_digits(s),
    ensures
        dec_value(s) >= 0,
    decreases s.len(),
{
    if s.len() > 0 {
        assert(all_dec_digits(s.drop_last()));
        lemma_dec_value_bounds(s.drop_last());
        let a = dec_value(s.drop_last());
        let d = s.last() - 48;
        assert(a * 10 + d >= 0) by (nonlinear_arith)
            requires
                a >= 0,
                d >= 0,
        ;
    }
}

/// A prefix of a digit string never has a larger value than the whole.
pub proof fn lemma_dec_value_prefix(s: Seq<u8>, k: int)
    requires
        all_dec_digits(s),
        0 <= k <= s.len(),
    ensures
        dec_value(s.take(k)) <= dec_value(s),
    decreases s.len() - k,
{
    if k < s.len() {
        let t = s.take(k + 1);
        assert(t.drop_last() =~= s.take(k));
        assert(all_dec_digits(t));
        lemma_dec_value_bounds(s.take(k));
        let a = dec_value(s.take(k));
        let d = t.last() - 48;
        assert(a <= a * 10 + d) by (nonlinear_arith)
            requires
                a >= 0,
                d >= 0,
        ;
        lemma_dec_value_prefix(s, k + 1);
        assert(s.take(s.len() as int) =~= s);
    } else {
        assert(s.take(k) =~= s);
    }
}

/// Canonical rendering is injective: equal renderings mean equal values.
pub proof fn lemma_dec_int_injective(a: int, b: int)
    requires
        dec_int(a) == dec_int(b),
    ensures
        a == b,
{
    if a >= 0 {
        lemma_dec_nat_props(a as nat);
    } else {
        lemma_dec_nat_props((-a) as nat);
    }
    if b >= 0 {
        lemma_dec_nat_props(b as nat);
    } else {
        lemma_dec_nat_props((-b) as nat);
    }
    if a >= 0 && b >= 0 {
        assert(dec_value(dec_nat(a as nat)) == dec_value(dec_nat(b as nat)));
    } else if a < 0 && b < 0 {
        assert(dec_int(a).skip(1) =~= dec_nat((-a) as nat));
        assert(dec_int(b).skip(1) =~= dec_nat((-b) as nat));
        assert(dec_value(dec_nat((-a) as nat)) == dec_value(dec_nat((-b) as nat)));
    } else if a < 0 {
        assert(dec_int(a)[0] == 45);
        assert(is_dec_digit(dec_int(b)[0]));
    } else {
        assert(dec_int(b)[0] == 45);
        assert(is_dec_digit(dec_int(a)[0]));
    }
}

/// Canonical decimal rendering of `n`.
pub fn dec_u64(n: u64) -> (r: Vec<u8>)
    ensures
        r@ == dec_nat(n as nat),
    decreases n,
{
    if n < 10 {
        let mut v: Vec<u8> = Vec::new();
        v.push(48 + n as u8);
        proof {
            assert(v@ =~= dec_nat(n as nat));
        }
        v
    } else {
        let mut r = dec_u64(n / 10);
        assert((n / 10) as nat == n as nat / 10);
        r.push(48 + (n % 10) as u8);
        r
    }
}

/// Canonical decimal rendering of `v`, `-` prefixed when negative.
pub fn dec_i64(v: i64) -> (r: Vec<u8>)
    ensures
        r@ == dec_int(v as int),
{
    if v >= 0 {
        dec_u64(v as u64)
    } else {
        let mag: u64 = (-(v as i128)) as u64;
        let mut out: Vec<u8> = Vec::new();
        out.push(45u8);
        let mut digits = dec_u64(mag);
        out.append(&mut digits);
        proof {
            assert(out@ =~= seq![45u8] + dec_nat(mag as nat));
        }
        out
    }
}

/// Parses `s[start..end]` as an unsigned decimal number.
///
/// Returns the value of the digits; fails on a non-digit, an empty
/// range, or a value above `u64::MAX`. Leading zeros are accepted here
/// and rejected by the caller's canonical-form comparison.
pub fn parse_dec_u64(s: &Vec<u8>, start: usize, end: usize) -> (r: Option<u64>)
    requires
        start <= end <= s@.len(),
    ensures
        r is Some <==> (start < end && all_dec_digits(s@.subrange(start as int, end as int))
            && dec_value(s@.subrange(start as int, end as int)) <= u64::MAX),
        r matches Some(n) ==> n == dec_value(s@.subrange(start as int, end as int)),
{
    if start == end {
        return None;
    }
    let ghost region = s@.subrange(start as int, end as int);
    let mut acc: u64 = 0;
    let mut j: usize = start;
    while j < end
        invariant
            start <= j <= end <= s@.len(),
            region == s@.subrange(start as int, end as int),
            all_dec_digits(s@.subrange(start as int, j as int)),
            acc == dec_value(s@.subrange(start as int, j as int)),
        decreases end - j,
    {
        let c = s[j];
        if !(48 <= c && c <= 57) {
            proof {
                assert(region[j - start] == c);
            }
            return None;
        }
        let d: u64 = (c - 48) as u64;
        proof {
            let pre = s@.subrange(start as int, j as int);
            let cur = s@.subrange(start as int, j + 1 as int);
            assert(cur.drop_last() =~= pre);
            assert(cur.last() == c);
            lemma_dec_value_bounds(pre);
        }
        if acc > (u64::MAX - d) / 10 {
            proof {
                let cur = s@.subrange(start as int, j + 1 as int);
                assert(acc * 10 + d > u64::MAX) by (nonlinear_arith)
                    requires
                        acc > (u64::MAX - d) / 10,
                        0 <= d <= 9,
                        acc >= 0,
                ;
                assert(dec_value(cur) > u64::MAX);
                if all_dec_digits(region) {
                    assert(cur =~= region.take(j + 1 - start));
                    lemma_dec_value_prefix(region, j + 1 - start);
                }
            }
            return None;
        }
        proof {
            assert(acc * 10 + d <= u64::MAX) by (nonlinear_arith)
                requires
                    acc <= (u64::MAX - d) / 10,
                    0 <= d <= 9,
                    acc >= 0,
            ;
        }
        acc = acc * 10 + d;
        j += 1;
    }
    proof {
        assert(s@.subrange(start as int, j as int) =~= region);
    }
    Some(acc)
}

} // verus!
