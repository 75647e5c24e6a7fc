//! Lower-case hexadecimal formatting and strict parsing.
//!
//! The token envelope and the embedded user id both use fixed-width
//! lower-case hex. Parsing is strict: only the exact bytes that the
//! formatter emits are accepted, so encoding is canonical and
//! `format` / `parse` are mutual inverses.

use vstd::prelude::*;

verus! {

/// Lower-case hex digit for a value in `[0, 16)`.
pub open spec fn hex_char_of(v: int) -> u8 {
    if v < 10 {
        (48 + v) as u8
    } else {
        (87 + v) as u8
    }
}

/// Numeric value of a lower-case hex digit, `-1` for any other byte.
pub open spec fn hex_val_of(c: u8) -> int {
    if 48 <= c && c <= 57 {
        c - 48
    } else if 97 <= c && c <= 102 {
        c - 87
    } else {
        -1
    }
}

pub open spec fn is_hex_digit(c: u8) -> bool {
    hex_val_of(c) >= 0
}

pub open spec fn all_hex(s: Seq<u8>) -> bool {
    forall|i: int| 0 <= i < s.len() ==> is_hex_digit(s[i])
}

pub open spec fn pow16(w: nat) -> nat
    decreases w,
{
    if w == 0 {
        1
    } else {
        16 * pow16((w - 1) as nat)
    }
}

/// `w` hex digits of `v mod 16^w`, most significant first.
pub open spec fn hex_fixed(v: nat, w: nat) -> Seq<u8>
    decreases w,
{
    if w == 0 {
        Seq::empty()
    } else {
        hex_fixed(v / 16, (w - 1) as nat).push(hex_char_of((v % 16) as int))
    }
}

/// Value of a string of hex digits, most significant first.
pub open spec fn hex_value(s: Seq<u8>) -> int
    decreases s.len(),
{
    if s.len() == 0 {
        0
    } else {
        hex_value(s.drop_last()) * 16 + hex_val_of(s.last())
    }
}

pub proof fn lemma_hex_fixed_props(v: nat, w: nat)
    requires
        v < pow16(w),
    ensures
        hex_fixed(v, w).len() == w,
        all_hex(hex_fixed(v, w)),
        hex_value(hex_fixed(v, w)) == v,
    decreases w,
{
    if w == 0 {
    } else {
        let q = v / 16;
        let d = v % 16;
        assert(q < pow16((w - 1) as nat) && d < 16) by (nonlinear_arith)
            requires
                v < 16 * pow16((w - 1) as nat),
                q == v / 16,
                d == v % 16,
                pow16((w - 1) as nat) >= 1,
        ;
        lemma_pow16_pos((w - 1) as nat);
        lemma_hex_fixed_props(q, (w - 1) as nat);
        let s = hex_fixed(v, w);
        assert(s.drop_last() =~= hex_fixed(q, (w - 1) as nat));
        assert(hex_val_of(hex_char_of(d as int)) == d);
        assert(hex_value(s) == q * 16 + d);
        assert(q * 16 + d == v) by (nonlinear_arith)
            requires
                q == v / 16,
                d == v % 16,
        ;
    }
}

pub proof fn lemma_pow16_2()
    ensures
        pow16(2) == 256,
{
    assert(pow16(0) == 1);
    assert(pow16(1) == 16);
    assert(pow16(2) == 256);
}

/// Unfolds the two-digit rendering of a byte value.
pub proof fn lemma_hex_fixed_pair(v: nat)
    requires
        v < 256,
    ensures
        hex_fixed(v, 2) == seq![hex_char_of((v / 16) as int), hex_char_of((v % 16) as int)],
{
    let q = v / 16;
    assert(q < 16);
    assert(q % 16 == q);
    assert(q / 16 == 0);
    assert(hex_fixed(0, 0) == Seq::<u8>::empty());
    assert(hex_fixed(q, 1) == hex_fixed(q / 16, 0).push(hex_char_of((q % 16) as int)));
    assert(hex_fixed(v, 2) == hex_fixed(q, 1).push(hex_char_of((v % 16) as int)));
    assert(hex_fixed(v, 2) =~= seq![hex_char_of(q as int), hex_char_of((v % 16) as int)]);
}

/// Unfolds the value of a two-digit string.
pub proof fn lemma_hex_value_pair(p: Seq<u8>)
    requires
        p.len() == 2,
    ensures
        hex_value(p) == hex_val_of(p[0]) * 16 + hex_val_of(p[1]),
{
    assert(p.drop_last() =~= seq![p[0]]);
    assert(seq![p[0]].drop_last() =~= Seq::<u8>::empty());
    assert(hex_value(Seq::<u8>::empty()) == 0);
    assert(hex_value(seq![p[0]]) == hex_val_of(p[0]));
    assert(hex_value(p) == hex_value(p.drop_last()) * 16 + hex_val_of(p.last()));
}

pub proof fn lemma_pow16_pos(w: nat)
    ensures
        pow16(w) >= 1,
    decreases w,
{
    if w > 0 {
        lemma_pow16_pos((w - 1) as nat);
    }
}

pub proof fn lemma_hex_value_bounds(s: Seq<u8>)
    requires
        all_hex(s),
    ensures
        0 <= hex_value(s) < pow16(s.len()),
    decreases s.len(),
{
    if s.len() > 0 {
        assert(all_hex(s.drop_last()));
        lemma_hex_value_bounds(s.drop_last());
        let a = hex_value(s.drop_last());
        let p = pow16((s.len() - 1) as nat);
        let d = hex_val_of(s.last());
        assert(0 <= d < 16);
        assert(0 <= a * 16 + d < 16 * p) by (nonlinear_arith)
            requires
                0 <= a < p,
                0 <= d < 16,
        ;
    }
}

/// Strict parsing inverts formatting: a string of hex digits re-formats
/// to itself.
pub proof fn lemma_hex_roundtrip(s: Seq<u8>)
    requires
        all_hex(s),
    ensures
        hex_fixed(hex_value(s) as nat, s.len()) == s,
    decreases s.len(),
{
    if s.len() > 0 {
        let p = s.drop_last();
        let c = s.last();
        let d = hex_val_of(c);
        assert(all_hex(p));
        lemma_hex_value_bounds(p);
        lemma_hex_roundtrip(p);
        let a = hex_value(p);
        let v = hex_value(s);
        assert(v == a * 16 + d);
        assert(v / 16 == a && v % 16 == d) by (nonlinear_arith)
            requires
                v == a * 16 + d,
                0 <= d < 16,
                a >= 0,
        ;
        assert(hex_char_of(d) == c);
        assert(hex_fixed(v as nat, s.len()) =~= p.push(c));
        assert(p.push(c) =~= s);
    }
}

/// Hex rendering of a byte string, two digits per byte.
pub open spec fn bytes_hex(b: Seq<u8>) -> Seq<u8>
    decreases b.len(),
{
    if b.len() == 0 {
        Seq::empty()
    } else {
        bytes_hex(b.drop_last()) + hex_fixed(b.last() as nat, 2)
    }
}

pub open spec fn hex_pairs_valid(s: Seq<u8>) -> bool {
    s.len() % 2 == 0 && all_hex(s)
}

/// Bytes denoted by a string of hex digit pairs.
pub open spec fn hex_to_bytes(s: Seq<u8>) -> Seq<u8>
    decreases s.len(),
{
    if s.len() < 2 {
        Seq::empty()
    } else {
        hex_to_bytes(s.take(s.len() - 2)).push(hex_value(s.skip(s.len() - 2)) as u8)
    }
}

pub proof fn lemma_bytes_hex_props(b: Seq<u8>)
    ensures
        bytes_hex(b).len() == 2 * b.len(),
        all_hex(bytes_hex(b)),
    decreases b.len(),
{
    if b.len() > 0 {
        lemma_bytes_hex_props(b.drop_last());
        lemma_pow16_2();
        lemma_hex_fixed_props(b.last() as nat, 2);
    }
}

/// Rendering a byte string and decoding the digits yields the bytes back.
pub proof fn lemma_bytes_hex_roundtrip(b: Seq<u8>)
    ensures
        hex_to_bytes(bytes_hex(b)) == b,
    decreases b.len(),
{
    if b.len() == 0 {
        assert(hex_to_bytes(bytes_hex(b)) =~= b);
    } else {
        let pre = b.drop_last();
        let last = b.last();
        lemma_bytes_hex_roundtrip(pre);
        lemma_bytes_hex_props(pre);
        lemma_pow16_2();
        lemma_hex_fixed_props(last as nat, 2);
        let s = bytes_hex(b);
        assert(s.take(s.len() - 2) =~= bytes_hex(pre));
        assert(s.skip(s.len() - 2) =~= hex_fixed(last as nat, 2));
        assert(hex_to_bytes(s) == hex_to_bytes(bytes_hex(pre)).push(last));
        assert(hex_to_bytes(s) =~= b);
    }
}

/// Strict decoding inverts rendering: a valid string of digit pairs
/// re-renders to itself.
pub proof fn lemma_hex_to_bytes_roundtrip(s: Seq<u8>)
    requires
        hex_pairs_valid(s),
    ensures
        bytes_hex(hex_to_bytes(s)) == s,
        hex_to_bytes(s).len() == s.len() / 2,
    decreases s.len(),
{
    if s.len() == 0 {
        assert(bytes_hex(hex_to_bytes(s)) =~= s);
    } else {
        let front = s.take(s.len() - 2);
        let pair = s.skip(s.len() - 2);
        assert(hex_pairs_valid(front));
        lemma_hex_to_bytes_roundtrip(front);
        assert(all_hex(pair));
        lemma_hex_value_bounds(pair);
        lemma_hex_roundtrip(pair);
        let v = hex_value(pair);
        lemma_pow16_2();
        let bs = hex_to_bytes(s);
        assert(bs.drop_last() =~= hex_to_bytes(front));
        assert(bs.last() == v as u8);
        assert(hex_fixed(bs.last() as nat, 2) == pair);
        assert(bytes_hex(bs) == bytes_hex(hex_to_bytes(front)) + pair);
        assert(bytes_hex(bs) =~= s);
    }
}

/// Lower-case hex digit of `v`.
pub fn hex_digit(v: u8) -> (r: u8)
    requires
        v < 16,
    ensures
        r == hex_char_of(v as int),
{
    if v < 10 {
        48 + v
    } else {
        87 + v
    }
}

/// The `w` low nibbles of `v`, most significant first.
pub fn hex_u128(v: u128, w: usize) -> (r: Vec<u8>)
    ensures
        r@ == hex_fixed(v as nat, w as nat),
        r@.len() == w,
    decreases w,
{
    if w == 0 {
        Vec::new()
    } else {
        let mut r = hex_u128(v / 16, w - 1);
        let d: u8 = (v % 16) as u8;
        assert(v as nat / 16 == (v / 16) as nat);
        r.push(hex_digit(d));
        r
    }
}

/// Value of a lower-case hex digit byte.
pub fn hex_val(c: u8) -> (r: Option<u8>)
    ensures
        match r {
            Some(v) => hex_val_of(c) == v && v < 16,
            None => !is_hex_digit(c),
        },
{
    if 48 <= c && c <= 57 {
        Some(c - 48)
    } else if 97 <= c && c <= 102 {
        Some(c - 87)
    } else {
        None
    }
}

pub proof fn lemma_pow16_mono(a: nat, b: nat)
    requires
        a <= b,
    ensures
        pow16(a) <= pow16(b),
    decreases b,
{
    if a < b {
        lemma_pow16_mono(a, (b - 1) as nat);
        lemma_pow16_pos((b - 1) as nat);
    }
}

pub proof fn lemma_pow16_32()
    ensures
        pow16(31) == 0x10000000000000000000000000000000,
        pow16(32) == 0x100000000000000000000000000000000,
{
    assert(pow16(0) == 0x1);
    assert(pow16(1) == 0x10);
    assert(pow16(2) == 0x100);
    assert(pow16(3) == 0x1000);
    assert(pow16(4) == 0x10000);
    assert(pow16(5) == 0x100000);
    assert(pow16(6) == 0x1000000);
    assert(pow16(7) == 0x10000000);
    assert(pow16(8) == 0x100000000);
    assert(pow16(9) == 0x1000000000);
    assert(pow16(10) == 0x10000000000);
    assert(pow16(11) == 0x100000000000);
    assert(pow16(12) == 0x1000000000000);
    assert(pow16(13) == 0x10000000000000);
    assert(pow16(14) == 0x100000000000000);
    assert(pow16(15) == 0x1000000000000000);
    assert(pow16(16) == 0x10000000000000000);
    assert(pow16(17) == 0x100000000000000000);
    assert(pow16(18) == 0x1000000000000000000);
    assert(pow16(19) == 0x10000000000000000000);
    assert(pow16(20) == 0x100000000000000000000);
    assert(pow16(21) == 0x1000000000000000000000);
    assert(pow16(22) == 0x10000000000000000000000);
    assert(pow16(23) == 0x100000000000000000000000);
    assert(pow16(24) == 0x1000000000000000000000000);
    assert(pow16(25) == 0x10000000000000000000000000);
    assert(pow16(26) == 0x100000000000000000000000000);
    assert(pow16(27) == 0x1000000000000000000000000000);
    assert(pow16(28) == 0x10000000000000000000000000000);
    assert(pow16(29) == 0x100000000000000000000000000000);
    assert(pow16(30) == 0x1000000000000000000000000000000);
    assert(pow16(31) == 0x10000000000000000000000000000000);
    assert(pow16(32) == 0x100000000000000000000000000000000);
}

/// Parses `s[start..end]`, exactly 32 hex digits, as a 128-bit value.
pub fn parse_hex_u128(s: &Vec<u8>, start: usize, end: usize) -> (r: Option<u128>)
    requires
        start <= end <= s@.len(),
        end - start == 32,
    ensures
        r is Some <==> all_hex(s@.subrange(start as int, end as int)),
        r matches Some(n) ==> n == hex_value(s@.subrange(start as int, end as int)),
{
    let ghost region = s@.subrange(start as int, end as int);
    let mut acc: u128 = 0;
    let mut j: usize = start;
    while j < end
        invariant
            start <= j <= end <= s@.len(),
            end - start == 32,
            region == s@.subrange(start as int, end as int),
            all_hex(s@.subrange(start as int, j as int)),
            acc == hex_value(s@.subrange(start as int, j as int)),
            acc < pow16((j - start) as nat),
        decreases end - j,
    {
        let c = s[j];
        let d: u8 = match hex_val(c) {
            Some(v) => v,
            None => {
                proof {
                    assert(region[j - start] == c);
                }
                return None;
            },
        };
        proof {
            let k = (j - start) as nat;
            lemma_pow16_mono(k, 31);
            lemma_pow16_32();
            let pre = s@.subrange(start as int, j as int);
            let cur = s@.subrange(start as int, j + 1 as int);
            assert(cur.drop_last() =~= pre);
            assert(cur.last() == c);
            assert(pow16((k + 1) as nat) == 16 * pow16(k));
        }
        acc = acc * 16 + d as u128;
        j += 1;
    }
    proof {
        assert(s@.subrange(start as int, j as int) =~= region);
    }
    Some(acc)
}

/// Hex rendering of a byte string.
pub fn hex_of_bytes(b: &Vec<u8>) -> (r: Vec<u8>)
    ensures
        r@ == bytes_hex(b@),
{
    let mut out: Vec<u8> = Vec::new();
    let mut i: usize = 0;
    while i < b.len()
        invariant
            i <= b.len(),
            out@ == bytes_hex(b@.take(i as int)),
        decreases b.len() - i,
    {
        let byte = b[i];
        out.push(hex_digit(byte / 16));
        out.push(hex_digit(byte % 16));
        proof {
            let t = b@.take(i + 1 as int);
            assert(t.drop_last() =~= b@.take(i as int));
            assert(t.last() == byte);
            lemma_hex_fixed_pair(byte as nat);
            assert(out@ =~= bytes_hex(t));
        }
        i += 1;
    }
    proof {
        assert(b@.take(b@.len() as int) =~= b@);
    }
    out
}

/// Strict hex decoding: accepts exactly the strings `hex_of_bytes` emits.
pub fn bytes_of_hex(s: &Vec<u8>) -> (r: Option<Vec<u8>>)
    ensures
        r is Some <==> hex_pairs_valid(s@),
        r matches Some(b) ==> b@ == hex_to_bytes(s@),
{
    if s.len() % 2 != 0 {
        return None;
    }
    let mut out: Vec<u8> = Vec::new();
    let mut i: usize = 0;
    while i < s.len()
        invariant
            i <= s.len(),
            i % 2 == 0,
            s.len() % 2 == 0,
            all_hex(s@.take(i as int)),
            out@ == hex_to_bytes(s@.take(i as int)),
        decreases s.len() - i,
    {
        let a = match hex_val(s[i]) {
            Some(v) => v,
            None => {
                return None;
            },
        };
        let bdig = match hex_val(s[i + 1]) {
            Some(v) => v,
            None => {
                return None;
            },
        };
        let byte: u8 = a * 16 + bdig;
        out.push(byte);
        proof {
            let t = s@.take(i + 2 as int);
            assert(t.take(t.len() - 2) =~= s@.take(i as int));
            let pair = t.skip(t.len() - 2);
            assert(pair =~= seq![s@[i as int], s@[i as int + 1]]);
            lemma_hex_value_pair(pair);
            assert(hex_value(pair) == a * 16 + bdig);
            assert(all_hex(t));
            assert(out@ =~= hex_to_bytes(t));
        }
        i += 2;
    }
    proof {
        assert(s@.take(s@.len() as int) =~= s@);
    }
    Some(out)
}

} // verus!
