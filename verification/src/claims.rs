//! Session claims and their canonical payload encoding.
//!
//! A token's signed payload is the JSON object
//! `{"user_id":"<32 hex digits>","exp":<unix seconds>}` in exactly one
//! byte form: lower-case hex for the user id, canonical decimal for the
//! expiry. The parser accepts that form and nothing else, which makes
//! the encoding injective.

use vstd::prelude::*;

use crate::decfmt::{dec_i64, dec_int, dec_nat, is_dec_digit, lemma_dec_nat_props, parse_dec_u64};
use crate::hexfmt::{
    hex_fixed, hex_u128, hex_value, is_hex_digit, lemma_hex_fixed_props, lemma_pow16_32,
    parse_hex_u128,
};

verus! {

/// The signed, immutable payload of a session token: who the session is
/// for and when it stops being valid. Expiry is checked by the caller
/// against wall-clock time, not by the codec.
#[derive(Clone, Copy, PartialEq, Eq, Structural, Debug)]
pub struct SessionClaims {
    /// The user the token authenticates, as a 128-bit id.
    pub user_id: u128,
    /// Expiry instant in unix seconds; the token is invalid strictly after it.
    pub expires_at: i64,
}

/// `{"user_id":"` — the bytes before the user id.
pub open spec fn payload_prefix() -> Seq<u8> {
    seq![123u8, 34u8, 117u8, 115u8, 101u8, 114u8, 95u8, 105u8, 100u8, 34u8, 58u8, 34u8]
}

/// `","exp":` — the bytes between the user id and the expiry.
pub open spec fn payload_mid() -> Seq<u8> {
    seq![34u8, 44u8, 34u8, 101u8, 120u8, 112u8, 34u8, 58u8]
}

/// The user id as 32 lower-case hex digits.
pub open spec fn uuid_hex_of(id: u128) -> Seq<u8> {
    hex_fixed(id as nat, 32)
}

/// The canonical payload bytes of `c`.
pub open spec fn payload_of(c: SessionClaims) -> Seq<u8> {
    payload_prefix() + uuid_hex_of(c.user_id) + payload_mid() + dec_int(c.expires_at as int)
        + seq![125u8]
}

/// No byte of `s` is an ASCII dot, the envelope's segment separator.
pub open spec fn dot_free(s: Seq<u8>) -> bool {
    forall|i: int| 0 <= i < s.len() ==> s[i] != 46
}

pub proof fn lemma_payload_len(c: SessionClaims)
    ensures
        payload_of(c).len() >= 54,
        payload_of(c).len() == 53 + dec_int(c.expires_at as int).len(),
{
    lemma_pow16_32();
    lemma_hex_fixed_props(c.user_id as nat, 32);
    if c.expires_at < 0 {
        lemma_dec_nat_props((-(c.expires_at as int)) as nat);
    } else {
        lemma_dec_nat_props(c.expires_at as nat);
    }
}

/// A canonical payload never contains the envelope separator.
pub proof fn lemma_payload_dot_free(c: SessionClaims)
    ensures
        dot_free(payload_of(c)),
{
    lemma_pow16_32();
    lemma_hex_fixed_props(c.user_id as nat, 32);
    let e = dec_int(c.expires_at as int);
    if c.expires_at < 0 {
        lemma_dec_nat_props((-(c.expires_at as int)) as nat);
    } else {
        lemma_dec_nat_props(c.expires_at as nat);
    }
    assert forall|i: int| 0 <= i < e.len() implies e[i] != 46 by {
        if c.expires_at < 0 {
            if i > 0 {
                assert(e[i] == dec_nat((-(c.expires_at as int)) as nat)[i - 1]);
            }
        }
    }
    let p = payload_of(c);
    let u = uuid_hex_of(c.user_id);
    assert forall|i: int| 0 <= i < p.len() implies p[i] != 46 by {
        if i < 12 {
            assert(p[i] == payload_prefix()[i]);
        } else if i < 44 {
            assert(p[i] == u[i - 12]);
            assert(is_hex_digit(u[i - 12]));
        } else if i < 52 {
            assert(p[i] == payload_mid()[i - 44]);
        } else if i < 52 + e.len() {
            assert(p[i] == e[i - 52]);
        } else {
            assert(p[i] == 125);
        }
    }
}

/// The canonical payload determines the claims: encoding is injective.
pub proof fn lemma_payload_injective(c1: SessionClaims, c2: SessionClaims)
    requires
        payload_of(c1) == payload_of(c2),
    ensures
        c1 == c2,
{
    lemma_payload_len(c1);
    lemma_payload_len(c2);
    lemma_pow16_32();
    lemma_hex_fixed_props(c1.user_id as nat, 32);
    lemma_hex_fixed_props(c2.user_id as nat, 32);
    let p = payload_of(c1);
    assert(p.subrange(12, 44) =~= uuid_hex_of(c1.user_id));
    assert(p.subrange(12, 44) =~= uuid_hex_of(c2.user_id));
    assert(hex_value(uuid_hex_of(c1.user_id)) == hex_value(uuid_hex_of(c2.user_id)));
    assert(c1.user_id == c2.user_id);
    assert(p.subrange(52, p.len() - 1) =~= dec_int(c1.expires_at as int));
    assert(p.subrange(52, p.len() - 1) =~= dec_int(c2.expires_at as int));
    crate::decfmt::lemma_dec_int_injective(c1.expires_at as int, c2.expires_at as int);
}

/// The canonical payload bytes of `c`.
pub fn payload_bytes(c: &SessionClaims) -> (r: Vec<u8>)
    ensures
        r@ == payload_of(*c),
{
    let mut out: Vec<u8> = Vec::new();
    out.push(123);
    out.push(34);
    out.push(117);
    out.push(115);
    out.push(101);
    out.push(114);
    out.push(95);
    out.push(105);
    out.push(100);
    out.push(34);
    out.push(58);
    out.push(34);
    proof {
        assert(out@ =~= payload_prefix());
    }
    let mut uu = hex_u128(c.user_id, 32);
    out.append(&mut uu);
    out.push(34);
    out.push(44);
    out.push(34);
    out.push(101);
    out.push(120);
    out.push(112);
    out.push(34);
    out.push(58);
    proof {
        assert(out@ =~= payload_prefix() + uuid_hex_of(c.user_id) + payload_mid());
    }
    let mut ex = dec_i64(c.expires_at);
    out.append(&mut ex);
    out.push(125);
    proof {
        assert(out@ =~= payload_of(*c));
    }
    out
}

/// Byte-wise equality of two byte strings.
pub fn bytes_eq(a: &Vec<u8>, b: &Vec<u8>) -> (r: bool)
    ensures
        r == (a@ == b@),
{
    if a.len() != b.len() {
        return false;
    }
    let mut i: usize = 0;
    while i < a.len()
        invariant
            i <= a.len(),
            a@.len() == b@.len(),
            forall|k: int| 0 <= k < i ==> a@[k] == b@[k],
        decreases a.len() - i,
    {
        if a[i] != b[i] {
            return false;
        }
        i += 1;
    }
    proof {
        assert(a@ =~= b@);
    }
    true
}

/// Parses `s[start..end]` as a canonically rendered signed expiry.
///
/// Only completeness is promised: every canonical rendering parses back
/// to its value. The caller re-renders and compares, which rejects any
/// non-canonical input.
fn parse_exp(s: &Vec<u8>, start: usize, end: usize) -> (r: Option<i64>)
    requires
        start <= end <= s@.len(),
    ensures
        forall|v: i64| s@.subrange(start as int, end as int) == dec_int(v as int) ==> r == Some(v),
{
    let ghost region = s@.subrange(start as int, end as int);
    if start == end {
        proof {
            assert forall|v: i64| region == dec_int(v as int) implies false by {
                if v < 0 {
                    lemma_dec_nat_props((-(v as int)) as nat);
                } else {
                    lemma_dec_nat_props(v as nat);
                }
            }
        }
        return None;
    }
    if s[start] == 45 {
        let r = parse_dec_u64(s, start + 1, end);
        proof {
            assert forall|v: i64| region == dec_int(v as int) implies v < 0 && s@.subrange(
                start + 1 as int,
                end as int,
            ) == dec_nat((-(v as int)) as nat) by {
                if v >= 0 {
                    lemma_dec_nat_props(v as nat);
                    assert(region[0] == s@[start as int]);
                    assert(is_dec_digit(region[0]));
                    assert(false);
                } else {
                    assert(s@.subrange(start + 1 as int, end as int) =~= region.skip(1));
                    assert(region.skip(1) =~= dec_nat((-(v as int)) as nat));
                }
            }
        }
        match r {
            Some(mag) => {
                if mag > 0x8000_0000_0000_0000u64 {
                    proof {
                        assert forall|v: i64| region == dec_int(v as int) implies false by {
                            lemma_dec_nat_props((-(v as int)) as nat);
                        }
                    }
                    None
                } else if mag == 0x8000_0000_0000_0000u64 {
                    proof {
                        assert forall|v: i64| region == dec_int(v as int) implies v
                            == i64::MIN by {
                            lemma_dec_nat_props((-(v as int)) as nat);
                        }
                    }
                    Some(i64::MIN)
                } else {
                    proof {
                        assert forall|v: i64| region == dec_int(v as int) implies v == -(mag
                            as i64) by {
                            lemma_dec_nat_props((-(v as int)) as nat);
                        }
                    }
                    Some(-(mag as i64))
                }
            },
            None => {
                proof {
                    assert forall|v: i64| region == dec_int(v as int) implies false by {
                        lemma_dec_nat_props((-(v as int)) as nat);
                    }
                }
                None
            },
        }
    } else {
        let r = parse_dec_u64(s, start, end);
        proof {
            assert forall|v: i64| region == dec_int(v as int) implies v >= 0 && region == dec_nat(
                v as nat,
            ) by {
                if v < 0 {
                    assert(region[0] == 45);
                    assert(s@[start as int] == region[0]);
                }
            }
            assert(s@.subrange(start as int, end as int) == region);
        }
        match r {
            Some(n) => {
                if n <= i64::MAX as u64 {
                    proof {
                        assert forall|v: i64| region == dec_int(v as int) implies v == n as i64 by {
                            lemma_dec_nat_props(v as nat);
                        }
                    }
                    Some(n as i64)
                } else {
                    proof {
                        assert forall|v: i64| region == dec_int(v as int) implies false by {
                            lemma_dec_nat_props(v as nat);
                        }
                    }
                    None
                }
            },
            None => {
                proof {
                    assert forall|v: i64| region == dec_int(v as int) implies false by {
                        lemma_dec_nat_props(v as nat);
                    }
                }
                None
            },
        }
    }
}

/// Parses a canonical payload.
///
/// Accepts exactly the byte strings `payload_bytes` emits: the candidate
/// fields are extracted, re-rendered, and compared against the input.
pub fn parse_payload(s: &Vec<u8>) -> (r: Option<SessionClaims>)
    ensures
        r matches Some(c) ==> s@ == payload_of(c),
        forall|c: SessionClaims| s@ == payload_of(c) ==> r == Some(c),
{
    proof {
        assert forall|c: SessionClaims| s@ == payload_of(c) implies payload_of(c).len() >= 54 by {
            lemma_payload_len(c);
        }
    }
    if s.len() < 54 {
        return None;
    }
    let uid = match parse_hex_u128(s, 12, 44) {
        Some(v) => v,
        None => {
            proof {
                assert forall|c: SessionClaims| s@ == payload_of(c) implies false by {
                    lemma_pow16_32();
                    lemma_hex_fixed_props(c.user_id as nat, 32);
                    assert(s@.subrange(12, 44) =~= uuid_hex_of(c.user_id));
                }
            }
            return None;
        },
    };
    let exp = match parse_exp(s, 52, s.len() - 1) {
        Some(v) => v,
        None => {
            proof {
                assert forall|c: SessionClaims| s@ == payload_of(c) implies false by {
                    lemma_payload_len(c);
                    assert(s@.subrange(52, s@.len() - 1) =~= dec_int(c.expires_at as int));
                }
            }
            return None;
        },
    };
    let cand = SessionClaims { user_id: uid, expires_at: exp };
    let ser = payload_bytes(&cand);
    proof {
        assert forall|c: SessionClaims| s@ == payload_of(c) implies cand == c by {
            lemma_payload_len(c);
            lemma_pow16_32();
            lemma_hex_fixed_props(c.user_id as nat, 32);
            assert(s@.subrange(12, 44) =~= uuid_hex_of(c.user_id));
            assert(uid == c.user_id);
            assert(s@.subrange(52, s@.len() - 1) =~= dec_int(c.expires_at as int));
        }
    }
    if bytes_eq(&ser, s) {
        Some(cand)
    } else {
        None
    }
}

} // verus!
