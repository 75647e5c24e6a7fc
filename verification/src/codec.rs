//! Signing and verification of compact session tokens.
//!
//! A token is three dot-separated segments: a fixed header naming the
//! MAC algorithm, the canonical claims payload, and the lower-case hex
//! rendering of the HMAC-SHA-384 tag over the first two segments.
//! `verify` accepts a byte string if and only if it is `token_of` some
//! claims under the verifier's key: the algorithm tag, the envelope
//! structure, the payload form and the signature are all pinned.
//! Expiry is deliberately not checked here; that is the resolver's job.

use vstd::prelude::*;

use crate::claims::{
    bytes_eq, lemma_payload_dot_free, lemma_payload_injective, lemma_payload_len, parse_payload,
    payload_bytes, payload_of, SessionClaims,
};
use crate::hexfmt::{
    bytes_hex, bytes_of_hex, hex_to_bytes, is_hex_digit, lemma_bytes_hex_props,
    lemma_bytes_hex_roundtrip, lemma_hex_to_bytes_roundtrip,
};
use crate::mac::{hmac_sha384, hmac_sha384_of};

verus! {

/// Uniform rejection: the token is malformed, carries a foreign
/// algorithm tag, or its signature does not match. Which check failed is
/// deliberately not revealed.
#[derive(Clone, Copy, PartialEq, Eq, Structural, Debug)]
pub struct InvalidToken;

/// `{"alg":"HS384"}` — the fixed first segment; a token declaring any
/// other algorithm never verifies.
pub open spec fn header_of() -> Seq<u8> {
    seq![
        123u8,
        34u8,
        97u8,
        108u8,
        103u8,
        34u8,
        58u8,
        34u8,
        72u8,
        83u8,
        51u8,
        56u8,
        52u8,
        34u8,
        125u8,
    ]
}

/// The bytes the MAC is computed over: header, dot, payload.
pub open spec fn signing_input_of(c: SessionClaims) -> Seq<u8> {
    header_of() + seq![46u8] + payload_of(c)
}

/// The one token this codec issues for claims `c` under `key`.
pub open spec fn token_of(c: SessionClaims, key: Seq<u8>) -> Seq<u8> {
    signing_input_of(c) + seq![46u8] + bytes_hex(hmac_sha384_of(key, signing_input_of(c)))
}

/// The claims a byte string is accepted as under `key`: the unique `c`
/// with `t == token_of(c, key)`, if there is one.
pub open spec fn accepted_claims(t: Seq<u8>, key: Seq<u8>) -> Option<SessionClaims> {
    if exists|c: SessionClaims| t == token_of(c, key) {
        Some(choose|c: SessionClaims| t == token_of(c, key))
    } else {
        None
    }
}

/// Round trip: a token signed for claims `c` under `key` is accepted,
/// under the same key, as exactly `c`.
pub proof fn lemma_sign_verify_round_trip(c: SessionClaims, key: Seq<u8>)
    ensures
        accepted_claims(token_of(c, key), key) == Some(c),
{
    let t = token_of(c, key);
    assert(exists|c2: SessionClaims| t == token_of(c2, key));
    let c2 = choose|c2: SessionClaims| t == token_of(c2, key);
    lemma_token_determines_claims(c2, key, c, key);
}

/// Segment layout of an issued token.
pub proof fn lemma_token_shape(c: SessionClaims, key: Seq<u8>)
    ensures
        payload_of(c).len() >= 54,
        token_of(c, key).len() == 17 + payload_of(c).len() + bytes_hex(
            hmac_sha384_of(key, signing_input_of(c)),
        ).len(),
        token_of(c, key).subrange(0, 15) == header_of(),
        token_of(c, key)[15] == 46,
        token_of(c, key).subrange(16, 16 + payload_of(c).len() as int) == payload_of(c),
        token_of(c, key)[16 + payload_of(c).len() as int] == 46,
        token_of(c, key).subrange(
            17 + payload_of(c).len() as int,
            token_of(c, key).len() as int,
        ) == bytes_hex(hmac_sha384_of(key, signing_input_of(c))),
        forall|i: int|
            16 <= i < 16 + payload_of(c).len() ==> #[trigger] token_of(c, key)[i] != 46,
        forall|i: int|
            17 + payload_of(c).len() <= i < token_of(c, key).len() ==> #[trigger] token_of(
                c,
                key,
            )[i] != 46,
{
    lemma_payload_len(c);
    lemma_payload_dot_free(c);
    let p = payload_of(c);
    let th = bytes_hex(hmac_sha384_of(key, signing_input_of(c)));
    lemma_bytes_hex_props(hmac_sha384_of(key, signing_input_of(c)));
    let t = token_of(c, key);
    assert(t.subrange(0, 15) =~= header_of());
    assert(t.subrange(16, 16 + p.len() as int) =~= p);
    assert(t.subrange(17 + p.len() as int, t.len() as int) =~= th);
    assert forall|i: int| 16 <= i < 16 + p.len() implies #[trigger] t[i] != 46 by {
        assert(t[i] == p[i - 16]);
    }
    assert forall|i: int| 17 + p.len() <= i < t.len() implies #[trigger] t[i] != 46 by {
        assert(t[i] == th[i - 17 - p.len()]);
        assert(is_hex_digit(th[i - 17 - p.len()]));
    }
}

/// A token determines its claims, whatever keys are involved: two issued
/// tokens with equal bytes embed equal claims.
pub proof fn lemma_token_determines_claims(
    c1: SessionClaims,
    k1: Seq<u8>,
    c2: SessionClaims,
    k2: Seq<u8>,
)
    requires
        token_of(c1, k1) == token_of(c2, k2),
    ensures
        c1 == c2,
{
    lemma_token_shape(c1, k1);
    lemma_token_shape(c2, k2);
    let t = token_of(c1, k1);
    let p1 = payload_of(c1);
    let p2 = payload_of(c2);
    if p1.len() < p2.len() {
        assert(t[16 + p1.len() as int] == 46);
        assert(16 <= 16 + p1.len() < 16 + p2.len());
        assert(token_of(c2, k2)[16 + p1.len() as int] != 46);
    } else if p2.len() < p1.len() {
        assert(t[16 + p2.len() as int] == 46);
        assert(token_of(c1, k1)[16 + p2.len() as int] != 46);
    }
    assert(p1.len() == p2.len());
    assert(t.subrange(16, 16 + p1.len() as int) == p1);
    assert(t.subrange(16, 16 + p2.len() as int) == p2);
    lemma_payload_injective(c1, c2);
}

/// Key separation, short of a MAC collision: if the two keys give
/// different tags for `c`'s signing input, the token issued under the
/// first key differs from every token issued under the second, so a
/// verifier configured with the second key rejects it.
pub proof fn lemma_rejects_other_key(c: SessionClaims, k1: Seq<u8>, k2: Seq<u8>)
    requires
        hmac_sha384_of(k1, signing_input_of(c)) != hmac_sha384_of(k2, signing_input_of(c)),
    ensures
        forall|c2: SessionClaims| token_of(c, k1) != token_of(c2, k2),
        accepted_claims(token_of(c, k1), k2) is None,
{
    assert forall|c2: SessionClaims| token_of(c, k1) != token_of(c2, k2) by {
        if token_of(c, k1) == token_of(c2, k2) {
            lemma_token_determines_claims(c, k1, c2, k2);
            lemma_token_shape(c, k1);
            lemma_token_shape(c2, k2);
            let t = token_of(c, k1);
            let plen = payload_of(c).len() as int;
            let m1 = hmac_sha384_of(k1, signing_input_of(c));
            let m2 = hmac_sha384_of(k2, signing_input_of(c2));
            assert(t.subrange(17 + plen, t.len() as int) == bytes_hex(m1));
            assert(t.subrange(17 + plen, t.len() as int) == bytes_hex(m2));
            lemma_bytes_hex_roundtrip(m1);
            lemma_bytes_hex_roundtrip(m2);
            assert(m1 == hex_to_bytes(bytes_hex(m1)));
            assert(false);
        }
    }
}

/// Algorithm confusion resistance: every issued token begins with the
/// fixed HS384 header segment, so a token whose first segment was
/// altered — for instance to claim a different algorithm — matches no
/// issued token and is rejected by `verify` under every key.
pub proof fn lemma_rejects_foreign_header(t: Seq<u8>, key: Seq<u8>)
    requires
        t.len() < 16 || t.subrange(0, 15) != header_of() || t[15] != 46,
    ensures
        forall|c: SessionClaims| t != token_of(c, key),
        accepted_claims(t, key) is None,
{
    assert forall|c: SessionClaims| t != token_of(c, key) by {
        if t == token_of(c, key) {
            lemma_token_shape(c, key);
        }
    }
}

/// The fixed header segment bytes.
fn header_bytes() -> (r: Vec<u8>)
    ensures
        r@ == header_of(),
{
    let mut out: Vec<u8> = Vec::new();
    out.push(123);
    out.push(34);
    out.push(97);
    out.push(108);
    out.push(103);
    out.push(34);
    out.push(58);
    out.push(34);
    out.push(72);
    out.push(83);
    out.push(51);
    out.push(56);
    out.push(52);
    out.push(34);
    out.push(125);
    proof {
        assert(out@ =~= header_of());
    }
    out
}

/// `v[start..end]` as a fresh byte string.
pub(crate) fn copy_range(v: &Vec<u8>, start: usize, end: usize) -> (r: Vec<u8>)
    requires
        start <= end <= v@.len(),
    ensures
        r@ == v@.subrange(start as int, end as int),
{
    let mut out: Vec<u8> = Vec::new();
    let mut i: usize = start;
    while i < end
        invariant
            start <= i <= end <= v@.len(),
            out@ == v@.subrange(start as int, i as int),
        decreases end - i,
    {
        out.push(v[i]);
        proof {
            assert(out@ =~= v@.subrange(start as int, i + 1 as int));
        }
        i += 1;
    }
    out
}

/// Signs `c` under `key`: emits the canonical envelope whose signature
/// is the keyed MAC of its first two segments.
pub fn sign(c: &SessionClaims, key: &Vec<u8>) -> (r: Vec<u8>)
    ensures
        r@ == token_of(*c, key@),
{
    let mut si = header_bytes();
    si.push(46);
    let mut p = payload_bytes(c);
    si.append(&mut p);
    proof {
        assert(si@ =~= signing_input_of(*c));
    }
    let tag = hmac_sha384(key, &si);
    let mut taghex = crate::hexfmt::hex_of_bytes(&tag);
    let mut out = si;
    out.push(46);
    out.append(&mut taghex);
    proof {
        assert(out@ =~= token_of(*c, key@));
    }
    out
}

/// Verifies a presented token under `key`.
///
/// Returns the embedded claims exactly when the bytes are `token_of`
/// those claims under `key`; every other byte string is rejected, and
/// all failures look alike. Expiry is not examined here.
pub fn verify(token: &Vec<u8>, key: &Vec<u8>) -> (r: Result<SessionClaims, InvalidToken>)
    ensures
        r matches Ok(c) ==> token@ == token_of(c, key@),
        forall|c: SessionClaims|
            token@ == token_of(c, key@) ==> r == Ok::<SessionClaims, InvalidToken>(c),
        r == match accepted_claims(token@, key@) {
            Some(c) => Ok::<SessionClaims, InvalidToken>(c),
            None => Err::<SessionClaims, InvalidToken>(InvalidToken),
        },
{
    proof {
        assert forall|c: SessionClaims| token@ == token_of(c, key@) implies token@.len() >= 71
            && token@.subrange(0, 15) == header_of() && token@[15] == 46 by {
            lemma_token_shape(c, key@);
        }
    }
    if token.len() < 16 {
        return Err(InvalidToken);
    }
    let hdr = header_bytes();
    let mut i: usize = 0;
    while i < 15
        invariant
            0 <= i <= 15,
            token@.len() >= 16,
            hdr@ == header_of(),
            forall|k: int| 0 <= k < i ==> token@[k] == header_of()[k],
        decreases 15 - i,
    {
        if token[i] != hdr[i] {
            proof {
                assert forall|c: SessionClaims| token@ != token_of(c, key@) by {
                    if token@ == token_of(c, key@) {
                        assert(token@.subrange(0, 15)[i as int] == header_of()[i as int]);
                    }
                }
            }
            return Err(InvalidToken);
        }
        i += 1;
    }
    if token[15] != 46 {
        return Err(InvalidToken);
    }
    // Find the separator between payload and signature segments; the
    // payload itself never contains one.
    let mut d: usize = 16;
    while d < token.len() && token[d] != 46
        invariant
            16 <= d <= token@.len(),
            forall|k: int| 16 <= k < d ==> token@[k] != 46,
        decreases token@.len() - d,
    {
        d += 1;
    }
    proof {
        assert forall|c: SessionClaims| token@ == token_of(c, key@) implies d
            == 16 + payload_of(c).len() && d < token@.len() by {
            lemma_token_shape(c, key@);
            let p2 = 16 + payload_of(c).len() as int;
            assert(token@[p2] == 46);
            assert(p2 < token@.len());
            if d < p2 {
                assert(token@[d as int] != 46);
                assert(d < token@.len());
                assert(false);
            }
            if d > p2 {
                assert(token@[p2] != 46);
                assert(false);
            }
        }
    }
    if d >= token.len() {
        return Err(InvalidToken);
    }
    let payload = copy_range(token, 16, d);
    let c0 = match parse_payload(&payload) {
        Some(c) => c,
        None => {
            proof {
                assert forall|c: SessionClaims| token@ != token_of(c, key@) by {
                    if token@ == token_of(c, key@) {
                        lemma_token_shape(c, key@);
                        assert(payload@ == payload_of(c));
                    }
                }
            }
            return Err(InvalidToken);
        },
    };
    let taghex = copy_range(token, d + 1, token.len());
    let tagbytes = match bytes_of_hex(&taghex) {
        Some(b) => b,
        None => {
            proof {
                assert forall|c: SessionClaims| token@ != token_of(c, key@) by {
                    if token@ == token_of(c, key@) {
                        lemma_token_shape(c, key@);
                        let m = hmac_sha384_of(key@, signing_input_of(c));
                        assert(taghex@ == bytes_hex(m));
                        lemma_bytes_hex_props(m);
                    }
                }
            }
            return Err(InvalidToken);
        },
    };
    let si = copy_range(token, 0, d);
    let mac = hmac_sha384(key, &si);
    proof {
        // The recomputed signing input is header + dot + accepted payload.
        assert(si@.subrange(0, 15) =~= token@.subrange(0, 15));
        assert(si@ =~= header_of() + seq![46u8] + payload@);
        assert(si@ == signing_input_of(c0)) by {
            assert(payload@ == payload_of(c0));
        }
    }
    if bytes_eq(&mac, &tagbytes) {
        proof {
            // The token re-assembles, segment by segment, into the
            // canonical envelope for the accepted claims.
            lemma_hex_to_bytes_roundtrip(taghex@);
            assert(taghex@ == bytes_hex(mac@));
            assert(token@ =~= si@ + seq![46u8] + taghex@);
            assert(token@ == token_of(c0, key@));
            assert forall|c: SessionClaims| token@ == token_of(c, key@) implies c == c0 by {
                lemma_token_determines_claims(c0, key@, c, key@);
            }
        }
        Ok(c0)
    } else {
        proof {
            assert forall|c: SessionClaims| token@ != token_of(c, key@) by {
                if token@ == token_of(c, key@) {
                    lemma_token_shape(c, key@);
                    assert(payload@ == payload_of(c));
                    assert(c == c0);
                    let m = hmac_sha384_of(key@, signing_input_of(c));
                    assert(taghex@ == bytes_hex(m));
                    lemma_bytes_hex_roundtrip(m);
                    assert(tagbytes@ == m);
                    assert(mac@ == m);
                }
            }
        }
        Err(InvalidToken)
    }
}

} // verus!
