use rust_social_app::claims::SessionClaims;
use rust_social_app::codec::{sign, verify};
use rust_social_app::decfmt::{dec_i64, parse_dec_u64};
use rust_social_app::hexfmt::{bytes_of_hex, hex_of_bytes, hex_u128};

fn split_dots(token: &[u8]) -> Vec<Vec<u8>> {
    let mut parts: Vec<Vec<u8>> = vec![Vec::new()];
    for &b in token {
        if b == b'.' {
            parts.push(Vec::new());
        } else {
            parts.last_mut().unwrap().push(b);
        }
    }
    parts
}

#[test]
fn round_trip_same_key() {
    let key = b"a process-wide signing key".to_vec();
    let c = SessionClaims { user_id: 0x1234_5678_9abc_def0_1122_3344_5566_7788, expires_at: 1_700_000_000 };
    let token = sign(&c, &key);
    let got = verify(&token, &key).expect("a freshly signed token must verify");
    assert_eq!(got, c);
}

#[test]
fn round_trip_negative_expiry() {
    let key = vec![0u8; 4];
    let c = SessionClaims { user_id: 7, expires_at: -12345 };
    assert_eq!(verify(&sign(&c, &key), &key), Ok(c));
}

#[test]
fn round_trip_extreme_claims() {
    let key = b"k".to_vec();
    for c in [
        SessionClaims { user_id: 0, expires_at: 0 },
        SessionClaims { user_id: u128::MAX, expires_at: i64::MAX },
        SessionClaims { user_id: 1, expires_at: i64::MIN },
    ] {
        assert_eq!(verify(&sign(&c, &key), &key), Ok(c));
    }
}

#[test]
fn wrong_key_fails() {
    let key = b"key one".to_vec();
    let other = b"key two".to_vec();
    let c = SessionClaims { user_id: 42, expires_at: 1_700_000_000 };
    let token = sign(&c, &key);
    assert!(verify(&token, &other).is_err());
}

#[test]
fn altered_algorithm_tag_fails() {
    let key = b"key".to_vec();
    let c = SessionClaims { user_id: 42, expires_at: 1_700_000_000 };
    let mut token = sign(&c, &key);
    // The header segment starts `{"alg":"HS384"}`; rewrite the algorithm
    // name in place (HS384 -> HS256) and keep everything else intact.
    assert_eq!(&token[..15], b"{\"alg\":\"HS384\"}");
    token[11] = b'2';
    token[13] = b'6';
    assert!(verify(&token, &key).is_err());
}

#[test]
fn tampered_signature_fails() {
    let key = b"key".to_vec();
    let c = SessionClaims { user_id: 42, expires_at: 1_700_000_000 };
    let mut token = sign(&c, &key);
    let last = token.len() - 1;
    token[last] = if token[last] == b'0' { b'1' } else { b'0' };
    assert!(verify(&token, &key).is_err());
}

#[test]
fn tampered_payload_fails() {
    let key = b"key".to_vec();
    let c = SessionClaims { user_id: 42, expires_at: 1_700_000_000 };
    let mut token = sign(&c, &key);
    // Flip one digit of the embedded user id.
    token[47] = if token[47] == b'a' { b'b' } else { b'a' };
    assert!(verify(&token, &key).is_err());
}

#[test]
fn garbage_tokens_fail() {
    let key = b"key".to_vec();
    assert!(verify(&Vec::new(), &key).is_err());
    assert!(verify(&b"not a token".to_vec(), &key).is_err());
    assert!(verify(&b"{\"alg\":\"HS384\"}..".to_vec(), &key).is_err());
}

#[test]
fn token_envelope_shape() {
    let key = b"key".to_vec();
    let c = SessionClaims { user_id: 1, expires_at: 42 };
    let token = sign(&c, &key);
    let parts = split_dots(&token);
    assert_eq!(parts.len(), 3);
    assert_eq!(parts[0], b"{\"alg\":\"HS384\"}".to_vec());
    assert_eq!(
        parts[1],
        b"{\"user_id\":\"00000000000000000000000000000001\",\"exp\":42}".to_vec()
    );
    assert_eq!(parts[2].len(), 96);
    assert!(parts[2].iter().all(|b| b.is_ascii_hexdigit() && !b.is_ascii_uppercase()));
}

#[test]
fn signing_is_deterministic() {
    let key = b"key".to_vec();
    let c = SessionClaims { user_id: 9, expires_at: 100 };
    assert_eq!(sign(&c, &key), sign(&c, &key));
    let other = b"other key".to_vec();
    assert_ne!(sign(&c, &key), sign(&c, &other));
}

#[test]
fn hex_encoding_exact() {
    assert_eq!(hex_of_bytes(&vec![0xab, 0x01, 0xff]), b"ab01ff".to_vec());
    assert_eq!(hex_of_bytes(&Vec::new()), Vec::<u8>::new());
    assert_eq!(hex_u128(0xdead_beef, 32), b"000000000000000000000000deadbeef".to_vec());
}

#[test]
fn hex_decoding_strict() {
    assert_eq!(bytes_of_hex(&b"ab01ff".to_vec()), Some(vec![0xab, 0x01, 0xff]));
    assert_eq!(bytes_of_hex(&b"AB01FF".to_vec()), None);
    assert_eq!(bytes_of_hex(&b"abc".to_vec()), None);
    assert_eq!(bytes_of_hex(&b"zz".to_vec()), None);
}

#[test]
fn decimal_formatting_exact() {
    assert_eq!(dec_i64(0), b"0".to_vec());
    assert_eq!(dec_i64(-5), b"-5".to_vec());
    assert_eq!(dec_i64(i64::MAX), b"9223372036854775807".to_vec());
    assert_eq!(dec_i64(i64::MIN), b"-9223372036854775808".to_vec());
}

#[test]
fn decimal_parsing_bounds() {
    let digits = b"18446744073709551615".to_vec();
    assert_eq!(parse_dec_u64(&digits, 0, digits.len()), Some(u64::MAX));
    let over = b"18446744073709551616".to_vec();
    assert_eq!(parse_dec_u64(&over, 0, over.len()), None);
    let junk = b"12x4".to_vec();
    assert_eq!(parse_dec_u64(&junk, 0, junk.len()), None);
    assert_eq!(parse_dec_u64(&junk, 0, 0), None);
}
