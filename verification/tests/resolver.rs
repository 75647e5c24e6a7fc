use rust_social_app::auth::{AuthUser, MaybeAuthUser, DEFAULT_SESSION_SECS};
use rust_social_app::claims::SessionClaims;
use rust_social_app::codec::{sign, verify};
use rust_social_app::store::Store;
use rust_social_app::ApiError;

fn store_with(users: &[(u128, &str)]) -> Store {
    let mut s = Store::new();
    for (uid, name) in users {
        assert!(s.add_user(*uid, name.to_string(), String::new(), None));
    }
    s
}

fn bearer(token: &[u8]) -> Vec<u8> {
    let mut h = b"Bearer ".to_vec();
    h.extend_from_slice(token);
    h
}

#[test]
fn absent_header_is_anonymous() {
    let s = store_with(&[(1, "alice")]);
    let key = b"key".to_vec();
    let got = MaybeAuthUser::optional(&s, &key, 1000, &None).expect("absence is not an error");
    assert_eq!(got.user_id(), None);
}

#[test]
fn absent_header_fails_required() {
    let s = store_with(&[(1, "alice")]);
    let key = b"key".to_vec();
    assert_eq!(AuthUser::required(&s, &key, 1000, &None), Err(ApiError::Unauthorized));
}

#[test]
fn malformed_header_is_error_not_anonymous() {
    let s = store_with(&[(1, "alice")]);
    let key = b"key".to_vec();
    for bad in [
        b"Bearer not-a-token".to_vec(),
        b"Token abc".to_vec(),
        b"Bearer".to_vec(),
        Vec::new(),
        vec![0xff, 0xfe],
    ] {
        assert_eq!(
            MaybeAuthUser::optional(&s, &key, 1000, &Some(bad.clone())),
            Err(ApiError::Unauthorized)
        );
        assert_eq!(AuthUser::required(&s, &key, 1000, &Some(bad)), Err(ApiError::Unauthorized));
    }
}

#[test]
fn valid_token_authenticates() {
    let s = store_with(&[(1, "alice"), (2, "bob")]);
    let key = b"key".to_vec();
    let c = SessionClaims { user_id: 2, expires_at: 5000 };
    let header = bearer(&sign(&c, &key));
    let u = AuthUser::required(&s, &key, 4999, &Some(header.clone())).expect("valid credential");
    assert_eq!(u.user_id, 2);
    let m = MaybeAuthUser::optional(&s, &key, 4999, &Some(header)).expect("valid credential");
    assert_eq!(m.user_id(), Some(2));
}

#[test]
fn expired_token_rejected_by_resolver_only() {
    let s = store_with(&[(1, "alice")]);
    let key = b"key".to_vec();
    let c = SessionClaims { user_id: 1, expires_at: 999 };
    let token = sign(&c, &key);
    // The codec itself accepts the token: expiry is the caller's check.
    assert_eq!(verify(&token, &key), Ok(c));
    let header = bearer(&token);
    assert_eq!(
        AuthUser::required(&s, &key, 1000, &Some(header.clone())),
        Err(ApiError::Unauthorized)
    );
    // At the expiry instant itself the token is still good.
    let u = AuthUser::required(&s, &key, 999, &Some(header)).expect("not yet expired");
    assert_eq!(u.user_id, 1);
}

#[test]
fn deleted_user_rejected() {
    let s = store_with(&[(1, "alice")]);
    let key = b"key".to_vec();
    let c = SessionClaims { user_id: 9, expires_at: 5000 };
    let header = bearer(&sign(&c, &key));
    assert_eq!(AuthUser::required(&s, &key, 1000, &Some(header)), Err(ApiError::Unauthorized));
}

#[test]
fn wrong_key_header_rejected() {
    let s = store_with(&[(1, "alice")]);
    let key = b"key".to_vec();
    let other = b"other".to_vec();
    let c = SessionClaims { user_id: 1, expires_at: 5000 };
    let header = bearer(&sign(&c, &other));
    assert_eq!(AuthUser::required(&s, &key, 1000, &Some(header)), Err(ApiError::Unauthorized));
}

#[test]
fn issued_token_round_trips_through_resolver() {
    let s = store_with(&[(7, "carol")]);
    let key = b"key".to_vec();
    let now: i64 = 1_700_000_000;
    let token = AuthUser { user_id: 7 }.issue_token(&key, now);
    assert_eq!(
        verify(&token, &key),
        Ok(SessionClaims { user_id: 7, expires_at: now + DEFAULT_SESSION_SECS })
    );
    let header = bearer(&token);
    // Valid through the whole default session, rejected after it.
    let u = AuthUser::required(&s, &key, now + DEFAULT_SESSION_SECS, &Some(header.clone()))
        .expect("still valid");
    assert_eq!(u.user_id, 7);
    assert_eq!(
        AuthUser::required(&s, &key, now + DEFAULT_SESSION_SECS + 1, &Some(header)),
        Err(ApiError::Unauthorized)
    );
}
