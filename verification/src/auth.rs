//! Resolving a request's credential header to an authenticated user.
//!
//! Two entry points share one validation pipeline: `required` fails when
//! the header is absent, `optional` treats absence as anonymous — but a
//! header that is present and invalid is always an error, never silently
//! anonymous. The pipeline checks, in order: the `Bearer ` scheme
//! prefix, the token signature, expiry against the caller-supplied
//! clock, and that the token's user still exists. Every failure is the
//! same opaque `Unauthorized`.
//!
//! Tokens are stateless: short of expiry, the user-existence check is
//! the only revocation mechanism this design has. A server-side session
//! table would trade that statelessness for revocability.

use vstd::prelude::*;

use crate::claims::SessionClaims;
use crate::codec::{lemma_token_determines_claims, sign, token_of, verify};
use crate::store::Store;
use crate::ApiError;

verus! {

/// Default claim lifetime in seconds: fourteen days from issuance.
pub const DEFAULT_SESSION_SECS: i64 = 1209600;

/// An authenticated principal, derived per request from a verified
/// token; never persisted.
#[derive(Clone, Copy, PartialEq, Eq, Structural, Debug)]
pub struct AuthUser {
    pub user_id: u128,
}

/// The result of optional authentication: anonymous when no credential
/// was supplied. Deliberately not `Option<AuthUser>` at the validation
/// boundary: a present-but-invalid credential must surface as an error,
/// not collapse into `None`.
#[derive(Clone, Copy, PartialEq, Eq, Structural, Debug)]
pub struct MaybeAuthUser(pub Option<AuthUser>);

/// `Bearer ` — the required scheme prefix of the credential header.
pub open spec fn scheme_prefix() -> Seq<u8> {
    seq![66u8, 101u8, 97u8, 114u8, 101u8, 114u8, 32u8]
}

/// The header value `h` authenticates `uid`: it carries the scheme
/// prefix, then a token issued under `key` for claims naming `uid`, not
/// yet expired at `now`, and `uid` still exists in the user store.
pub open spec fn authenticates(s: Store, key: Seq<u8>, now: i64, h: Seq<u8>, uid: u128) -> bool {
    exists|c: SessionClaims|
        {
            &&& h.len() >= 7
            &&& h.subrange(0, 7) == scheme_prefix()
            &&& h.skip(7) == #[trigger] token_of(c, key)
            &&& c.user_id == uid
            &&& c.expires_at >= now
            &&& s.contains_user_id(uid)
        }
}

/// Expiry is enforced by the resolver even though the codec accepts the
/// token: a genuinely signed credential whose claims expired before
/// `now` authenticates nobody.
pub proof fn lemma_expired_token_rejected(
    s: Store,
    key: Seq<u8>,
    now: i64,
    h: Seq<u8>,
    c: SessionClaims,
)
    requires
        h.len() >= 7,
        h.skip(7) == token_of(c, key),
        c.expires_at < now,
    ensures
        forall|uid: u128| !authenticates(s, key, now, h, uid),
{
    assert forall|uid: u128| !authenticates(s, key, now, h, uid) by {
        if authenticates(s, key, now, h, uid) {
            let c2 = choose|c2: SessionClaims|
                {
                    &&& h.len() >= 7
                    &&& h.subrange(0, 7) == scheme_prefix()
                    &&& h.skip(7) == #[trigger] token_of(c2, key)
                    &&& c2.user_id == uid
                    &&& c2.expires_at >= now
                    &&& s.contains_user_id(uid)
                };
            lemma_token_determines_claims(c, key, c2, key);
        }
    }
}

/// The scheme prefix bytes.
fn scheme_bytes() -> (r: Vec<u8>)
    ensures
        r@ == scheme_prefix(),
{
    let mut out: Vec<u8> = Vec::new();
    out.push(66);
    out.push(101);
    out.push(97);
    out.push(114);
    out.push(101);
    out.push(114);
    out.push(32);
    proof {
        assert(out@ =~= scheme_prefix());
    }
    out
}

impl AuthUser {
    /// A fresh token for this user: claims that expire the default
    /// session length after `now`, signed under `key`.
    pub fn issue_token(&self, key: &Vec<u8>, now: i64) -> (r: Vec<u8>)
        requires
            now + DEFAULT_SESSION_SECS <= i64::MAX,
        ensures
            r@ == token_of(
                SessionClaims {
                    user_id: self.user_id,
                    expires_at: (now + DEFAULT_SESSION_SECS) as i64,
                },
                key@,
            ),
    {
        let c = SessionClaims { user_id: self.user_id, expires_at: now + DEFAULT_SESSION_SECS };
        sign(&c, key)
    }

    /// Validates a present credential header value.
    ///
    /// Succeeds exactly when the header authenticates some user: scheme
    /// prefix, signature, expiry against `now`, and existence in `s` all
    /// hold. Every failure is the same opaque `Unauthorized`.
    pub fn from_authorization(s: &Store, key: &Vec<u8>, now: i64, header: &Vec<u8>) -> (r: Result<
        AuthUser,
        ApiError,
    >)
        ensures
            r matches Ok(u) ==> authenticates(*s, key@, now, header@, u.user_id),
            forall|uid: u128|
                authenticates(*s, key@, now, header@, uid) ==> r == Ok::<AuthUser, ApiError>(
                    AuthUser { user_id: uid },
                ),
            r matches Err(e) ==> e == ApiError::Unauthorized,
    {
        if header.len() < 7 {
            return Err(ApiError::Unauthorized);
        }
        let scheme = scheme_bytes();
        let mut i: usize = 0;
        while i < 7
            invariant
                0 <= i <= 7,
                header@.len() >= 7,
                scheme@ == scheme_prefix(),
                forall|k: int| 0 <= k < i ==> header@[k] == scheme_prefix()[k],
            decreases 7 - i,
        {
            if header[i] != scheme[i] {
                proof {
                    assert forall|uid: u128| !authenticates(*s, key@, now, header@, uid) by {
                        if authenticates(*s, key@, now, header@, uid) {
                            assert(header@.subrange(0, 7)[i as int] == scheme_prefix()[i as int]);
                        }
                    }
                }
                return Err(ApiError::Unauthorized);
            }
            i += 1;
        }
        proof {
            assert(header@.subrange(0, 7) =~= scheme_prefix());
        }
        let token = crate::codec::copy_range(header, 7, header.len());
        proof {
            assert(token@ =~= header@.skip(7));
        }
        let c = match verify(&token, key) {
            Ok(c) => c,
            Err(_) => {
                proof {
                    assert forall|uid: u128| !authenticates(*s, key@, now, header@, uid) by {
                        if authenticates(*s, key@, now, header@, uid) {
                            let c2 = choose|c2: SessionClaims|
                                {
                                    &&& header@.len() >= 7
                                    &&& header@.subrange(0, 7) == scheme_prefix()
                                    &&& header@.skip(7) == #[trigger] token_of(c2, key@)
                                    &&& c2.user_id == uid
                                    &&& c2.expires_at >= now
                                    &&& s.contains_user_id(uid)
                                };
                            assert(token@ == token_of(c2, key@));
                        }
                    }
                }
                return Err(ApiError::Unauthorized);
            },
        };
        proof {
            assert forall|uid: u128| authenticates(*s, key@, now, header@, uid) implies uid
                == c.user_id && c.expires_at >= now && s.contains_user_id(uid) by {
                let c2 = choose|c2: SessionClaims|
                    {
                        &&& header@.len() >= 7
                        &&& header@.subrange(0, 7) == scheme_prefix()
                        &&& header@.skip(7) == #[trigger] token_of(c2, key@)
                        &&& c2.user_id == uid
                        &&& c2.expires_at >= now
                        &&& s.contains_user_id(uid)
                    };
                assert(token@ == token_of(c2, key@));
                lemma_token_determines_claims(c2, key@, c, key@);
            }
        }
        if c.expires_at < now {
            return Err(ApiError::Unauthorized);
        }
        if !s.contains_user(c.user_id) {
            return Err(ApiError::Unauthorized);
        }
        proof {
            assert(authenticates(*s, key@, now, header@, c.user_id)) by {
                assert(header@.skip(7) == token_of(c, key@));
            }
        }
        Ok(AuthUser { user_id: c.user_id })
    }

    /// Authentication for endpoints that require a signed-in user: an
    /// absent header is immediately `Unauthorized`.
    pub fn required(s: &Store, key: &Vec<u8>, now: i64, header: &Option<Vec<u8>>) -> (r: Result<
        AuthUser,
        ApiError,
    >)
        ensures
            header is None ==> r == Err::<AuthUser, ApiError>(ApiError::Unauthorized),
            r matches Ok(u) ==> header matches Some(h) && authenticates(
                *s,
                key@,
                now,
                h@,
                u.user_id,
            ),
            forall|uid: u128|
                (header matches Some(h) && authenticates(*s, key@, now, h@, uid)) ==> r
                    == Ok::<AuthUser, ApiError>(AuthUser { user_id: uid }),
            r matches Err(e) ==> e == ApiError::Unauthorized,
    {
        match header {
            None => Err(ApiError::Unauthorized),
            Some(h) => Self::from_authorization(s, key, now, h),
        }
    }
}

impl MaybeAuthUser {
    /// The authenticated user id, if any.
    pub fn user_id(&self) -> (r: Option<u128>)
        ensures
            r == match self.0 {
                Some(u) => Some(u.user_id),
                None => None::<u128>,
            },
    {
        match &self.0 {
            Some(u) => Some(u.user_id),
            None => None,
        }
    }

    /// Authentication for endpoints that work with or without a signed-in
    /// user. An absent header is anonymous, never an error; a present
    /// header goes through the full validation pipeline, and its failure
    /// is propagated, never swallowed into anonymity.
    pub fn optional(s: &Store, key: &Vec<u8>, now: i64, header: &Option<Vec<u8>>) -> (r: Result<
        MaybeAuthUser,
        ApiError,
    >)
        ensures
            header is None ==> r == Ok::<MaybeAuthUser, ApiError>(MaybeAuthUser(None)),
            match r {
                Ok(m) => match m.0 {
                    // A valid credential was presented and authenticates this user.
                    Some(u) => header matches Some(h) && authenticates(
                        *s,
                        key@,
                        now,
                        h@,
                        u.user_id,
                    ),
                    // Anonymous only when no credential was presented at all.
                    None => header is None,
                },
                Err(e) => e == ApiError::Unauthorized && header is Some,
            },
            forall|uid: u128|
                (header matches Some(h) && authenticates(*s, key@, now, h@, uid)) ==> r
                    == Ok::<MaybeAuthUser, ApiError>(MaybeAuthUser(Some(AuthUser { user_id: uid }))),
    {
        match header {
            None => Ok(MaybeAuthUser(None)),
            Some(h) => {
                match AuthUser::from_authorization(s, key, now, h) {
                    Ok(u) => Ok(MaybeAuthUser(Some(u))),
                    Err(e) => Err(e),
                }
            },
        }
    }
}

} // verus!
