//! Bearer-token authentication and a directed "follows" social graph.
//!
//! The library signs and verifies compact session tokens with a keyed MAC,
//! resolves request credentials to an authenticated user (distinguishing
//! "no credential" from "invalid credential"), and maintains a
//! duplicate-free, self-follow-free follow relation with viewer-relative
//! profile projections.

use vstd::prelude::*;

pub mod auth;
pub mod claims;
pub mod codec;
pub mod decfmt;
pub mod hexfmt;
pub mod mac;
pub mod store;

verus! {

/// Error taxonomy for the request-facing operations.
///
/// `Unauthorized` covers every credential problem (missing, malformed,
/// unverifiable, expired, or unknown user) without telling the caller
/// which check failed. `NotFound` means a target username does not
/// resolve to a user. `Forbidden` is reserved for a self-follow attempt.
#[derive(Clone, Copy, PartialEq, Eq, Structural, Debug)]
pub enum ApiError {
    Unauthorized,
    NotFound,
    Forbidden,
}

} // verus!
