//! The keyed message-authentication primitive behind token signatures.
//!
//! The MAC itself is computed by an outside implementation; the library
//! only relies on it being a deterministic function of key and message
//! with a fixed output width.

use vstd::prelude::*;

verus! {

/// The HMAC-SHA-384 tag of `msg` under `key`, as the outside
/// implementation computes it: a function of its two arguments alone.
pub uninterp spec fn hmac_sha384_of(key: Seq<u8>, msg: Seq<u8>) -> Seq<u8>;

/// Relies on `hmac::Hmac<sha2::Sha384>`: `new_from_slice` accepts keys of
/// any length, `update`/`finalize` produce the HMAC-SHA-384 tag of the
/// message, a deterministic 48-byte function of key and message.
#[verifier::external_body]
pub(crate) fn hmac_sha384(key: &Vec<u8>, msg: &Vec<u8>) -> (r: Vec<u8>)
    ensures
        r@ == hmac_sha384_of(key@, msg@),
        r@.len() == 48,
{
    let mut m = <hmac::Hmac<sha2::Sha384> as hmac::Mac>::new_from_slice(key.as_slice())
        .expect("HMAC accepts keys of any length");
    hmac::Mac::update(&mut m, msg.as_slice());
    hmac::Mac::finalize(m).into_bytes().to_vec()
}

} // verus!
