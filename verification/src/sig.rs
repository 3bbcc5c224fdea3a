//! The signature primitive, used opaquely by stateless transaction
//! verification.

use vstd::prelude::*;
use crate::is_key;

verus! {

/// Whether the signature primitive accepts `sig` as a signature on `msg`
/// under the public key `pk`.
pub uninterp spec fn sig_valid(pk: Seq<u8>, msg: Seq<u8>, sig: Seq<u8>) -> bool;

/// Relies on ed25519_dalek::VerifyingKey::verify_strict: acceptance is a
/// pure function of key, message and signature bytes; a key that does not
/// decode to a curve point accepts nothing.
#[verifier::external_body]
pub fn ed25519_verify(pk: &Vec<u8>, msg: &Vec<u8>, sig: &Vec<u8>) -> (r: bool)
    requires
        is_key(pk@),
        sig@.len() == 64,
    ensures
        r == sig_valid(pk@, msg@, sig@),
{
    let pk_arr: [u8; 32] = pk.as_slice().try_into().unwrap();
    let sig_arr: [u8; 64] = sig.as_slice().try_into().unwrap();
    match ed25519_dalek::VerifyingKey::from_bytes(&pk_arr) {
        Ok(vk) => {
            let s = ed25519_dalek::Signature::from_bytes(&sig_arr);
            vk.verify_strict(msg.as_slice(), &s).is_ok()
        },
        Err(_) => false,
    }
}

} // verus!
