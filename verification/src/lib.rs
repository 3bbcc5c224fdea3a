//! Authenticated state layer of a ledger: a transactional, copy-on-write
//! key/value overlay (`Store` / `Fork`), namespaced typed tables, a wallet
//! schema, and a deterministic two-phase transaction execution engine.

pub mod codec;
pub mod engine;
pub mod fork;
pub mod hash;
pub mod props;
pub mod schema;
pub mod sig;
pub mod table;
pub mod tx;
pub mod wallet;

use vstd::prelude::*;

verus! {

/// Byte length of a digest produced by the hash primitive.
pub const DIGEST_LEN: usize = 32;

/// Byte length of a wallet public key.
pub const KEY_LEN: usize = 32;

/// A byte string has digest shape when it is exactly one digest long.
pub open spec fn is_digest(b: Seq<u8>) -> bool {
    b.len() == DIGEST_LEN
}

/// A byte string has public-key shape when it is exactly one key long.
pub open spec fn is_key(b: Seq<u8>) -> bool {
    b.len() == KEY_LEN
}

/// Byte-wise equality of two byte vectors, decided in executable code.
pub fn bytes_eq(a: &Vec<u8>, b: &Vec<u8>) -> (r: bool)
    ensures
        r == (a@ == b@),
{
    if a.len() != b.len() {
        assert(a@ != b@);
        return false;
    }
    let n = a.len();
    let mut i: usize = 0;
    while i < n
        invariant
            n == a@.len() && n == b@.len(),
            0 <= i <= n,
            forall|j: int| 0 <= j < i ==> a@[j] == b@[j],
        decreases n - i,
    {
        if a[i] != b[i] {
            assert(a@ != b@);
            return false;
        }
        i = i + 1;
    }
    proof {
        assert(a@ =~= b@);
    }
    true
}

/// A fresh byte vector with the same contents.
pub fn clone_bytes(v: &Vec<u8>) -> (r: Vec<u8>)
    ensures
        r@ == v@,
{
    let n = v.len();
    let mut r: Vec<u8> = Vec::new();
    let mut i: usize = 0;
    while i < n
        invariant
            n == v@.len(),
            0 <= i <= n,
            r@ == v@.subrange(0, i as int),
        decreases n - i,
    {
        r.push(v[i]);
        proof {
            assert(r@ =~= v@.subrange(0, i + 1));
        }
        i = i + 1;
    }
    proof {
        assert(r@ =~= v@);
    }
    r
}

} // verus!
