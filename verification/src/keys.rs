//! Master-key derivation and master-password verification.
//!
//! The key and the persisted fingerprint are the same value: the SHA-256
//! digest of the password's UTF-8 bytes. Verifying a password therefore
//! yields the key itself. The fingerprint is not a slow, salted password
//! hash; whoever holds it can test candidate passwords offline.

use crate::primitives::{sha256, sha256_digest};
use vstd::prelude::*;
use vstd::slice::slice_index_get;
use vstd::utf8::encode_utf8;

verus! {

/// Why a master password was refused.
#[derive(Debug, Clone, Copy, PartialEq, Eq, Structural)]
pub enum AuthError {
    /// The password's key differs from the stored fingerprint.
    InvalidMasterPassword,
}

impl AuthError {
    /// The one message shown for a refused password. It says nothing of how
    /// the password differed.
    pub fn message(&self) -> (text: String)
        ensures
            text@ == "Invalid Master Password"@,
    {
        "Invalid Master Password".to_owned()
    }
}

/// The master key of `password`: the SHA-256 digest of its UTF-8 bytes.
pub open spec fn master_key_of(password: Seq<char>) -> Seq<u8> {
    sha256(encode_utf8(password))
}

/// Derives the 32-byte master key from a master password. Every string,
/// the empty one included, has a key.
pub fn derive_master_key(master_password: &str) -> (key: [u8; 32])
    ensures
        key@ == master_key_of(master_password@),
{
    sha256_digest(master_password.as_bytes())
}

/// Compares two byte strings without branching on their contents: every
/// position is visited whatever the bytes hold. Only the lengths, which are
/// not secret, decide early.
pub fn constant_time_eq(left: &[u8], right: &[u8]) -> (same: bool)
    ensures
        same == (left@ == right@),
{
    if left.len() != right.len() {
        return false;
    }
    let mut diff: u8 = 0;
    let mut i: usize = 0;
    assert(left@.subrange(0, 0) =~= right@.subrange(0, 0));
    while i < left.len()
        invariant
            left@.len() == right@.len(),
            i <= left@.len(),
            diff == 0 <==> left@.subrange(0, i as int) == right@.subrange(0, i as int),
        decreases left@.len() - i,
    {
        let x: u8 = *slice_index_get(left, i);
        let y: u8 = *slice_index_get(right, i);
        let ghost before = diff;
        diff = diff | (x ^ y);
        proof {
            assert(((before | (x ^ y)) == 0) <==> (before == 0 && x == y)) by (bit_vector);
            let l0 = left@.subrange(0, i as int);
            let r0 = right@.subrange(0, i as int);
            let l1 = left@.subrange(0, i + 1);
            let r1 = right@.subrange(0, i + 1);
            assert(l1.drop_last() =~= l0);
            assert(r1.drop_last() =~= r0);
            assert(l1.last() == x && r1.last() == y);
            if l0 == r0 && x == y {
                assert(l1 =~= r1);
            }
        }
        i = i + 1;
    }
    proof {
        assert(left@.subrange(0, i as int) =~= left@);
        assert(right@.subrange(0, i as int) =~= right@);
    }
    diff == 0
}

/// Checks a master password against the stored fingerprint, in constant time
/// with respect to the key, and hands the key out exactly when they agree.
pub fn verify_master_password(master_password: &str, master_key_hash: &[u8]) -> (verdict: Result<
    [u8; 32],
    AuthError,
>)
    ensures
        verdict is Ok <==> master_key_hash@ == master_key_of(master_password@),
        verdict is Ok ==> verdict->Ok_0@ == master_key_of(master_password@),
        verdict is Err ==> verdict->Err_0 == AuthError::InvalidMasterPassword,
{
    let master_key = derive_master_key(master_password);
    if constant_time_eq(master_key.as_slice(), master_key_hash) {
        Ok(master_key)
    } else {
        Err(AuthError::InvalidMasterPassword)
    }
}

} // verus!
