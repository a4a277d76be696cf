//! The primitives the vault does not implement itself: SHA-256, AES-256-GCM,
//! base64, the operating system's random source and UTF-8 validation.
//!
//! Each is reached through one small function whose contract is taken on
//! trust; nothing in this file is proved. The results of the deterministic
//! primitives are given names, so that the rest of the crate can state exactly
//! which bytes it handles without restating the algorithms.

use aes_gcm::aead::{Aead, KeyInit};
use aes_gcm::{Aes256Gcm, Key, Nonce};
use base64::engine::general_purpose::STANDARD;
use base64::Engine;
use rand::rngs::OsRng;
use rand::RngCore;
use sha2::{Digest, Sha256};
use vstd::prelude::*;
use vstd::utf8::{decode_utf8, valid_utf8};

verus! {

/// Length in bytes of an AES-GCM nonce.
pub const NONCE_LEN: usize = 12;

/// Length in bytes of the AES-GCM authentication tag that follows the ciphertext.
pub const TAG_LEN: usize = 16;

/// The longest plaintext, in bytes, that AES-GCM seals under one nonce.
pub const MAX_PLAINTEXT_LEN: u64 = 0x10_0000_0000;

/// The SHA-256 digest of `data`.
pub uninterp spec fn sha256(data: Seq<u8>) -> Seq<u8>;

/// The AES-256-GCM ciphertext of `plaintext` under `key` and `nonce`, with no
/// associated data, followed by its tag.
pub uninterp spec fn aes256_gcm_seal(key: Seq<u8>, nonce: Seq<u8>, plaintext: Seq<u8>) -> Seq<u8>;

/// The plaintext that AES-256-GCM recovers from `sealed` (ciphertext followed
/// by tag) under `key` and `nonce`, or `None` where the tag does not verify.
pub uninterp spec fn aes256_gcm_open(key: Seq<u8>, nonce: Seq<u8>, sealed: Seq<u8>) -> Option<
    Seq<u8>,
>;

/// The padded base64 text of `data` in the standard alphabet.
pub uninterp spec fn base64_encode(data: Seq<u8>) -> Seq<char>;

/// The bytes that padded standard-alphabet base64 `text` stands for, or `None`
/// where `text` is not canonical base64.
pub uninterp spec fn base64_decode(text: Seq<char>) -> Option<Seq<u8>>;

/// Number of characters in the padded base64 text of `n` bytes.
pub open spec fn base64_len(n: int) -> int {
    (n + 2) / 3 * 4
}

/// `sha2::Sha256::digest`: the 32-byte result is the SHA-256 digest of `data`.
#[verifier::external_body]
pub(crate) fn sha256_digest(data: &[u8]) -> (digest: [u8; 32])
    ensures
        digest@ == sha256(data@),
{
    Sha256::digest(data).into()
}

/// `rand::rngs::OsRng::fill_bytes` on a 12-byte buffer: a nonce from the
/// operating system's random source. Nothing is claimed of its value. The
/// call panics where the operating system cannot supply random bytes.
#[verifier::external_body]
pub fn generate_nonce() -> (nonce: [u8; 12]) {
    let mut nonce_bytes = [0u8; 12];
    OsRng.fill_bytes(&mut nonce_bytes);
    nonce_bytes
}

/// `aes_gcm::Aes256Gcm::encrypt` with an empty associated data: it succeeds
/// exactly on plaintexts of at most `MAX_PLAINTEXT_LEN` bytes; the result is
/// the ciphertext followed by a 16-byte tag, and opening it under the same key
/// and nonce gives the plaintext back. The call allocates room for plaintext
/// and tag, so their length together must be one that a vector can have.
#[verifier::external_body]
pub(crate) fn aes256_gcm_encrypt(key: &[u8; 32], nonce: &[u8; 12], plaintext: &[u8]) -> (sealed:
    Option<Vec<u8>>)
    requires
        plaintext@.len() + TAG_LEN <= isize::MAX,
    ensures
        sealed is Some <==> plaintext@.len() <= MAX_PLAINTEXT_LEN,
        sealed is Some ==> sealed->0@ == aes256_gcm_seal(key@, nonce@, plaintext@),
        sealed is Some ==> sealed->0@.len() == plaintext@.len() + TAG_LEN,
        sealed is Some ==> aes256_gcm_open(key@, nonce@, sealed->0@) == Some(plaintext@),
{
    let cipher = Aes256Gcm::new(Key::<Aes256Gcm>::from_slice(key));
    cipher.encrypt(Nonce::from_slice(nonce), plaintext).ok()
}

/// `aes_gcm::Aes256Gcm::decrypt` with an empty associated data: the plaintext
/// where the tag verifies, `None` otherwise.
#[verifier::external_body]
pub(crate) fn aes256_gcm_decrypt(key: &[u8; 32], nonce: &[u8; 12], sealed: &[u8]) -> (opened:
    Option<Vec<u8>>)
    ensures
        opened is Some ==> aes256_gcm_open(key@, nonce@, sealed@) == Some(opened->0@),
        opened is None ==> aes256_gcm_open(key@, nonce@, sealed@) is None,
{
    let cipher = Aes256Gcm::new(Key::<Aes256Gcm>::from_slice(key));
    cipher.decrypt(Nonce::from_slice(nonce), sealed).ok()
}

/// `base64::Engine::encode` of the `STANDARD` engine: the padded text of
/// `data`, which decodes back to `data`. The call panics where the length of
/// the text is not one that a string can have, so that case is excluded.
#[verifier::external_body]
pub(crate) fn base64_encode_standard(data: &[u8]) -> (text: String)
    requires
        base64_len(data@.len() as int) <= isize::MAX,
    ensures
        text@ == base64_encode(data@),
        base64_decode(text@) == Some(data@),
{
    STANDARD.encode(data)
}

/// `base64::Engine::decode` of the `STANDARD` engine: the decoded bytes, or
/// `None` where the engine reports a decode error.
#[verifier::external_body]
pub(crate) fn base64_decode_standard(text: &str) -> (data: Option<Vec<u8>>)
    ensures
        data is Some ==> base64_decode(text@) == Some(data->0@),
        data is None ==> base64_decode(text@) is None,
{
    STANDARD.decode(text).ok()
}

/// `String::from_utf8`: the text that `bytes` encode, exactly where they are
/// valid UTF-8.
#[verifier::external_body]
pub(crate) fn string_from_utf8(bytes: Vec<u8>) -> (text: Option<String>)
    ensures
        text is Some <==> valid_utf8(bytes@),
        text is Some ==> text->0@ == decode_utf8(bytes@),
{
    String::from_utf8(bytes).ok()
}

} // verus!
