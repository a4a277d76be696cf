//! The authenticated-encryption envelope around one secret.
//!
//! An envelope is the base64 text of a 12-byte nonce followed by the
//! AES-256-GCM ciphertext and tag of the secret's UTF-8 bytes. It carries all
//! that opening needs besides the key.

use crate::primitives::{
    aes256_gcm_decrypt, aes256_gcm_encrypt, aes256_gcm_open, aes256_gcm_seal, base64_decode,
    base64_decode_standard, base64_encode, base64_encode_standard, base64_len, generate_nonce,
    string_from_utf8, MAX_PLAINTEXT_LEN, NONCE_LEN, TAG_LEN,
};
use vstd::prelude::*;
use vstd::slice::slice_subrange;
use vstd::utf8::{
    decode_utf8, encode_utf8, encode_utf8_decode_utf8, encode_utf8_valid_utf8, valid_utf8,
};

verus! {

/// Why an envelope could not be produced or opened.
#[derive(Debug, Clone, Copy, PartialEq, Eq, Structural)]
pub enum CryptoError {
    /// The text is not base64, or decodes to fewer bytes than a nonce.
    MalformedEnvelope,
    /// The tag does not verify: wrong key, or the envelope was altered.
    AuthenticationFailed,
    /// The decrypted bytes are not valid UTF-8.
    InvalidEncoding,
    /// The plaintext is longer than one envelope can carry.
    PlaintextTooLong,
}

/// Whether `plaintext` fits in one envelope: its UTF-8 bytes are within the
/// AES-GCM limit, and the base64 text of nonce, ciphertext and tag has a
/// length that a string can have.
pub open spec fn fits_envelope(plaintext: Seq<char>) -> bool {
    let n = encode_utf8(plaintext).len() as int;
    n <= MAX_PLAINTEXT_LEN && base64_len(n + NONCE_LEN + TAG_LEN) <= isize::MAX
}

/// The envelope of `plaintext` under `key` with the given nonce.
pub open spec fn sealed_envelope(plaintext: Seq<char>, key: Seq<u8>, nonce: Seq<u8>) -> Seq<char> {
    base64_encode(nonce + aes256_gcm_seal(key, nonce, encode_utf8(plaintext)))
}

/// What opening `envelope` under `key` gives: the plaintext, or the reason
/// why there is none.
pub open spec fn open_envelope(envelope: Seq<char>, key: Seq<u8>) -> Result<
    Seq<char>,
    CryptoError,
> {
    match base64_decode(envelope) {
        None => Err(CryptoError::MalformedEnvelope),
        Some(raw) => if raw.len() < NONCE_LEN {
            Err(CryptoError::MalformedEnvelope)
        } else {
            match aes256_gcm_open(
                key,
                raw.subrange(0, NONCE_LEN as int),
                raw.subrange(NONCE_LEN as int, raw.len() as int),
            ) {
                None => Err(CryptoError::AuthenticationFailed),
                Some(bytes) => if valid_utf8(bytes) {
                    Ok(decode_utf8(bytes))
                } else {
                    Err(CryptoError::InvalidEncoding)
                },
            }
        },
    }
}

/// Whether `length` bytes of UTF-8 fit in one envelope, computed without
/// overflow.
fn length_fits(length: usize) -> (fits: bool)
    ensures
        fits == (length <= MAX_PLAINTEXT_LEN && base64_len(length + NONCE_LEN + TAG_LEN)
            <= isize::MAX),
{
    if length as u64 > MAX_PLAINTEXT_LEN {
        return false;
    }
    let limit: usize = isize::MAX as usize;
    let overhead: usize = NONCE_LEN + TAG_LEN + 2;
    if length > limit - overhead {
        return false;
    }
    (length + overhead) / 3 <= limit / 4
}

/// Seals `data` under `key` with the nonce `nonce`. The envelope is a
/// function of the three; it opens to `data` under `key`. The nonce must not
/// have served under this key before.
pub fn encrypt_with_nonce(data: &str, key: &[u8; 32], nonce: &[u8; 12]) -> (envelope: Result<
    String,
    CryptoError,
>)
    ensures
        envelope is Ok <==> fits_envelope(data@),
        envelope is Ok ==> envelope->Ok_0@ == sealed_envelope(data@, key@, nonce@),
        envelope is Ok ==> open_envelope(envelope->Ok_0@, key@) == Ok::<Seq<char>, CryptoError>(
            data@,
        ),
        envelope is Err ==> envelope->Err_0 == CryptoError::PlaintextTooLong,
{
    let plaintext = data.as_bytes();
    if !length_fits(plaintext.len()) {
        return Err(CryptoError::PlaintextTooLong);
    }
    match aes256_gcm_encrypt(key, nonce, plaintext) {
        None => Err(CryptoError::PlaintextTooLong),
        Some(sealed) => {
            let mut raw: Vec<u8> = Vec::new();
            raw.extend_from_slice(nonce.as_slice());
            raw.extend_from_slice(sealed.as_slice());
            proof {
                assert(raw@ =~= nonce@ + sealed@);
                assert(raw@.subrange(0, NONCE_LEN as int) =~= nonce@);
                assert(raw@.subrange(NONCE_LEN as int, raw@.len() as int) =~= sealed@);
                encode_utf8_valid_utf8(data@);
                encode_utf8_decode_utf8(data@);
            }
            Ok(base64_encode_standard(raw.as_slice()))
        },
    }
}

/// Seals `data` under `key` with a fresh random nonce. The envelope opens to
/// `data` under `key`; two calls on the same input differ in their nonces.
pub fn encrypt(data: &str, key: &[u8; 32]) -> (envelope: Result<String, CryptoError>)
    ensures
        envelope is Ok <==> fits_envelope(data@),
        envelope is Ok ==> exists|nonce: Seq<u8>|
            nonce.len() == NONCE_LEN && envelope->Ok_0@ == #[trigger] sealed_envelope(
                data@,
                key@,
                nonce,
            ),
        envelope is Ok ==> open_envelope(envelope->Ok_0@, key@) == Ok::<Seq<char>, CryptoError>(
            data@,
        ),
        envelope is Err ==> envelope->Err_0 == CryptoError::PlaintextTooLong,
{
    let nonce = generate_nonce();
    let envelope = encrypt_with_nonce(data, key, &nonce);
    proof {
        if envelope is Ok {
            assert(envelope->Ok_0@ == sealed_envelope(data@, key@, nonce@));
        }
    }
    envelope
}

/// Opens `encrypted_data` under `key`: the plaintext, or the first reason in
/// the order decoding, authentication, text encoding why it cannot be had.
/// No part of the plaintext is returned on failure.
pub fn decrypt(encrypted_data: &str, key: &[u8; 32]) -> (plaintext: Result<String, CryptoError>)
    ensures
        plaintext is Ok ==> open_envelope(encrypted_data@, key@) == Ok::<Seq<char>, CryptoError>(
            plaintext->Ok_0@,
        ),
        plaintext is Err ==> open_envelope(encrypted_data@, key@) == Err::<Seq<char>, CryptoError>(
            plaintext->Err_0,
        ),
{
    let raw = match base64_decode_standard(encrypted_data) {
        Some(raw) => raw,
        None => { return Err(CryptoError::MalformedEnvelope); },
    };
    if raw.len() < NONCE_LEN {
        return Err(CryptoError::MalformedEnvelope);
    }
    let mut nonce: [u8; 12] = [0u8; 12];
    let mut i: usize = 0;
    while i < NONCE_LEN
        invariant
            i <= NONCE_LEN <= raw@.len(),
            forall|j: int| 0 <= j < i ==> nonce@[j] == raw@[j],
        decreases NONCE_LEN - i,
    {
        nonce[i] = raw[i];
        i = i + 1;
    }
    assert(nonce@ =~= raw@.subrange(0, NONCE_LEN as int));
    let sealed = slice_subrange(raw.as_slice(), NONCE_LEN, raw.len());
    match aes256_gcm_decrypt(key, &nonce, sealed) {
        None => Err(CryptoError::AuthenticationFailed),
        Some(bytes) => match string_from_utf8(bytes) {
            Some(text) => Ok(text),
            None => Err(CryptoError::InvalidEncoding),
        },
    }
}

} // verus!
