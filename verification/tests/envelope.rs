use base64::engine::general_purpose::STANDARD;
use base64::Engine;
use pwmgr::{decrypt, derive_master_key, encrypt, encrypt_with_nonce, generate_nonce, CryptoError};

const ZERO_KEY: [u8; 32] = [0u8; 32];
const ZERO_NONCE: [u8; 12] = [0u8; 12];

#[test]
fn round_trip_returns_the_plaintext() {
    let key = derive_master_key("correct horse");
    for plaintext in ["p@ss1", "", "a", "with space", "\u{1f511} cl\u{e9} \u{4e2d}\u{6587}"] {
        let envelope = encrypt(plaintext, &key).unwrap();
        assert_eq!(decrypt(&envelope, &key), Ok(plaintext.to_string()));
    }
}

#[test]
fn round_trip_of_a_long_plaintext() {
    let key = derive_master_key("k");
    let plaintext = "x".repeat(100_000);
    let envelope = encrypt(&plaintext, &key).unwrap();
    assert_eq!(decrypt(&envelope, &key), Ok(plaintext));
}

#[test]
fn envelope_is_nonce_ciphertext_and_tag_in_base64() {
    let key = derive_master_key("k");
    let envelope = encrypt("hello", &key).unwrap();
    let raw = STANDARD.decode(&envelope).unwrap();
    assert_eq!(raw.len(), 12 + 5 + 16);
    assert_eq!(envelope.len(), 44);
}

#[test]
fn two_encryptions_differ() {
    let key = derive_master_key("k");
    let first = encrypt("same", &key).unwrap();
    let second = encrypt("same", &key).unwrap();
    assert_ne!(first, second);
    let first_raw = STANDARD.decode(&first).unwrap();
    let second_raw = STANDARD.decode(&second).unwrap();
    assert_ne!(first_raw[..12], second_raw[..12]);
}

#[test]
fn generated_nonces_differ() {
    assert_ne!(generate_nonce(), generate_nonce());
}

#[test]
fn known_answer_for_empty_plaintext() {
    let envelope = encrypt_with_nonce("", &ZERO_KEY, &ZERO_NONCE).unwrap();
    assert_eq!(envelope, "AAAAAAAAAAAAAAAAUw+K+8dFNrmpY7TxxMtziw==");
    assert_eq!(decrypt(&envelope, &ZERO_KEY), Ok(String::new()));
}

#[test]
fn known_answer_for_one_zero_block() {
    let plaintext = "\0".repeat(16);
    let envelope = encrypt_with_nonce(&plaintext, &ZERO_KEY, &ZERO_NONCE).unwrap();
    assert_eq!(envelope, "AAAAAAAAAAAAAAAAzqdAPU1ga24HTsXTuvOdGNDRyKeZmWvwJluYtdSKuRk=");
    assert_eq!(decrypt(&envelope, &ZERO_KEY), Ok(plaintext));
}

#[test]
fn decrypt_known_envelope() {
    assert_eq!(
        decrypt("AAAAAAAAAAAAAAAAzqdAPU1ga24HTsXTuvOdGNDRyKeZmWvwJluYtdSKuRk=", &ZERO_KEY),
        Ok("\0".repeat(16))
    );
}

#[test]
fn encrypt_with_nonce_is_a_function_of_its_arguments() {
    let key = derive_master_key("k");
    let nonce = [7u8; 12];
    let first = encrypt_with_nonce("secret", &key, &nonce).unwrap();
    let second = encrypt_with_nonce("secret", &key, &nonce).unwrap();
    assert_eq!(first, second);
    let raw = STANDARD.decode(&first).unwrap();
    assert_eq!(raw[..12], nonce);
    assert_ne!(first, encrypt_with_nonce("secret", &key, &[8u8; 12]).unwrap());
    assert_eq!(decrypt(&first, &key), Ok("secret".to_string()));
}

#[test]
fn wrong_key_is_rejected() {
    let key = derive_master_key("one");
    let other = derive_master_key("two");
    let envelope = encrypt("p@ss1", &key).unwrap();
    assert_eq!(decrypt(&envelope, &other), Err(CryptoError::AuthenticationFailed));
}

#[test]
fn flipping_any_bit_of_the_payload_is_detected() {
    let key = derive_master_key("k");
    let envelope = encrypt("tamper me", &key).unwrap();
    let raw = STANDARD.decode(&envelope).unwrap();
    for position in 0..raw.len() {
        for bit in 0..8 {
            let mut altered = raw.clone();
            altered[position] ^= 1 << bit;
            let forged = STANDARD.encode(&altered);
            assert_eq!(decrypt(&forged, &key), Err(CryptoError::AuthenticationFailed));
        }
    }
}

#[test]
fn forged_tag_is_rejected() {
    let key = derive_master_key("k");
    let envelope = encrypt("p@ss1", &key).unwrap();
    let mut raw = STANDARD.decode(&envelope).unwrap();
    let length = raw.len();
    for byte in raw[length - 16..].iter_mut() {
        *byte = 0;
    }
    assert_eq!(decrypt(&STANDARD.encode(&raw), &key), Err(CryptoError::AuthenticationFailed));
}

#[test]
fn truncated_ciphertext_is_rejected() {
    let key = derive_master_key("k");
    let envelope = encrypt("p@ss1", &key).unwrap();
    let raw = STANDARD.decode(&envelope).unwrap();
    let shorter = STANDARD.encode(&raw[..raw.len() - 1]);
    assert_eq!(decrypt(&shorter, &key), Err(CryptoError::AuthenticationFailed));
    // A nonce with fewer bytes after it than a tag has.
    let stub = STANDARD.encode(&raw[..12 + 15]);
    assert_eq!(decrypt(&stub, &key), Err(CryptoError::AuthenticationFailed));
    let nonce_only = STANDARD.encode(&raw[..12]);
    assert_eq!(decrypt(&nonce_only, &key), Err(CryptoError::AuthenticationFailed));
}

#[test]
fn reordered_ciphertext_is_rejected() {
    let key = derive_master_key("k");
    let envelope = encrypt("abcdefgh", &key).unwrap();
    let mut raw = STANDARD.decode(&envelope).unwrap();
    raw.swap(12, 13);
    assert_eq!(decrypt(&STANDARD.encode(&raw), &key), Err(CryptoError::AuthenticationFailed));
}

#[test]
fn payload_shorter_than_a_nonce_is_malformed() {
    let key = derive_master_key("k");
    assert_eq!(decrypt("", &key), Err(CryptoError::MalformedEnvelope));
    assert_eq!(decrypt(&STANDARD.encode([1u8; 11]), &key), Err(CryptoError::MalformedEnvelope));
}

#[test]
fn text_that_is_not_base64_is_malformed() {
    let key = derive_master_key("k");
    assert_eq!(decrypt("not base64!", &key), Err(CryptoError::MalformedEnvelope));
    assert_eq!(decrypt("AAAA AAAA AAAA AAAA", &key), Err(CryptoError::MalformedEnvelope));
    // Padding missing.
    assert_eq!(
        decrypt("AAAAAAAAAAAAAAAAUw+K+8dFNrmpY7TxxMtziw", &ZERO_KEY),
        Err(CryptoError::MalformedEnvelope)
    );
}

#[test]
fn plaintext_that_is_not_utf8_is_invalid_encoding() {
    // The bytes ff fe sealed under the zero key and the zero nonce.
    assert_eq!(
        decrypt("AAAAAAAAAAAAAAAAMVlM+TPgqY6HJ3pl6Npd5Xj/", &ZERO_KEY),
        Err(CryptoError::InvalidEncoding)
    );
}
