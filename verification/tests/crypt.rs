use base64::engine::general_purpose::STANDARD;
use base64::Engine;
use passman::database::crypt::{
    decrypt, derive_key, encrypt, encrypt_with_nonce, CryptError, KEY_SIZE, MAX_PLAINTEXT_BYTES,
    NONCE_SIZE, PBKDF2_ITERATIONS, SAFE_PLAINTEXT_CHARS, TAG_SIZE,
};

fn hex(bytes: &[u8]) -> String {
    let mut out = String::new();
    for b in bytes {
        out.push_str(&format!("{:02x}", b));
    }
    out
}

fn counting_nonce() -> [u8; 12] {
    [0, 1, 2, 3, 4, 5, 6, 7, 8, 9, 10, 11]
}

#[test]
fn constants_describe_the_blob_layout() {
    assert_eq!(PBKDF2_ITERATIONS, 100_000);
    assert_eq!(NONCE_SIZE, 12);
    assert_eq!(KEY_SIZE, 32);
    assert_eq!(TAG_SIZE, 16);
    assert_eq!(MAX_PLAINTEXT_BYTES, 1u64 << 36);
    assert_eq!(SAFE_PLAINTEXT_CHARS, 1usize << 28);
}

#[test]
fn long_plaintext_round_trip() {
    let text = "0123456789abcdef|\n🌍".repeat(50_000);
    let blob = encrypt("hunter2", &text).unwrap();
    assert_eq!(blob.len(), (12 + text.len() + 16).div_ceil(3) * 4);
    assert_eq!(decrypt("hunter2", &blob), Ok(text));
}

#[test]
fn derive_key_matches_the_pbkdf2_reference_value() {
    let key = derive_key("password", b"salt");
    assert_eq!(key.len(), 32);
    assert_eq!(hex(&key), "0394a2ede332c9a13eb82e9b24631604c31df978b4e2f0fbd2c549944f9d79a5");
}

#[test]
fn derive_key_is_deterministic_and_depends_on_both_inputs() {
    let nonce = counting_nonce();
    let first = derive_key("hunter2", &nonce);
    let again = derive_key("hunter2", &nonce);
    assert_eq!(first, again);
    assert_eq!(hex(&first), "06fce66010f22a9511e9866c7fb34e57bba14a25b0fb5468cd986d1a0e9696e1");
    assert_ne!(first, derive_key("hunter3", &nonce));
    assert_ne!(first, derive_key("hunter2", &[0u8; 12]));
}

#[test]
fn derive_key_does_not_see_a_trailing_nul() {
    let nonce = counting_nonce();
    let plain = derive_key("a", &nonce);
    let padded = derive_key("a\0", &nonce);
    assert_eq!(hex(&plain), "06c72432370d136069fe9a43fadbdb439f7e48e5763d743f805d52d3a2bcd966");
    assert_eq!(plain, padded);
}

#[test]
fn encrypt_with_nonce_matches_the_reference_blob() {
    let blob = encrypt_with_nonce("hunter2", "mySecret", &counting_nonce()).unwrap();
    assert_eq!(blob, "AAECAwQFBgcICQoLZ6cTkOPpgp4UlTHpKE60Qq2hq1y/Y8Am");
}

#[test]
fn encrypt_with_nonce_of_empty_plaintext_is_nonce_and_tag() {
    let blob = encrypt_with_nonce("pässwörd", "", &[0xab; 12]).unwrap();
    assert_eq!(blob, "q6urq6urq6urq6urG0uNsZ6SE8epxOfLHS0r4Q==");
    let bytes = STANDARD.decode(&blob).unwrap();
    assert_eq!(bytes.len(), NONCE_SIZE + TAG_SIZE);
    assert_eq!(decrypt("pässwörd", &blob), Ok(String::new()));
}

#[test]
fn decrypt_opens_a_reference_blob_with_unicode_text() {
    let blob = "q6urq6urq6urq6urQlsCsTaY24UDasJdXgVASCzqKAfIXGtkRv5a3NPJYe45BGKS";
    assert_eq!(decrypt("pässwörd", blob), Ok("grüße, мир 🌍".to_string()));
    assert_eq!(encrypt_with_nonce("pässwörd", "grüße, мир 🌍", &[0xab; 12]).unwrap(), blob);
}

#[test]
fn blob_starts_with_its_nonce_and_is_longer_by_nonce_and_tag() {
    let nonce = [7u8; 12];
    let blob = encrypt_with_nonce("pw", "twelve bytes", &nonce).unwrap();
    let bytes = STANDARD.decode(&blob).unwrap();
    assert_eq!(&bytes[..12], &nonce[..]);
    assert_eq!(bytes.len(), 12 + 12 + 16);
    assert_ne!(&bytes[12..24], "twelve bytes".as_bytes());
}

#[test]
fn round_trip_returns_the_plaintext() {
    for (password, text) in [("hunter2", "mySecret"), ("", "x"), ("pw with spaces", "line\nbreak|bar")] {
        let blob = encrypt(password, text).unwrap();
        assert_eq!(decrypt(password, &blob), Ok(text.to_string()));
    }
}

#[test]
fn encrypt_draws_a_fresh_nonce_every_time() {
    let first = encrypt("hunter2", "mySecret").unwrap();
    let second = encrypt("hunter2", "mySecret").unwrap();
    let third = encrypt("hunter2", "mySecret").unwrap();
    assert_ne!(first, second);
    assert_ne!(first, third);
    assert_ne!(second, third);
    let a = STANDARD.decode(&first).unwrap();
    let b = STANDARD.decode(&second).unwrap();
    assert_ne!(&a[..12], &b[..12]);
}

#[test]
fn wrong_password_fails_authentication() {
    let blob = encrypt_with_nonce("hunter2", "mySecret", &counting_nonce()).unwrap();
    assert_eq!(decrypt("hunter3", &blob), Err(CryptError::AuthenticationError));
    assert_eq!(decrypt("", &blob), Err(CryptError::AuthenticationError));
    assert_eq!(decrypt("Hunter2", &blob), Err(CryptError::AuthenticationError));
}

#[test]
fn flipping_one_bit_fails_authentication() {
    let blob = encrypt_with_nonce("hunter2", "mySecret", &counting_nonce()).unwrap();
    let bytes = STANDARD.decode(&blob).unwrap();
    assert_eq!(bytes.len(), 36);
    // one bit in the nonce, one in the ciphertext, one in the tag, and the last bit of all
    for (index, bit) in [(0usize, 0u8), (13, 3), (25, 7), (35, 0)] {
        let mut altered = bytes.clone();
        altered[index] ^= 1 << bit;
        let text = STANDARD.encode(&altered);
        assert_eq!(decrypt("hunter2", &text), Err(CryptError::AuthenticationError));
    }
}

#[test]
fn truncated_blob_fails_authentication() {
    let blob = encrypt_with_nonce("hunter2", "mySecret", &counting_nonce()).unwrap();
    let bytes = STANDARD.decode(&blob).unwrap();
    let shorter = STANDARD.encode(&bytes[..35]);
    assert_eq!(decrypt("hunter2", &shorter), Err(CryptError::AuthenticationError));
}

#[test]
fn empty_text_is_an_invalid_format() {
    assert_eq!(decrypt("hunter2", ""), Err(CryptError::InvalidFormatError));
}

#[test]
fn text_that_is_not_base64_is_a_decode_error() {
    assert_eq!(decrypt("hunter2", "short"), Err(CryptError::DecodeError));
    assert_eq!(decrypt("hunter2", "not base64 at all!"), Err(CryptError::DecodeError));
    assert_eq!(decrypt("hunter2", "AAECAwQFBgcICQoL\n"), Err(CryptError::DecodeError));
}

#[test]
fn text_outside_ascii_is_a_decode_error() {
    assert_eq!(decrypt("hunter2", "grüße🌍"), Err(CryptError::DecodeError));
    assert_eq!(decrypt("", "\0\0\0\0"), Err(CryptError::DecodeError));
    assert_eq!(decrypt("hunter2", "AAECAwQFBgcICQoL===="), Err(CryptError::DecodeError));
}

#[test]
fn fewer_than_twelve_bytes_are_an_invalid_format() {
    // eleven zero bytes
    assert_eq!(decrypt("hunter2", "AAAAAAAAAAAAAAA="), Err(CryptError::InvalidFormatError));
    // one byte
    assert_eq!(decrypt("hunter2", "AA=="), Err(CryptError::InvalidFormatError));
}

#[test]
fn a_nonce_without_a_tag_fails_authentication() {
    // exactly twelve bytes: a nonce and nothing behind it
    assert_eq!(decrypt("hunter2", "AAECAwQFBgcICQoL"), Err(CryptError::AuthenticationError));
}

#[test]
fn plaintext_that_is_not_utf8_is_an_encoding_error() {
    // the bytes ff fe fd, sealed under "hunter2" with the counting nonce
    let blob = "AAECAwQFBgcICQoL9SC9Fjjy5oPpn9imB/ePBkQftw==";
    assert_eq!(decrypt("hunter2", blob), Err(CryptError::EncodingError));
    assert_eq!(decrypt("hunter3", blob), Err(CryptError::AuthenticationError));
}

#[test]
fn blob_is_base64_and_opens_only_under_its_password() {
    let blob = encrypt("hunter2", "mySecret").unwrap();
    assert_eq!(blob.len(), 48);
    assert!(blob
        .chars()
        .all(|c| c.is_ascii_alphanumeric() || c == '+' || c == '/' || c == '='));
    assert_eq!(decrypt("hunter2", &blob), Ok("mySecret".to_string()));
    assert_eq!(decrypt("wrong", &blob), Err(CryptError::AuthenticationError));
}

#[test]
fn error_messages_do_not_tell_wrong_password_from_tampering() {
    assert_eq!(CryptError::DecodeError.message(), "Base64 decode error");
    assert_eq!(CryptError::InvalidFormatError.message(), "Invalid encrypted data");
    assert_eq!(CryptError::AuthenticationError.message(), "Decryption error: Error");
    assert_eq!(CryptError::EncodingError.message(), "Invalid UTF-8");
    assert_eq!(CryptError::EncryptionError.message(), "Encryption error: Error");
}
