//! Password-based authenticated encryption of single text values.
//!
//! A blob is `nonce || ciphertext || tag`, base64-encoded. The twelve
//! leading bytes are drawn fresh for every encryption and serve both as
//! the salt of the key derivation and as the nonce of AES-256-GCM.

use aes::cipher::generic_array::GenericArray;
use aes_gcm::aead::{Aead, KeyInit, OsRng};
use aes_gcm::{Aes256Gcm, Nonce};
use base64::engine::general_purpose::STANDARD;
use base64::Engine;
use pbkdf2::pbkdf2_hmac;
use rand::RngCore;
use sha2::Sha256;
use vstd::prelude::*;
use vstd::utf8::{decode_utf8, encode_utf8, valid_utf8};

verus! {

/// Rounds of HMAC-SHA-256 spent on every key derivation.
pub const PBKDF2_ITERATIONS: u32 = 100_000;

/// Bytes of the random value that opens every blob.
pub const NONCE_SIZE: usize = 12;

/// Bytes of a derived key.
pub const KEY_SIZE: usize = 32;

/// Bytes of the authentication tag that closes every blob.
pub const TAG_SIZE: usize = 16;

/// Longest plaintext, in bytes, that the cipher accepts under one nonce.
pub const MAX_PLAINTEXT_BYTES: u64 = 0x10_0000_0000;

/// Why a blob could not be produced or opened.
#[derive(Debug, Clone, Copy, PartialEq, Eq, Structural)]
pub enum CryptError {
    /// The text is not valid padded base64.
    DecodeError,
    /// The decoded bytes are too few to hold a nonce.
    InvalidFormatError,
    /// The tag did not verify: wrong password or altered bytes.
    AuthenticationError,
    /// The authenticated plaintext is not UTF-8.
    EncodingError,
    /// The plaintext is too long for the cipher or for its encoding.
    EncryptionError,
}

impl CryptError {
    /// The text that reports an error of this kind.
    pub open spec fn spec_message(self) -> Seq<char> {
        match self {
            CryptError::DecodeError => "Base64 decode error"@,
            CryptError::InvalidFormatError => "Invalid encrypted data"@,
            CryptError::AuthenticationError => "Decryption error: Error"@,
            CryptError::EncodingError => "Invalid UTF-8"@,
            CryptError::EncryptionError => "Encryption error: Error"@,
        }
    }

    /// The text that reports this error. A wrong password and altered
    /// bytes are reported alike.
    pub fn message(&self) -> (text: String)
        ensures
            text@ == self.spec_message(),
    {
        match self {
            CryptError::DecodeError => "Base64 decode error".to_owned(),
            CryptError::InvalidFormatError => "Invalid encrypted data".to_owned(),
            CryptError::AuthenticationError => "Decryption error: Error".to_owned(),
            CryptError::EncodingError => "Invalid UTF-8".to_owned(),
            CryptError::EncryptionError => "Encryption error: Error".to_owned(),
        }
    }
}

/// Output of PBKDF2 with HMAC-SHA-256 as its pseudo-random function, for
/// a password, a salt, a round count and a number of output bytes.
pub uninterp spec fn pbkdf2_hmac_sha256(password: Seq<u8>, salt: Seq<u8>, rounds: u32, len: nat) -> Seq<u8>;

/// The key that a password and a salt stand for.
pub open spec fn spec_derive_key(password: Seq<char>, salt: Seq<u8>) -> Seq<u8> {
    pbkdf2_hmac_sha256(encode_utf8(password), salt, PBKDF2_ITERATIONS, KEY_SIZE as nat)
}

/// Calls `pbkdf2::pbkdf2_hmac::<Sha256>` on a 32-byte buffer. Trusted: the
/// buffer afterwards holds the PBKDF2 output for exactly these inputs. The
/// outside function accepts any password, salt and round count.
#[verifier::external_body]
fn pbkdf2_sha256_key(password: &[u8], salt: &[u8], rounds: u32) -> (key: [u8; 32])
    ensures
        key@ == pbkdf2_hmac_sha256(password@, salt@, rounds, 32),
{
    let mut key = [0u8; 32];
    pbkdf2_hmac::<Sha256>(password, salt, rounds, &mut key);
    key
}

/// Stretches a password and a salt into a 256-bit key.
pub fn derive_key(master_password: &str, salt: &[u8]) -> (key: [u8; KEY_SIZE])
    ensures
        key@ == spec_derive_key(master_password@, salt@),
{
    pbkdf2_sha256_key(master_password.as_bytes(), salt, PBKDF2_ITERATIONS)
}

/// What AES-256-GCM returns for a key, a nonce and a plaintext, with no
/// associated data: ciphertext followed by tag.
pub uninterp spec fn aes_gcm_seal(key: Seq<u8>, nonce: Seq<u8>, plaintext: Seq<u8>) -> Option<Seq<u8>>;

/// What AES-256-GCM returns when it is asked to open ciphertext and tag
/// under a key and a nonce: the plaintext, or nothing where the tag does
/// not verify.
pub uninterp spec fn aes_gcm_open(key: Seq<u8>, nonce: Seq<u8>, body: Seq<u8>) -> Option<Seq<u8>>;

/// The padded base64 text of a byte string, in the standard alphabet.
pub uninterp spec fn base64_encode(bytes: Seq<u8>) -> Seq<char>;

/// The bytes that a padded base64 text in the standard alphabet stands
/// for, or nothing where the text is malformed.
pub uninterp spec fn base64_decode(text: Seq<char>) -> Option<Seq<u8>>;

/// A character of the standard base64 alphabet, or its padding sign.
pub open spec fn is_base64_char(c: char) -> bool {
    ('A' <= c && c <= 'Z') || ('a' <= c && c <= 'z') || ('0' <= c && c <= '9') || c == '+'
        || c == '/' || c == '='
}

/// Text made of base64 characters only.
pub open spec fn is_base64_text(text: Seq<char>) -> bool {
    forall|i: int| 0 <= i < text.len() ==> is_base64_char(#[trigger] text[i])
}

/// Whether the base64 text of `len` bytes is short enough to be
/// allocated: no buffer is longer than `isize::MAX`.
pub open spec fn base64_fits(len: int) -> bool {
    len / 3 * 4 + 4 <= isize::MAX
}

/// Whether the cipher can be asked to seal a plaintext of `len` bytes:
/// it is short enough for the cipher, and plaintext and tag together can
/// be allocated.
pub open spec fn sealable(len: int) -> bool {
    len <= MAX_PLAINTEXT_BYTES && len + TAG_SIZE <= isize::MAX
}

/// Draws twelve bytes from the operating system's generator with
/// `OsRng.fill_bytes`. Nothing is claimed of the bytes. The outside
/// function panics if the operating system cannot supply them.
#[verifier::external_body]
fn fresh_nonce() -> (nonce: [u8; 12]) {
    let mut nonce = [0u8; 12];
    OsRng.fill_bytes(&mut nonce);
    nonce
}

/// Calls `Aes256Gcm::encrypt` with no associated data. Trusted: the
/// cipher accepts a plaintext of at most 2^36 bytes, and the result is
/// its output for these inputs, sixteen bytes longer than the plaintext.
/// The outside function allocates room for plaintext and tag at once and
/// panics where that is more than `isize::MAX`, which the precondition
/// rules out.
#[verifier::external_body]
fn gcm_seal(key: &[u8; 32], nonce: &[u8; 12], plaintext: &[u8]) -> (sealed: Option<Vec<u8>>)
    requires
        sealable(plaintext@.len() as int),
    ensures
        sealed is Some,
        sealed matches Some(body) ==> body@.len() == plaintext@.len() + TAG_SIZE,
        sealed matches Some(body) ==> aes_gcm_seal(key@, nonce@, plaintext@) == Some(body@),
{
    let cipher = Aes256Gcm::new(GenericArray::from_slice(key));
    cipher.encrypt(Nonce::from_slice(nonce), plaintext).ok()
}

/// Calls `Aes256Gcm::decrypt` with no associated data. Trusted: the
/// result is the cipher's answer for these inputs; a body shorter than a
/// tag is refused; an accepted body is sixteen bytes longer than its
/// plaintext; and a body that the cipher sealed under this key and nonce
/// opens, to the plaintext it was sealed from.
#[verifier::external_body]
fn gcm_open(key: &[u8; 32], nonce: &[u8], body: &[u8]) -> (opened: Option<Vec<u8>>)
    requires
        nonce@.len() == NONCE_SIZE,
    ensures
        match opened {
            Some(plain) => {
                &&& aes_gcm_open(key@, nonce@, body@) == Some(plain@)
                &&& plain@.len() + TAG_SIZE == body@.len()
                &&& forall|plaintext: Seq<u8>|
                    sealable(plaintext.len() as int) && #[trigger] aes_gcm_seal(
                        key@,
                        nonce@,
                        plaintext,
                    ) == Some(body@) ==> plaintext == plain@
            },
            None => {
                &&& aes_gcm_open(key@, nonce@, body@) is None
                &&& forall|plaintext: Seq<u8>|
                    sealable(plaintext.len() as int) ==> #[trigger] aes_gcm_seal(
                        key@,
                        nonce@,
                        plaintext,
                    ) != Some(body@)
            },
        },
        body@.len() < TAG_SIZE ==> opened is None,
{
    let cipher = Aes256Gcm::new(GenericArray::from_slice(key));
    cipher.decrypt(Nonce::from_slice(nonce), body).ok()
}

/// Calls `STANDARD.encode` of the base64 crate. Trusted: the result is
/// the standard padded encoding of the bytes and holds base64 characters
/// only. The outside function panics where the encoded text cannot be
/// allocated, which the precondition rules out.
#[verifier::external_body]
fn base64_encode_bytes(bytes: &[u8]) -> (text: String)
    requires
        base64_fits(bytes@.len() as int),
    ensures
        text@ == base64_encode(bytes@),
        is_base64_text(text@),
{
    STANDARD.encode(bytes)
}

/// Calls `STANDARD.decode` of the base64 crate. Trusted: the result is
/// the decoding of the text, and a text that is the encoding of a byte
/// string decodes, to that byte string.
#[verifier::external_body]
fn base64_decode_text(text: &str) -> (decoded: Option<Vec<u8>>)
    ensures
        match decoded {
            Some(found) => {
                &&& base64_decode(text@) == Some(found@)
                &&& forall|bytes: Seq<u8>|
                    base64_fits(bytes.len() as int) && #[trigger] base64_encode(bytes) == text@
                        ==> bytes == found@
            },
            None => {
                &&& base64_decode(text@) is None
                &&& forall|bytes: Seq<u8>|
                    base64_fits(bytes.len() as int) ==> #[trigger] base64_encode(bytes) != text@
            },
        },
{
    STANDARD.decode(text).ok()
}

/// Calls `String::from_utf8`. Trusted: it succeeds exactly on well-formed
/// UTF-8 and then yields the characters that the bytes encode.
#[verifier::external_body]
fn string_from_utf8(bytes: Vec<u8>) -> (text: Option<String>)
    ensures
        text is Some <==> valid_utf8(bytes@),
        text matches Some(s) ==> s@ == decode_utf8(bytes@),
{
    String::from_utf8(bytes).ok()
}

/// Whether a plaintext is short enough to be sealed and encoded.
pub open spec fn encryptable(plaintext: Seq<char>) -> bool {
    let n = encode_utf8(plaintext).len();
    n <= MAX_PLAINTEXT_BYTES && base64_fits(n + NONCE_SIZE + TAG_SIZE)
}

/// A plaintext of at most this many characters is encryptable on every
/// machine.
pub const SAFE_PLAINTEXT_CHARS: usize = 0x1000_0000;

/// The UTF-8 encoding of a text has at most four bytes for each
/// character.
pub proof fn lemma_utf8_len(text: Seq<char>)
    ensures
        encode_utf8(text).len() <= 4 * text.len(),
    decreases text.len(),
{
    if text.len() > 0 {
        lemma_utf8_len(text.drop_first());
    }
}

/// Every text of at most `SAFE_PLAINTEXT_CHARS` characters is
/// encryptable.
pub proof fn lemma_short_text_encryptable(text: Seq<char>)
    requires
        text.len() <= SAFE_PLAINTEXT_CHARS,
    ensures
        encryptable(text),
{
    lemma_utf8_len(text);
}

/// The blob that a password, a plaintext and a nonce stand for.
pub open spec fn spec_encrypt(password: Seq<char>, plaintext: Seq<char>, nonce: Seq<u8>) -> Result<
    Seq<char>,
    CryptError,
> {
    match aes_gcm_seal(spec_derive_key(password, nonce), nonce, encode_utf8(plaintext)) {
        Some(body) => if encryptable(plaintext) && base64_fits((nonce + body).len() as int) {
            Ok(base64_encode(nonce + body))
        } else {
            Err(CryptError::EncryptionError)
        },
        None => Err(CryptError::EncryptionError),
    }
}

/// What opening a blob under a password gives.
pub open spec fn spec_decrypt(password: Seq<char>, blob: Seq<char>) -> Result<Seq<char>, CryptError> {
    match base64_decode(blob) {
        None => Err(CryptError::DecodeError),
        Some(bytes) => if bytes.len() < NONCE_SIZE {
            Err(CryptError::InvalidFormatError)
        } else {
            let nonce = bytes.subrange(0, NONCE_SIZE as int);
            let body = bytes.subrange(NONCE_SIZE as int, bytes.len() as int);
            match aes_gcm_open(spec_derive_key(password, nonce), nonce, body) {
                None => Err(CryptError::AuthenticationError),
                Some(plain) => if valid_utf8(plain) {
                    Ok(decode_utf8(plain))
                } else {
                    Err(CryptError::EncodingError)
                },
            }
        },
    }
}

/// The view of an executable result whose success is a string.
pub open spec fn text_result(r: Result<String, CryptError>) -> Result<Seq<char>, CryptError> {
    match r {
        Ok(s) => Ok(s@),
        Err(e) => Err(e),
    }
}

/// Encrypts `plaintext` under `master_password` with the given nonce,
/// which must never be used twice with one password.
pub fn encrypt_with_nonce(master_password: &str, plaintext: &str, nonce: &[u8; 12]) -> (blob: Result<
    String,
    CryptError,
>)
    ensures
        text_result(blob) == spec_encrypt(master_password@, plaintext@, nonce@),
        blob is Ok <==> encryptable(plaintext@),
        plaintext@.len() <= SAFE_PLAINTEXT_CHARS ==> blob is Ok,
        blob matches Err(e) ==> e == CryptError::EncryptionError,
        blob matches Ok(text) ==> is_base64_text(text@),
{
    proof {
        if plaintext@.len() <= SAFE_PLAINTEXT_CHARS {
            lemma_short_text_encryptable(plaintext@);
        }
    }
    let bytes = plaintext.as_bytes();
    let overhead: usize = NONCE_SIZE + TAG_SIZE;
    let too_long_to_seal = bytes.len() as u64 > MAX_PLAINTEXT_BYTES;
    let too_long_to_encode = bytes.len() > usize::MAX - overhead || (bytes.len() + overhead) / 3
        > (isize::MAX as usize - 4) / 4;
    if too_long_to_seal || too_long_to_encode {
        return Err(CryptError::EncryptionError);
    }
    let key = derive_key(master_password, nonce.as_slice());
    match gcm_seal(&key, nonce, bytes) {
        None => Err(CryptError::EncryptionError),
        Some(body) => {
            let mut combined: Vec<u8> = Vec::new();
            combined.extend_from_slice(nonce.as_slice());
            combined.extend_from_slice(body.as_slice());
            assert(combined@ =~= nonce@ + body@);
            Ok(base64_encode_bytes(combined.as_slice()))
        },
    }
}

/// Encrypts `plaintext` under `master_password` with a nonce drawn fresh
/// from the operating system.
pub fn encrypt(master_password: &str, plaintext: &str) -> (blob: Result<String, CryptError>)
    ensures
        exists|nonce: Seq<u8>|
            nonce.len() == NONCE_SIZE && text_result(blob) == #[trigger] spec_encrypt(
                master_password@,
                plaintext@,
                nonce,
            ),
        blob is Ok <==> encryptable(plaintext@),
        plaintext@.len() <= SAFE_PLAINTEXT_CHARS ==> blob is Ok,
        blob matches Err(e) ==> e == CryptError::EncryptionError,
        blob matches Ok(text) ==> is_base64_text(text@),
{
    let nonce = fresh_nonce();
    let blob = encrypt_with_nonce(master_password, plaintext, &nonce);
    assert(text_result(blob) == spec_encrypt(master_password@, plaintext@, nonce@));
    blob
}

/// What a blob is made of, seen from the bytes it decodes to: the nonce
/// in front, and behind it what the cipher sealed under the derived key.
proof fn lemma_blob_parts(
    password: Seq<char>,
    plaintext: Seq<char>,
    nonce: Seq<u8>,
    blob: Seq<char>,
    combined: Seq<u8>,
)
    requires
        nonce.len() == NONCE_SIZE,
        spec_encrypt(password, plaintext, nonce) == Ok::<Seq<char>, CryptError>(blob),
        forall|bytes: Seq<u8>|
            base64_fits(bytes.len() as int) && #[trigger] base64_encode(bytes) == blob ==> bytes
                == combined,
    ensures
        combined.len() >= NONCE_SIZE,
        combined.subrange(0, NONCE_SIZE as int) == nonce,
        sealable(encode_utf8(plaintext).len() as int),
        aes_gcm_seal(spec_derive_key(password, nonce), nonce, encode_utf8(plaintext)) == Some(
            combined.subrange(NONCE_SIZE as int, combined.len() as int),
        ),
{
    let sealed = aes_gcm_seal(spec_derive_key(password, nonce), nonce, encode_utf8(plaintext));
    let body = sealed->0;
    assert(base64_encode(nonce + body) == blob);
    assert(combined == nonce + body);
    assert(combined.subrange(0, NONCE_SIZE as int) =~= nonce);
    assert(combined.subrange(NONCE_SIZE as int, combined.len() as int) =~= body);
}

/// Opens a blob under `master_password`.
///
/// Every blob that encryption produced under the same password opens to
/// the plaintext it was made from.
pub fn decrypt(master_password: &str, combined_b64: &str) -> (plain: Result<String, CryptError>)
    ensures
        text_result(plain) == spec_decrypt(master_password@, combined_b64@),
        forall|plaintext: Seq<char>, nonce: Seq<u8>|
            nonce.len() == NONCE_SIZE && #[trigger] spec_encrypt(master_password@, plaintext, nonce)
                == Ok::<Seq<char>, CryptError>(combined_b64@) ==> text_result(plain) == Ok::<
                Seq<char>,
                CryptError,
            >(plaintext),
{
    broadcast use vstd::utf8::encode_utf8_valid_utf8, vstd::utf8::encode_utf8_decode_utf8;

    let plain = match base64_decode_text(combined_b64) {
        None => Err(CryptError::DecodeError),
        Some(combined) => {
            if combined.len() < NONCE_SIZE {
                proof {
                    assert forall|plaintext: Seq<char>, nonce: Seq<u8>|
                        nonce.len() == NONCE_SIZE && #[trigger] spec_encrypt(
                            master_password@,
                            plaintext,
                            nonce,
                        ) == Ok::<Seq<char>, CryptError>(combined_b64@) implies false by {
                        lemma_blob_parts(
                            master_password@,
                            plaintext,
                            nonce,
                            combined_b64@,
                            combined@,
                        );
                    }
                }
                Err(CryptError::InvalidFormatError)
            } else {
                let (nonce_bytes, ciphertext) = combined.as_slice().split_at(NONCE_SIZE);
                let key = derive_key(master_password, nonce_bytes);
                let opened = gcm_open(&key, nonce_bytes, ciphertext);
                proof {
                    assert forall|plaintext: Seq<char>, nonce: Seq<u8>|
                        nonce.len() == NONCE_SIZE && #[trigger] spec_encrypt(
                            master_password@,
                            plaintext,
                            nonce,
                        ) == Ok::<Seq<char>, CryptError>(combined_b64@) implies opened matches Some(
                        bytes,
                    ) && bytes@ == encode_utf8(plaintext) by {
                        lemma_blob_parts(
                            master_password@,
                            plaintext,
                            nonce,
                            combined_b64@,
                            combined@,
                        );
                    }
                }
                match opened {
                    None => Err(CryptError::AuthenticationError),
                    Some(decrypted) => match string_from_utf8(decrypted) {
                        Some(text) => Ok(text),
                        None => Err(CryptError::EncodingError),
                    },
                }
            }
        },
    };
    plain
}

} // verus!
