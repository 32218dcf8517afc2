//! Sealing and opening of plaintexts: AES-256-GCM with a fresh 96-bit nonce,
//! ciphertext (tag appended) and nonce carried as standard base64 text.
use vstd::prelude::*;

use aes_gcm::aead::{Aead, AeadCore, KeyInit, OsRng};
use aes_gcm::Aes256Gcm;
use base64::engine::general_purpose;
use base64::Engine;
use vstd::utf8::*;

use crate::text::text_from_utf8;
use crate::types::{Config, EncryptedFile, JournalError};

verus! {

/// The number of bytes in a storage key.
pub const KEY_LEN: usize = 32;

/// The number of bytes in a nonce.
pub const NONCE_LEN: usize = 12;

/// The number of bytes in an authentication tag.
pub const TAG_LEN: u64 = 16;

/// The longest plaintext the cipher seals, in bytes.
pub const PLAINTEXT_MAX: u64 = 68719476736;

#[verifier::external_type_specification]
#[verifier::external_body]
pub struct ExAeadError(aes_gcm::Error);

#[verifier::external_type_specification]
#[verifier::external_body]
pub struct ExDecodeError(base64::DecodeError);

/// The standard base64 text (with padding) of a byte string.
pub uninterp spec fn base64_of(b: Seq<u8>) -> Seq<char>;

/// The AES-256-GCM ciphertext, tag appended, of `plaintext` under `key` and
/// `nonce`, with no associated data.
pub uninterp spec fn aes_gcm_seal_of(key: Seq<u8>, nonce: Seq<u8>, plaintext: Seq<u8>) -> Seq<u8>;

/// Relies on base64's `STANDARD.encode`: the padded standard base64 text of
/// the input.
#[verifier::external_body]
fn base64_encode(b: &[u8]) -> (r: String)
    requires
        b@.len() <= PLAINTEXT_MAX + TAG_LEN,
    ensures
        r@ == base64_of(b@),
{
    general_purpose::STANDARD.encode(b)
}

/// Relies on base64's `STANDARD.decode`, which requires canonical padding and
/// zero trailing bits: it succeeds exactly on the texts that `encode` gives,
/// and returns the bytes encoded.
#[verifier::external_body]
fn base64_decode(s: &str) -> (r: Result<Vec<u8>, base64::DecodeError>)
    ensures
        r matches Ok(v) ==> base64_of(v@) == s@,
        forall|b: Seq<u8>| #[trigger] base64_of(b) == s@ ==> r is Ok && r->Ok_0@ == b,
{
    general_purpose::STANDARD.decode(s)
}

/// Relies on aes-gcm's `Aes256Gcm::encrypt`: it fails only on a plaintext
/// over `PLAINTEXT_MAX` bytes, and appends a 16-byte tag.
#[verifier::external_body]
fn aes_gcm_encrypt(key: &[u8; 32], nonce: &[u8; 12], plaintext: &[u8]) -> (r: Result<
    Vec<u8>,
    aes_gcm::Error,
>)
    ensures
        r is Ok <==> plaintext@.len() <= PLAINTEXT_MAX,
        r matches Ok(c) ==> c@ == aes_gcm_seal_of(key@, nonce@, plaintext@) && c@.len()
            == plaintext@.len() + TAG_LEN,
{
    Aes256Gcm::new(key.into()).encrypt(nonce.into(), plaintext)
}

/// Relies on aes-gcm's `Aes256Gcm::decrypt`: it takes the last 16 bytes as
/// the tag and succeeds exactly when the tag checks, that is when the input
/// is the sealing of some plaintext under this key and nonce, and then
/// returns that plaintext. Inputs are limited to the sealings of plaintexts
/// up to `PLAINTEXT_MAX` bytes.
#[verifier::external_body]
fn aes_gcm_decrypt(key: &[u8; 32], nonce: &[u8; 12], ciphertext: &[u8]) -> (r: Result<
    Vec<u8>,
    aes_gcm::Error,
>)
    requires
        ciphertext@.len() <= PLAINTEXT_MAX + TAG_LEN,
    ensures
        r matches Ok(p) ==> p@.len() + TAG_LEN == ciphertext@.len() && aes_gcm_seal_of(
            key@,
            nonce@,
            p@,
        ) == ciphertext@,
        forall|p: Seq<u8>|
            p.len() <= PLAINTEXT_MAX && #[trigger] aes_gcm_seal_of(key@, nonce@, p)
                == ciphertext@ ==> r is Ok && r->Ok_0@ == p,
{
    Aes256Gcm::new(key.into()).decrypt(nonce.into(), ciphertext)
}

/// Relies on aes-gcm's `generate_nonce` with the operating system's random
/// source: a fresh random nonce, of which nothing more is known.
#[verifier::external_body]
pub(crate) fn random_nonce() -> (r: [u8; 12]) {
    Aes256Gcm::generate_nonce(&mut OsRng).into()
}

/// Whether `content` and `nonce` are the texts of `plaintext` sealed under
/// `key` with the nonce `n`: the ciphertext is the plaintext's length plus
/// the 16-byte tag.
pub open spec fn sealed_as(
    content: Seq<char>,
    nonce: Seq<char>,
    key: Seq<u8>,
    n: Seq<u8>,
    plaintext: Seq<u8>,
) -> bool {
    &&& n.len() == NONCE_LEN
    &&& plaintext.len() <= PLAINTEXT_MAX
    &&& aes_gcm_seal_of(key, n, plaintext).len() == plaintext.len() + TAG_LEN
    &&& content == base64_of(aes_gcm_seal_of(key, n, plaintext))
    &&& nonce == base64_of(n)
}

/// The key that a secret stands for: its UTF-8 bytes, which must be exactly
/// `KEY_LEN` long; no padding, truncation or derivation.
pub fn get_key(secret: String) -> (r: Result<[u8; 32], JournalError>)
    ensures
        r is Ok <==> encode_utf8(secret@).len() == KEY_LEN,
        r matches Ok(k) ==> k@ == encode_utf8(secret@),
        r matches Err(e) ==> e == JournalError::CryptoError,
{
    let bytes = secret.as_str().as_bytes();
    if bytes.len() != KEY_LEN {
        return Err(JournalError::CryptoError);
    }
    let mut key: [u8; 32] = [0u8; 32];
    let mut i: usize = 0;
    while i < KEY_LEN
        invariant
            i <= KEY_LEN,
            bytes@.len() == KEY_LEN,
            forall|k: int| 0 <= k < i ==> key@[k] == bytes@[k],
        decreases KEY_LEN - i,
    {
        key[i] = bytes[i];
        i += 1;
    }
    assert(key@ =~= bytes@);
    Ok(key)
}

impl Config {
    /// The storage key of this configuration: `CryptoError` unless the
    /// secret is exactly `KEY_LEN` bytes long.
    pub fn key(&self) -> (r: Result<[u8; 32], JournalError>)
        ensures
            r is Ok <==> encode_utf8(self.secret@).len() == KEY_LEN,
            r matches Ok(k) ==> k@ == encode_utf8(self.secret@),
            r matches Err(e) ==> e == JournalError::CryptoError,
    {
        get_key(self.secret.clone())
    }
}

/// Seals `plaintext` under `key` with the given nonce.
pub fn seal_with_nonce(plaintext: &[u8], key: &[u8; 32], nonce: &[u8; 12]) -> (r: Result<
    EncryptedFile,
    JournalError,
>)
    ensures
        r is Ok <==> plaintext@.len() <= PLAINTEXT_MAX,
        r matches Ok(e) ==> sealed_as(e.content@, e.nonce@, key@, nonce@, plaintext@),
        r matches Err(e) ==> e == JournalError::CryptoError,
{
    match aes_gcm_encrypt(key, nonce, plaintext) {
        Ok(c) => {
            let content = base64_encode(c.as_slice());
            let nonce_text = base64_encode(nonce.as_slice());
            Ok(EncryptedFile { content, nonce: nonce_text })
        },
        Err(_) => Err(JournalError::CryptoError),
    }
}

/// Seals `plaintext` under `key` with a fresh random nonce.
pub fn seal(plaintext: &[u8], key: &[u8; 32]) -> (r: Result<EncryptedFile, JournalError>)
    ensures
        r is Ok <==> plaintext@.len() <= PLAINTEXT_MAX,
        r matches Ok(e) ==> exists|n: Seq<u8>| #[trigger] sealed_as(e.content@, e.nonce@, key@, n, plaintext@),
        r matches Err(e) ==> e == JournalError::CryptoError,
{
    let nonce = random_nonce();
    seal_with_nonce(plaintext, key, &nonce)
}

/// Seals a text under `key` with a fresh random nonce: the base64 ciphertext
/// and the base64 nonce.
pub fn encrypt_data(plaintext: &str, key: &[u8; 32]) -> (r: Result<(String, String), JournalError>)
    ensures
        r is Ok <==> encode_utf8(plaintext@).len() <= PLAINTEXT_MAX,
        r matches Ok((c, n)) ==> exists|m: Seq<u8>| #[trigger] sealed_as(c@, n@, key@, m, encode_utf8(plaintext@)),
        r matches Err(e) ==> e == JournalError::CryptoError,
{
    let bytes = plaintext.as_bytes();
    assert(bytes@ == encode_utf8(plaintext@));
    match seal(bytes, key) {
        Ok(e) => {
            let ghost n = choose|n: Seq<u8>| sealed_as(e.content@, e.nonce@, key@, n, bytes@);
            let r: Result<(String, String), JournalError> = Ok((e.content, e.nonce));
            assert(sealed_as(r->Ok_0.0@, r->Ok_0.1@, key@, n, encode_utf8(plaintext@)));
            r
        },
        Err(e) => Err(e),
    }
}

/// Opens the texts of a sealed plaintext under `key`: `CryptoError` unless
/// they are base64 texts of a nonce and of a sealing under `key` with it.
pub fn open(content: &str, nonce: &str, key: &[u8; 32]) -> (r: Result<Vec<u8>, JournalError>)
    ensures
        r matches Ok(p) ==> exists|n: Seq<u8>| #[trigger] sealed_as(content@, nonce@, key@, n, p@),
        forall|n: Seq<u8>, p: Seq<u8>| #[trigger]
            sealed_as(content@, nonce@, key@, n, p) ==> (r matches Ok(v) && v@ == p),
        r matches Err(e) ==> e == JournalError::CryptoError,
{
    let c = match base64_decode(content) {
        Ok(c) => c,
        Err(_) => return Err(JournalError::CryptoError),
    };
    let n = match base64_decode(nonce) {
        Ok(n) => n,
        Err(_) => return Err(JournalError::CryptoError),
    };
    if n.len() != NONCE_LEN {
        return Err(JournalError::CryptoError);
    }
    let mut nonce_bytes: [u8; 12] = [0u8; 12];
    let mut i: usize = 0;
    while i < NONCE_LEN
        invariant
            i <= NONCE_LEN,
            n@.len() == NONCE_LEN,
            forall|k: int| 0 <= k < i ==> nonce_bytes@[k] == n@[k],
        decreases NONCE_LEN - i,
    {
        nonce_bytes[i] = n[i];
        i += 1;
    }
    assert(nonce_bytes@ =~= n@);
    if c.len() as u64 > PLAINTEXT_MAX + TAG_LEN {
        return Err(JournalError::CryptoError);
    }
    match aes_gcm_decrypt(key, &nonce_bytes, c.as_slice()) {
        Ok(p) => {
            let r: Result<Vec<u8>, JournalError> = Ok(p);
            assert(sealed_as(content@, nonce@, key@, n@, r->Ok_0@));
            r
        },
        Err(_) => Err(JournalError::CryptoError),
    }
}

/// Opens a sealed text under `key`: `CryptoError` where `open` fails or the
/// plaintext is not valid UTF-8.
pub fn decrypt_data(ciphertext_b64: &str, nonce_b64: &str, key: &[u8; 32]) -> (r: Result<
    String,
    JournalError,
>)
    ensures
        r matches Ok(s) ==> exists|n: Seq<u8>|
            #[trigger] sealed_as(ciphertext_b64@, nonce_b64@, key@, n, encode_utf8(s@)),
        forall|n: Seq<u8>, p: Seq<u8>| #[trigger]
            sealed_as(ciphertext_b64@, nonce_b64@, key@, n, p) && valid_utf8(p) ==> (r matches Ok(
                s,
            ) && encode_utf8(s@) == p),
        forall|n: Seq<u8>, p: Seq<u8>| #[trigger]
            sealed_as(ciphertext_b64@, nonce_b64@, key@, n, p) && !valid_utf8(p) ==> r
                == Err::<String, JournalError>(JournalError::CryptoError),
        r matches Err(e) ==> e == JournalError::CryptoError,
{
    broadcast use decode_utf8_encode_utf8;

    match open(ciphertext_b64, nonce_b64, key) {
        Ok(p) => match text_from_utf8(p) {
            Some(s) => {
                let ghost n = choose|n: Seq<u8>|
                    sealed_as(ciphertext_b64@, nonce_b64@, key@, n, p@);
                let r: Result<String, JournalError> = Ok(s);
                assert(sealed_as(ciphertext_b64@, nonce_b64@, key@, n, encode_utf8(r->Ok_0@)));
                r
            },
            None => Err(JournalError::CryptoError),
        },
        Err(e) => Err(e),
    }
}

} // verus!
