//! AEAD encryption: ChaCha20-Poly1305 and AES-256-GCM, with empty associated data.

use vstd::prelude::*;
use aes_gcm::aead::Aead;
use aes_gcm::KeyInit;
use rand::RngCore;
use crate::error::CpacError;

verus! {

/// Largest plaintext, in bytes, that both ciphers accept.
pub const AEAD_MAX_PLAINTEXT: u64 = 0x10_0000_0000;

/// Length of the authentication tag appended to each ciphertext.
pub const AEAD_TAG_LEN: usize = 16;

/// ChaCha20-Poly1305 ciphertext (with tag) of `plaintext` under `key` and `nonce`.
pub uninterp spec fn chacha20poly1305_seal(key: Seq<u8>, nonce: Seq<u8>, plaintext: Seq<u8>) -> Seq<u8>;

/// ChaCha20-Poly1305 decryption: the plaintext, or `None` when the tag does not verify.
pub uninterp spec fn chacha20poly1305_open(key: Seq<u8>, nonce: Seq<u8>, ciphertext: Seq<u8>) -> Option<Seq<u8>>;

/// AES-256-GCM ciphertext (with tag) of `plaintext` under `key` and `nonce`.
pub uninterp spec fn aes256gcm_seal(key: Seq<u8>, nonce: Seq<u8>, plaintext: Seq<u8>) -> Seq<u8>;

/// AES-256-GCM decryption: the plaintext, or `None` when the tag does not verify.
pub uninterp spec fn aes256gcm_open(key: Seq<u8>, nonce: Seq<u8>, ciphertext: Seq<u8>) -> Option<Seq<u8>>;

/// ChaCha20-Poly1305 encryption.
///
/// Calls `Aead::encrypt` on `ChaCha20Poly1305::new(key)`. The source refuses only
/// plaintexts of 64·(2³²−1) bytes or more, so below `AEAD_MAX_PLAINTEXT` it
/// returns the ciphertext: the plaintext's length plus the 16-byte tag. Decrypting
/// it under the same key and nonce gives the plaintext back.
#[verifier::external_body]
fn chacha_seal(key: &[u8], nonce: &[u8], plaintext: &[u8]) -> (r: Option<Vec<u8>>)
    requires
        key@.len() == 32,
        nonce@.len() == 12,
    ensures
        plaintext@.len() <= AEAD_MAX_PLAINTEXT ==> r is Some,
        r matches Some(c) ==> c@ == chacha20poly1305_seal(key@, nonce@, plaintext@)
            && c@.len() == plaintext@.len() + 16
            && chacha20poly1305_open(key@, nonce@, c@) == Some(plaintext@),
{
    let cipher = chacha20poly1305::ChaCha20Poly1305::new(key.into());
    cipher.encrypt(chacha20poly1305::Nonce::from_slice(nonce), plaintext).ok()
}

/// ChaCha20-Poly1305 decryption.
///
/// Calls `Aead::decrypt` on `ChaCha20Poly1305::new(key)`; the result is named by
/// `chacha20poly1305_open`.
#[verifier::external_body]
fn chacha_open(key: &[u8], nonce: &[u8], ciphertext: &[u8]) -> (r: Option<Vec<u8>>)
    requires
        key@.len() == 32,
        nonce@.len() == 12,
    ensures
        r is Some <==> chacha20poly1305_open(key@, nonce@, ciphertext@) is Some,
        r matches Some(p) ==> chacha20poly1305_open(key@, nonce@, ciphertext@) == Some(p@),
{
    let cipher = chacha20poly1305::ChaCha20Poly1305::new(key.into());
    cipher.decrypt(chacha20poly1305::Nonce::from_slice(nonce), ciphertext).ok()
}

/// AES-256-GCM encryption.
///
/// Calls `Aead::encrypt` on `Aes256Gcm::new(key)`. The source refuses only
/// plaintexts longer than 2³⁶ bytes; otherwise it returns the ciphertext: the
/// plaintext's length plus the 16-byte tag. Decrypting it under the same key and
/// nonce gives the plaintext back.
#[verifier::external_body]
fn aes_seal(key: &[u8], nonce: &[u8], plaintext: &[u8]) -> (r: Option<Vec<u8>>)
    requires
        key@.len() == 32,
        nonce@.len() == 12,
    ensures
        plaintext@.len() <= AEAD_MAX_PLAINTEXT ==> r is Some,
        r matches Some(c) ==> c@ == aes256gcm_seal(key@, nonce@, plaintext@)
            && c@.len() == plaintext@.len() + 16
            && aes256gcm_open(key@, nonce@, c@) == Some(plaintext@),
{
    let cipher = aes_gcm::Aes256Gcm::new(key.into());
    cipher.encrypt(aes_gcm::Nonce::from_slice(nonce), plaintext).ok()
}

/// AES-256-GCM decryption.
///
/// Calls `Aead::decrypt` on `Aes256Gcm::new(key)`; the result is named by
/// `aes256gcm_open`.
#[verifier::external_body]
fn aes_open(key: &[u8], nonce: &[u8], ciphertext: &[u8]) -> (r: Option<Vec<u8>>)
    requires
        key@.len() == 32,
        nonce@.len() == 12,
    ensures
        r is Some <==> aes256gcm_open(key@, nonce@, ciphertext@) is Some,
        r matches Some(p) ==> aes256gcm_open(key@, nonce@, ciphertext@) == Some(p@),
{
    let cipher = aes_gcm::Aes256Gcm::new(key.into());
    cipher.decrypt(aes_gcm::Nonce::from_slice(nonce), ciphertext).ok()
}

/// `len` random bytes from the thread-local generator.
///
/// Calls `RngCore::fill_bytes` on `rand::thread_rng()` over a zeroed buffer
/// of `len` bytes (which panics beyond `isize::MAX`); of the bytes nothing is
/// stated but their number.
#[verifier::external_body]
pub(crate) fn thread_random_bytes(len: usize) -> (r: Vec<u8>)
    requires
        len <= isize::MAX,
    ensures
        r@.len() == len,
{
    let mut v = vec![0u8; len];
    rand::thread_rng().fill_bytes(&mut v);
    v
}

/// Supported AEAD algorithms.
#[derive(Clone, Copy, Debug, PartialEq, Eq)]
pub enum AeadAlgorithm {
    ChaCha20Poly1305,
    Aes256Gcm,
}

/// The wire ID of an AEAD algorithm.
pub open spec fn aead_wire_id(a: AeadAlgorithm) -> u8 {
    match a {
        AeadAlgorithm::ChaCha20Poly1305 => 1,
        AeadAlgorithm::Aes256Gcm => 2,
    }
}

/// The AEAD algorithm with wire ID `id`, if any.
pub open spec fn aead_from_wire_id(id: u8) -> Option<AeadAlgorithm> {
    if id == 1 {
        Some(AeadAlgorithm::ChaCha20Poly1305)
    } else if id == 2 {
        Some(AeadAlgorithm::Aes256Gcm)
    } else {
        None
    }
}

/// Ciphertext of `plaintext` under the algorithm `a`.
pub open spec fn aead_seal(a: AeadAlgorithm, key: Seq<u8>, nonce: Seq<u8>, plaintext: Seq<u8>) -> Seq<u8> {
    match a {
        AeadAlgorithm::ChaCha20Poly1305 => chacha20poly1305_seal(key, nonce, plaintext),
        AeadAlgorithm::Aes256Gcm => aes256gcm_seal(key, nonce, plaintext),
    }
}

/// Decryption of `ciphertext` under the algorithm `a`.
pub open spec fn aead_open(a: AeadAlgorithm, key: Seq<u8>, nonce: Seq<u8>, ciphertext: Seq<u8>) -> Option<Seq<u8>> {
    match a {
        AeadAlgorithm::ChaCha20Poly1305 => chacha20poly1305_open(key, nonce, ciphertext),
        AeadAlgorithm::Aes256Gcm => aes256gcm_open(key, nonce, ciphertext),
    }
}

impl AeadAlgorithm {
    /// Wire ID for this algorithm.
    pub fn id(self) -> (r: u8)
        ensures
            r == aead_wire_id(self),
    {
        match self {
            AeadAlgorithm::ChaCha20Poly1305 => 1,
            AeadAlgorithm::Aes256Gcm => 2,
        }
    }

    /// Decode from wire ID.
    pub fn from_id(id: u8) -> (r: Result<AeadAlgorithm, CpacError>)
        ensures
            r is Ok <==> aead_from_wire_id(id) is Some,
            r matches Ok(a) ==> aead_from_wire_id(id) == Some(a),
            r matches Err(e) ==> e is Encryption,
    {
        match id {
            1 => Ok(AeadAlgorithm::ChaCha20Poly1305),
            2 => Ok(AeadAlgorithm::Aes256Gcm),
            _ => Err(CpacError::Encryption("unknown AEAD algorithm".to_string())),
        }
    }

    /// Nonce size in bytes: both algorithms use 96-bit nonces.
    pub fn nonce_size(self) -> (r: usize)
        ensures
            r == 12,
    {
        12
    }
}

/// The wire ID names the algorithm back.
pub proof fn lemma_aead_id_roundtrip(a: AeadAlgorithm)
    ensures
        aead_from_wire_id(aead_wire_id(a)) == Some(a),
{
}

/// Encrypts `plaintext` under a 32-byte `key` with a fresh random 12-byte nonce.
///
/// Returns `(nonce, ciphertext)`; the ciphertext decrypts under the same key and
/// nonce to the plaintext.
pub fn encrypt_aead(plaintext: &[u8], key: &[u8], algo: AeadAlgorithm) -> (r: Result<(Vec<u8>, Vec<u8>), CpacError>)
    ensures
        key@.len() != 32 ==> r is Err,
        key@.len() == 32 && plaintext@.len() <= AEAD_MAX_PLAINTEXT ==> r is Ok,
        r matches Err(e) ==> e is Encryption,
        r matches Ok((nonce, ct)) ==> {
            &&& nonce@.len() == 12
            &&& ct@ == aead_seal(algo, key@, nonce@, plaintext@)
            &&& ct@.len() == plaintext@.len() + 16
            &&& aead_open(algo, key@, nonce@, ct@) == Some(plaintext@)
        },
{
    if key.len() != 32 {
        return Err(CpacError::Encryption("key must be 32 bytes".to_string()));
    }
    let nonce = thread_random_bytes(12);
    let sealed = match algo {
        AeadAlgorithm::ChaCha20Poly1305 => chacha_seal(key, nonce.as_slice(), plaintext),
        AeadAlgorithm::Aes256Gcm => aes_seal(key, nonce.as_slice(), plaintext),
    };
    match sealed {
        Some(ct) => Ok((nonce, ct)),
        None => Err(CpacError::Encryption("AEAD encrypt failed".to_string())),
    }
}

/// Decrypts `ciphertext` under a 32-byte `key` and a 12-byte `nonce`.
pub fn decrypt_aead(ciphertext: &[u8], key: &[u8], nonce: &[u8], algo: AeadAlgorithm) -> (r: Result<Vec<u8>, CpacError>)
    ensures
        key@.len() != 32 || nonce@.len() != 12 ==> r is Err,
        r matches Err(e) ==> e is Encryption,
        key@.len() == 32 && nonce@.len() == 12 ==> {
            &&& r is Ok <==> aead_open(algo, key@, nonce@, ciphertext@) is Some
            &&& r matches Ok(p) ==> aead_open(algo, key@, nonce@, ciphertext@) == Some(p@)
        },
{
    if key.len() != 32 {
        return Err(CpacError::Encryption("key must be 32 bytes".to_string()));
    }
    if nonce.len() != 12 {
        return Err(CpacError::Encryption("nonce must be 12 bytes".to_string()));
    }
    let opened = match algo {
        AeadAlgorithm::ChaCha20Poly1305 => chacha_open(key, nonce, ciphertext),
        AeadAlgorithm::Aes256Gcm => aes_open(key, nonce, ciphertext),
    };
    match opened {
        Some(p) => Ok(p),
        None => Err(CpacError::Encryption("AEAD decrypt failed".to_string())),
    }
}

} // verus!
