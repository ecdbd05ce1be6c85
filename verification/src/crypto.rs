//! Cryptographic primitives: AEAD encryption, key derivation, key exchange,
//! signatures, post-quantum KEM and signatures, the hybrid `CPHE` / `CPHS`
//! frames, and password-based encryption.

pub mod aead;
pub mod kdf;
pub mod keys;
pub mod sign;
pub mod pqc;
pub mod hqc;
pub mod hybrid;
pub mod files;

use vstd::prelude::*;
use crate::error::CpacError;
use crate::crypto::aead::{AeadAlgorithm, aead_open, aead_seal, encrypt_aead, decrypt_aead, AEAD_MAX_PLAINTEXT};
use crate::crypto::kdf::{argon2id_of, argon2_salt, derive_key_argon2, random_salt};

verus! {

/// Encrypts `data` with a password: Argon2id derives the key from the password
/// and a fresh random 16-byte salt, then the AEAD encrypts.
///
/// Returns `(salt, nonce, ciphertext)`; decrypting with the same password, salt
/// and nonce gives `data` back.
pub fn encrypt_with_password(data: &[u8], password: &[u8], algo: AeadAlgorithm) -> (r: Result<(Vec<u8>, Vec<u8>, Vec<u8>), CpacError>)
    ensures
        r is Ok ==> password@.len() <= 0xFFFF_FFFF,
        password@.len() <= 0xFFFF_FFFF && data@.len() <= AEAD_MAX_PLAINTEXT ==> r is Ok,
        r matches Err(e) ==> e is Encryption,
        r matches Ok((salt, nonce, ct)) ==> {
            &&& salt@.len() == 16
            &&& nonce@.len() == 12
            &&& ct@ == aead_seal(algo, argon2id_of(password@, salt@), nonce@, data@)
            &&& aead_open(algo, argon2id_of(password@, argon2_salt(salt@)), nonce@, ct@) == Some(data@)
        },
{
    let salt = random_salt();
    let key = match derive_key_argon2(password, salt.as_slice()) {
        Ok(k) => k,
        Err(e) => return Err(e),
    };
    assert(argon2_salt(salt@) == salt@);
    match encrypt_aead(data, key.as_slice(), algo) {
        Ok((nonce, ct)) => Ok((salt, nonce, ct)),
        Err(e) => Err(e),
    }
}

/// Decrypts data encrypted with a password.
pub fn decrypt_with_password(ciphertext: &[u8], password: &[u8], salt: &[u8], nonce: &[u8], algo: AeadAlgorithm) -> (r: Result<Vec<u8>, CpacError>)
    ensures
        r is Ok <==> (password@.len() <= 0xFFFF_FFFF && salt@.len() <= 0xFFFF_FFFF && nonce@.len() == 12
            && aead_open(algo, argon2id_of(password@, argon2_salt(salt@)), nonce@, ciphertext@) is Some),
        r matches Ok(p) ==> aead_open(algo, argon2id_of(password@, argon2_salt(salt@)), nonce@, ciphertext@) == Some(p@),
        r matches Err(e) ==> e is Encryption,
{
    let key = match derive_key_argon2(password, salt) {
        Ok(k) => k,
        Err(e) => return Err(e),
    };
    decrypt_aead(ciphertext, key.as_slice(), nonce, algo)
}

} // verus!
