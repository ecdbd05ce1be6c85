//! Key derivation: HKDF-SHA256 and Argon2id.

use vstd::prelude::*;
use rand::RngCore;
use crate::error::CpacError;

verus! {

/// The 32-byte HKDF-SHA256 output key for `ikm`, `salt` and `info`.
pub uninterp spec fn hkdf_sha256_of(ikm: Seq<u8>, salt: Seq<u8>, info: Seq<u8>) -> Seq<u8>;

/// The 32-byte Argon2id (default parameters) raw hash of `password` with `salt`.
pub uninterp spec fn argon2id_of(password: Seq<u8>, salt: Seq<u8>) -> Seq<u8>;

/// HKDF-SHA256 extract-and-expand into 32 bytes.
///
/// Calls `Hkdf::<Sha256>::new(Some(salt), ikm)` and `expand(info, ..)`. The
/// expansion fails only for outputs longer than 255 hash lengths, so for 32
/// bytes it returns the key named by `hkdf_sha256_of`.
#[verifier::external_body]
fn hkdf_expand32(ikm: &[u8], salt: &[u8], info: &[u8]) -> (r: Option<[u8; 32]>)
    ensures
        r is Some,
        r matches Some(k) ==> k@ == hkdf_sha256_of(ikm@, salt@, info@),
{
    let hk = hkdf::Hkdf::<sha2::Sha256>::new(Some(salt), ikm);
    let mut okm = [0u8; 32];
    match hk.expand(info, &mut okm) {
        Ok(()) => Some(okm),
        Err(_) => None,
    }
}

/// Argon2id hash of a password into 32 bytes.
///
/// Calls `Argon2::default().hash_password_into`. The source checks the password
/// length (at most 2³²−1 bytes) and the salt length (8 to 2³²−1 bytes) and
/// refuses nothing else for a 32-byte output; the key is named by `argon2id_of`.
#[verifier::external_body]
fn argon2_hash32(password: &[u8], salt: &[u8]) -> (r: Option<Vec<u8>>)
    ensures
        r is Some <==> (password@.len() <= 0xFFFF_FFFF && 8 <= salt@.len() <= 0xFFFF_FFFF),
        r matches Some(k) ==> k@ == argon2id_of(password@, salt@) && k@.len() == 32,
{
    let mut key = vec![0u8; 32];
    match argon2::Argon2::default().hash_password_into(password, salt, &mut key) {
        Ok(()) => Some(key),
        Err(_) => None,
    }
}

/// `len` random bytes from the operating system's generator.
///
/// Calls `RngCore::fill_bytes` on `OsRng` over a zeroed buffer of `len`
/// bytes (which panics beyond `isize::MAX`); of the bytes nothing is stated
/// but their number.
#[verifier::external_body]
pub(crate) fn os_random_bytes(len: usize) -> (r: Vec<u8>)
    requires
        len <= isize::MAX,
    ensures
        r@.len() == len,
{
    let mut v = vec![0u8; len];
    rand::rngs::OsRng.fill_bytes(&mut v);
    v
}

/// Key-derivation functions named in the `CPHE` v2 header.
#[derive(Clone, Copy, Debug, PartialEq, Eq)]
pub enum KdfAlgorithm {
    /// HKDF with SHA-256.
    HkdfSha256,
}

/// The wire ID of a key-derivation function.
pub open spec fn kdf_wire_id(k: KdfAlgorithm) -> u8 {
    match k {
        KdfAlgorithm::HkdfSha256 => 1,
    }
}

/// The key-derivation function with wire ID `id`, if any.
pub open spec fn kdf_from_wire_id(id: u8) -> Option<KdfAlgorithm> {
    if id == 1 {
        Some(KdfAlgorithm::HkdfSha256)
    } else {
        None
    }
}

impl KdfAlgorithm {
    /// Wire ID.
    pub fn id(self) -> (r: u8)
        ensures
            r == kdf_wire_id(self),
    {
        match self {
            KdfAlgorithm::HkdfSha256 => 1,
        }
    }

    /// Decode from wire ID.
    pub fn from_id(id: u8) -> (r: Result<KdfAlgorithm, CpacError>)
        ensures
            r is Ok <==> kdf_from_wire_id(id) is Some,
            r matches Ok(k) ==> kdf_from_wire_id(id) == Some(k),
            r matches Err(e) ==> e is Encryption,
    {
        if id == 1 {
            Ok(KdfAlgorithm::HkdfSha256)
        } else {
            Err(CpacError::Encryption("unknown KDF algorithm".to_string()))
        }
    }
}

/// Derives a 32-byte key using HKDF-SHA256.
pub fn derive_key_hkdf(ikm: &[u8], salt: &[u8], info: &[u8]) -> (r: Result<[u8; 32], CpacError>)
    ensures
        r is Ok,
        r matches Ok(k) ==> k@ == hkdf_sha256_of(ikm@, salt@, info@),
{
    match hkdf_expand32(ikm, salt, info) {
        Some(k) => Ok(k),
        None => Err(CpacError::Encryption("HKDF expand failed".to_string())),
    }
}

/// The salt handed to Argon2: `salt` padded with zeros to 16 bytes when shorter.
pub open spec fn argon2_salt(salt: Seq<u8>) -> Seq<u8> {
    if salt.len() < 16 {
        salt + Seq::new((16 - salt.len()) as nat, |i: int| 0u8)
    } else {
        salt
    }
}

/// Derives a 32-byte key from a password using Argon2id.
///
/// A salt shorter than 16 bytes is padded with zeros to 16 bytes first.
pub fn derive_key_argon2(password: &[u8], salt: &[u8]) -> (r: Result<Vec<u8>, CpacError>)
    ensures
        r is Ok <==> (password@.len() <= 0xFFFF_FFFF && salt@.len() <= 0xFFFF_FFFF),
        r matches Ok(k) ==> k@ == argon2id_of(password@, argon2_salt(salt@)) && k@.len() == 32,
        r matches Err(e) ==> e is Encryption,
{
    let mut padded: Vec<u8> = Vec::new();
    let mut i: usize = 0;
    while i < salt.len()
        invariant
            i <= salt.len(),
            padded@ == salt@.subrange(0, i as int),
        decreases salt.len() - i,
    {
        padded.push(salt[i]);
        i = i + 1;
        assert(salt@.subrange(0, i as int) == salt@.subrange(0, i - 1) + seq![salt@[i - 1]]);
    }
    assert(salt@.subrange(0, salt@.len() as int) == salt@);
    while padded.len() < 16
        invariant
            salt@.len() < 16 ==> padded@ == salt@ + Seq::new((padded@.len() - salt@.len()) as nat, |j: int| 0u8),
            salt@.len() >= 16 ==> padded@ == salt@,
            padded@.len() >= salt@.len(),
            padded@.len() <= 16 || padded@ == salt@,
        decreases 16 - padded.len(),
    {
        let ghost before = padded@;
        padded.push(0u8);
        assert(padded@ =~= salt@ + Seq::new((padded@.len() - salt@.len()) as nat, |j: int| 0u8)) by {
            assert(before =~= salt@ + Seq::new((before.len() - salt@.len()) as nat, |j: int| 0u8));
        }
    }
    assert(padded@ =~= argon2_salt(salt@));
    match argon2_hash32(password, padded.as_slice()) {
        Some(k) => Ok(k),
        None => Err(CpacError::Encryption("Argon2 failed".to_string())),
    }
}

/// Generates a random 16-byte salt.
pub fn random_salt() -> (r: Vec<u8>)
    ensures
        r@.len() == 16,
{
    os_random_bytes(16)
}

} // verus!
