//! HQC (Hamming Quasi-Cyclic) key encapsulation: HQC-128, HQC-192 and HQC-256.

use vstd::prelude::*;
use pqcrypto_traits::kem::{Ciphertext, PublicKey, SecretKey, SharedSecret};
use crate::error::CpacError;

verus! {

/// HQC shared-secret length (all levels).
pub const HQC_SS_LEN: usize = 64;

/// The HQC-128 shared secret that secret key `sk` recovers from `ct`.
pub uninterp spec fn hqc128_decaps_of(ct: Seq<u8>, sk: Seq<u8>) -> Seq<u8>;

/// Whether `(ct, ss)` is what HQC-128 encapsulation against the public key
/// `pk` gives for some message and salt it draws.
pub uninterp spec fn hqc128_encapsulates(pk: Seq<u8>, ct: Seq<u8>, ss: Seq<u8>) -> bool;

/// The HQC-192 shared secret that secret key `sk` recovers from `ct`.
pub uninterp spec fn hqc192_decaps_of(ct: Seq<u8>, sk: Seq<u8>) -> Seq<u8>;

/// Whether `(ct, ss)` is what HQC-192 encapsulation against the public key
/// `pk` gives for some message and salt it draws.
pub uninterp spec fn hqc192_encapsulates(pk: Seq<u8>, ct: Seq<u8>, ss: Seq<u8>) -> bool;

/// The HQC-256 shared secret that secret key `sk` recovers from `ct`.
pub uninterp spec fn hqc256_decaps_of(ct: Seq<u8>, sk: Seq<u8>) -> Seq<u8>;

/// Whether `(ct, ss)` is what HQC-256 encapsulation against the public key
/// `pk` gives for some message and salt it draws.
pub uninterp spec fn hqc256_encapsulates(pk: Seq<u8>, ct: Seq<u8>, ss: Seq<u8>) -> bool;

/// A fresh HQC-128 key pair `(public key, secret key)`.
///
/// Calls `pqcrypto_hqc::hqc128::keypair` and `as_bytes`. The secret key is the
/// secret seed (40 bytes), the vector sigma and then the public key;
/// the random key material is not stated.
#[verifier::external_body]
fn hqc128_keypair() -> (r: (Vec<u8>, Vec<u8>))
    ensures
        r.0@.len() == 2249,
        r.1@.len() == 2305,
        r.1@.subrange(56, 2305) == r.0@,
{
    let (pk, sk) = pqcrypto_hqc::hqc128::keypair();
    (pk.as_bytes().to_vec(), sk.as_bytes().to_vec())
}

/// HQC-128 encapsulation against an encoded public key.
///
/// Calls `PublicKey::from_bytes` (which accepts exactly 2249 bytes) and
/// `pqcrypto_hqc::hqc128::encapsulate`; returns `(ciphertext, shared secret)`.
/// The pair is one that encapsulating against `pk` gives
/// (`hqc128_encapsulates`); which message and salt were drawn is not stated.
#[verifier::external_body]
fn hqc128_encapsulate(pk: &[u8]) -> (r: (Vec<u8>, Vec<u8>))
    requires
        pk@.len() == 2249,
    ensures
        r.0@.len() == 4433,
        r.1@.len() == HQC_SS_LEN,
        hqc128_encapsulates(pk@, r.0@, r.1@),
{
    let key = pqcrypto_hqc::hqc128::PublicKey::from_bytes(pk).unwrap();
    let (ss, ct) = pqcrypto_hqc::hqc128::encapsulate(&key);
    (ct.as_bytes().to_vec(), ss.as_bytes().to_vec())
}

/// HQC-128 decapsulation.
///
/// Calls `SecretKey::from_bytes`, `Ciphertext::from_bytes` (each accepting
/// exactly its length) and `pqcrypto_hqc::hqc128::decapsulate`; the secret is
/// named by `hqc128_decaps_of`.
#[verifier::external_body]
fn hqc128_decapsulate(ct: &[u8], sk: &[u8]) -> (r: Vec<u8>)
    requires
        ct@.len() == 4433,
        sk@.len() == 2305,
    ensures
        r@ == hqc128_decaps_of(ct@, sk@),
        r@.len() == HQC_SS_LEN,
{
    let key = pqcrypto_hqc::hqc128::SecretKey::from_bytes(sk).unwrap();
    let c = pqcrypto_hqc::hqc128::Ciphertext::from_bytes(ct).unwrap();
    pqcrypto_hqc::hqc128::decapsulate(&c, &key).as_bytes().to_vec()
}
/// A fresh HQC-192 key pair `(public key, secret key)`.
///
/// Calls `pqcrypto_hqc::hqc192::keypair` and `as_bytes`. The secret key is the
/// secret seed (40 bytes), the vector sigma and then the public key;
/// the random key material is not stated.
#[verifier::external_body]
fn hqc192_keypair() -> (r: (Vec<u8>, Vec<u8>))
    ensures
        r.0@.len() == 4522,
        r.1@.len() == 4586,
        r.1@.subrange(64, 4586) == r.0@,
{
    let (pk, sk) = pqcrypto_hqc::hqc192::keypair();
    (pk.as_bytes().to_vec(), sk.as_bytes().to_vec())
}

/// HQC-192 encapsulation against an encoded public key.
///
/// Calls `PublicKey::from_bytes` (which accepts exactly 4522 bytes) and
/// `pqcrypto_hqc::hqc192::encapsulate`; returns `(ciphertext, shared secret)`.
/// The pair is one that encapsulating against `pk` gives
/// (`hqc192_encapsulates`); which message and salt were drawn is not stated.
#[verifier::external_body]
fn hqc192_encapsulate(pk: &[u8]) -> (r: (Vec<u8>, Vec<u8>))
    requires
        pk@.len() == 4522,
    ensures
        r.0@.len() == 8978,
        r.1@.len() == HQC_SS_LEN,
        hqc192_encapsulates(pk@, r.0@, r.1@),
{
    let key = pqcrypto_hqc::hqc192::PublicKey::from_bytes(pk).unwrap();
    let (ss, ct) = pqcrypto_hqc::hqc192::encapsulate(&key);
    (ct.as_bytes().to_vec(), ss.as_bytes().to_vec())
}

/// HQC-192 decapsulation.
///
/// Calls `SecretKey::from_bytes`, `Ciphertext::from_bytes` (each accepting
/// exactly its length) and `pqcrypto_hqc::hqc192::decapsulate`; the secret is
/// named by `hqc192_decaps_of`.
#[verifier::external_body]
fn hqc192_decapsulate(ct: &[u8], sk: &[u8]) -> (r: Vec<u8>)
    requires
        ct@.len() == 8978,
        sk@.len() == 4586,
    ensures
        r@ == hqc192_decaps_of(ct@, sk@),
        r@.len() == HQC_SS_LEN,
{
    let key = pqcrypto_hqc::hqc192::SecretKey::from_bytes(sk).unwrap();
    let c = pqcrypto_hqc::hqc192::Ciphertext::from_bytes(ct).unwrap();
    pqcrypto_hqc::hqc192::decapsulate(&c, &key).as_bytes().to_vec()
}
/// A fresh HQC-256 key pair `(public key, secret key)`.
///
/// Calls `pqcrypto_hqc::hqc256::keypair` and `as_bytes`. The secret key is the
/// secret seed (40 bytes), the vector sigma and then the public key;
/// the random key material is not stated.
#[verifier::external_body]
fn hqc256_keypair() -> (r: (Vec<u8>, Vec<u8>))
    ensures
        r.0@.len() == 7245,
        r.1@.len() == 7317,
        r.1@.subrange(72, 7317) == r.0@,
{
    let (pk, sk) = pqcrypto_hqc::hqc256::keypair();
    (pk.as_bytes().to_vec(), sk.as_bytes().to_vec())
}

/// HQC-256 encapsulation against an encoded public key.
///
/// Calls `PublicKey::from_bytes` (which accepts exactly 7245 bytes) and
/// `pqcrypto_hqc::hqc256::encapsulate`; returns `(ciphertext, shared secret)`.
/// The pair is one that encapsulating against `pk` gives
/// (`hqc256_encapsulates`); which message and salt were drawn is not stated.
#[verifier::external_body]
fn hqc256_encapsulate(pk: &[u8]) -> (r: (Vec<u8>, Vec<u8>))
    requires
        pk@.len() == 7245,
    ensures
        r.0@.len() == 14421,
        r.1@.len() == HQC_SS_LEN,
        hqc256_encapsulates(pk@, r.0@, r.1@),
{
    let key = pqcrypto_hqc::hqc256::PublicKey::from_bytes(pk).unwrap();
    let (ss, ct) = pqcrypto_hqc::hqc256::encapsulate(&key);
    (ct.as_bytes().to_vec(), ss.as_bytes().to_vec())
}

/// HQC-256 decapsulation.
///
/// Calls `SecretKey::from_bytes`, `Ciphertext::from_bytes` (each accepting
/// exactly its length) and `pqcrypto_hqc::hqc256::decapsulate`; the secret is
/// named by `hqc256_decaps_of`.
#[verifier::external_body]
fn hqc256_decapsulate(ct: &[u8], sk: &[u8]) -> (r: Vec<u8>)
    requires
        ct@.len() == 14421,
        sk@.len() == 7317,
    ensures
        r@ == hqc256_decaps_of(ct@, sk@),
        r@.len() == HQC_SS_LEN,
{
    let key = pqcrypto_hqc::hqc256::SecretKey::from_bytes(sk).unwrap();
    let c = pqcrypto_hqc::hqc256::Ciphertext::from_bytes(ct).unwrap();
    pqcrypto_hqc::hqc256::decapsulate(&c, &key).as_bytes().to_vec()
}

/// HQC security level.
#[derive(Clone, Copy, Debug, PartialEq, Eq)]
pub enum HqcLevel {
    /// HQC-128 (NIST level 1).
    Hqc128,
    /// HQC-192 (NIST level 3).
    Hqc192,
    /// HQC-256 (NIST level 5).
    Hqc256,
}

/// The wire ID of an HQC level.
pub open spec fn hqc_wire_id(l: HqcLevel) -> u8 {
    match l {
        HqcLevel::Hqc128 => 30,
        HqcLevel::Hqc192 => 31,
        HqcLevel::Hqc256 => 32,
    }
}

/// The HQC level with wire ID `id`, if any.
pub open spec fn hqc_from_wire_id(id: u8) -> Option<HqcLevel> {
    if id == 30 {
        Some(HqcLevel::Hqc128)
    } else if id == 31 {
        Some(HqcLevel::Hqc192)
    } else if id == 32 {
        Some(HqcLevel::Hqc256)
    } else {
        None
    }
}

/// The human-readable label of an HQC level.
pub open spec fn hqc_label(l: HqcLevel) -> Seq<char> {
    match l {
        HqcLevel::Hqc128 => "HQC-128"@,
        HqcLevel::Hqc192 => "HQC-192"@,
        HqcLevel::Hqc256 => "HQC-256"@,
    }
}

/// Public-key length of an HQC level.
pub open spec fn hqc_pk_len(l: HqcLevel) -> nat {
    match l {
        HqcLevel::Hqc128 => 2249,
        HqcLevel::Hqc192 => 4522,
        HqcLevel::Hqc256 => 7245,
    }
}

/// Secret-key length of an HQC level.
pub open spec fn hqc_sk_len(l: HqcLevel) -> nat {
    match l {
        HqcLevel::Hqc128 => 2305,
        HqcLevel::Hqc192 => 4586,
        HqcLevel::Hqc256 => 7317,
    }
}

/// Ciphertext length of an HQC level.
pub open spec fn hqc_ct_len(l: HqcLevel) -> nat {
    match l {
        HqcLevel::Hqc128 => 4433,
        HqcLevel::Hqc192 => 8978,
        HqcLevel::Hqc256 => 14421,
    }
}

/// Whether `(ct, ss)` is what encapsulation at level `l` against `pk` gives.
pub open spec fn hqc_encapsulates(l: HqcLevel, pk: Seq<u8>, ct: Seq<u8>, ss: Seq<u8>) -> bool {
    match l {
        HqcLevel::Hqc128 => hqc128_encapsulates(pk, ct, ss),
        HqcLevel::Hqc192 => hqc192_encapsulates(pk, ct, ss),
        HqcLevel::Hqc256 => hqc256_encapsulates(pk, ct, ss),
    }
}

/// The shared secret that decapsulation at level `l` yields.
pub open spec fn hqc_decaps_of(l: HqcLevel, ct: Seq<u8>, sk: Seq<u8>) -> Seq<u8> {
    match l {
        HqcLevel::Hqc128 => hqc128_decaps_of(ct, sk),
        HqcLevel::Hqc192 => hqc192_decaps_of(ct, sk),
        HqcLevel::Hqc256 => hqc256_decaps_of(ct, sk),
    }
}

impl HqcLevel {
    /// Wire ID.
    pub fn id(self) -> (r: u8)
        ensures
            r == hqc_wire_id(self),
    {
        match self {
            HqcLevel::Hqc128 => 30,
            HqcLevel::Hqc192 => 31,
            HqcLevel::Hqc256 => 32,
        }
    }

    /// Decode from wire ID.
    pub fn from_id(id: u8) -> (r: Result<HqcLevel, CpacError>)
        ensures
            r is Ok <==> hqc_from_wire_id(id) is Some,
            r matches Ok(l) ==> hqc_from_wire_id(id) == Some(l),
            r matches Err(e) ==> e is Encryption,
    {
        match id {
            30 => Ok(HqcLevel::Hqc128),
            31 => Ok(HqcLevel::Hqc192),
            32 => Ok(HqcLevel::Hqc256),
            _ => Err(CpacError::Encryption("unknown HQC level ID".to_string())),
        }
    }

    /// Human-readable label.
    pub fn label(self) -> (r: &'static str)
        ensures
            r@ == hqc_label(self),
    {
        match self {
            HqcLevel::Hqc128 => "HQC-128",
            HqcLevel::Hqc192 => "HQC-192",
            HqcLevel::Hqc256 => "HQC-256",
        }
    }
}

/// The wire ID names the level back.
pub proof fn lemma_hqc_id_roundtrip(l: HqcLevel)
    ensures
        hqc_from_wire_id(hqc_wire_id(l)) == Some(l),
{
}

/// An HQC key pair.
#[derive(Clone)]
pub struct HqcKeyPair {
    pub level: HqcLevel,
    pub public_key: Vec<u8>,
    pub secret_key: Vec<u8>,
}

/// Generates an HQC key pair.
pub fn hqc_keygen(level: HqcLevel) -> (r: Result<HqcKeyPair, CpacError>)
    ensures
        r matches Ok(kp) && kp.level == level && kp.public_key@.len() == hqc_pk_len(level)
            && kp.secret_key@.len() == hqc_sk_len(level)
            && kp.secret_key@.subrange(hqc_sk_len(level) - hqc_pk_len(level), hqc_sk_len(level) as int) == kp.public_key@,
{
    let (pk, sk) = match level {
        HqcLevel::Hqc128 => hqc128_keypair(),
        HqcLevel::Hqc192 => hqc192_keypair(),
        HqcLevel::Hqc256 => hqc256_keypair(),
    };
    Ok(HqcKeyPair { level, public_key: pk, secret_key: sk })
}

/// Encapsulates against an HQC public key; returns `(ciphertext, shared secret)`.
pub fn hqc_encapsulate(public_key: &[u8], level: HqcLevel) -> (r: Result<(Vec<u8>, Vec<u8>), CpacError>)
    ensures
        r is Ok <==> public_key@.len() == hqc_pk_len(level),
        r matches Err(e) ==> e is Encryption,
        r matches Ok((ct, ss)) ==> ct@.len() == hqc_ct_len(level) && ss@.len() == HQC_SS_LEN
            && hqc_encapsulates(level, public_key@, ct@, ss@),
{
    match level {
        HqcLevel::Hqc128 => {
            if public_key.len() != 2249 {
                return Err(CpacError::Encryption("HQC-128 bad pk".to_string()));
            }
            Ok(hqc128_encapsulate(public_key))
        },
        HqcLevel::Hqc192 => {
            if public_key.len() != 4522 {
                return Err(CpacError::Encryption("HQC-192 bad pk".to_string()));
            }
            Ok(hqc192_encapsulate(public_key))
        },
        HqcLevel::Hqc256 => {
            if public_key.len() != 7245 {
                return Err(CpacError::Encryption("HQC-256 bad pk".to_string()));
            }
            Ok(hqc256_encapsulate(public_key))
        },
    }
}

/// Decapsulates an HQC ciphertext with the secret key.
pub fn hqc_decapsulate(ciphertext: &[u8], secret_key: &[u8], level: HqcLevel) -> (r: Result<Vec<u8>, CpacError>)
    ensures
        r is Ok <==> (secret_key@.len() == hqc_sk_len(level) && ciphertext@.len() == hqc_ct_len(level)),
        r matches Err(e) ==> e is Encryption,
        r matches Ok(ss) ==> ss@ == hqc_decaps_of(level, ciphertext@, secret_key@),
{
    match level {
        HqcLevel::Hqc128 => {
            if secret_key.len() != 2305 {
                return Err(CpacError::Encryption("HQC-128 bad sk".to_string()));
            }
            if ciphertext.len() != 4433 {
                return Err(CpacError::Encryption("HQC-128 bad ct".to_string()));
            }
            Ok(hqc128_decapsulate(ciphertext, secret_key))
        },
        HqcLevel::Hqc192 => {
            if secret_key.len() != 4586 {
                return Err(CpacError::Encryption("HQC-192 bad sk".to_string()));
            }
            if ciphertext.len() != 8978 {
                return Err(CpacError::Encryption("HQC-192 bad ct".to_string()));
            }
            Ok(hqc192_decapsulate(ciphertext, secret_key))
        },
        HqcLevel::Hqc256 => {
            if secret_key.len() != 7317 {
                return Err(CpacError::Encryption("HQC-256 bad sk".to_string()));
            }
            if ciphertext.len() != 14421 {
                return Err(CpacError::Encryption("HQC-256 bad ct".to_string()));
            }
            Ok(hqc256_decapsulate(ciphertext, secret_key))
        },
    }
}

} // verus!
