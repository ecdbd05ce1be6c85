//! Post-quantum cryptography: ML-KEM-768 (FIPS 203) key encapsulation and
//! ML-DSA-65 (FIPS 204) signatures.

use vstd::prelude::*;
use ml_kem::{EncodedSizeUser, KemCore};
use ml_kem::EncapsulateDeterministic;
use ml_kem::kem::Decapsulate;
use crate::error::CpacError;
use crate::crypto::aead::thread_random_bytes;

verus! {

/// ML-KEM-768 encapsulation-key length.
pub const MLKEM768_EK_LEN: usize = 1184;
/// ML-KEM-768 decapsulation-key length.
pub const MLKEM768_DK_LEN: usize = 2400;
/// ML-KEM-768 ciphertext length.
pub const MLKEM768_CT_LEN: usize = 1088;
/// ML-KEM shared-secret length.
pub const MLKEM_SS_LEN: usize = 32;
/// ML-DSA-65 seed (secret key) length.
pub const MLDSA65_SEED_LEN: usize = 32;
/// ML-DSA-65 verifying-key length.
pub const MLDSA65_VK_LEN: usize = 1952;
/// ML-DSA-65 signature length.
pub const MLDSA65_SIG_LEN: usize = 3309;

/// The ML-KEM-768 shared secret that decapsulation key `dk` recovers from `ct`.
pub uninterp spec fn mlkem768_decaps_of(dk: Seq<u8>, ct: Seq<u8>) -> Seq<u8>;

/// The ML-KEM-768 `(ciphertext, shared secret)` that encapsulating against the
/// encoded encapsulation key `ek` with the 32-byte message `m` gives.
pub uninterp spec fn mlkem768_encaps_of(ek: Seq<u8>, m: Seq<u8>) -> (Seq<u8>, Seq<u8>);

/// `(ct, ss)` is what encapsulating against `ek` gives for some 32-byte
/// message.
pub open spec fn is_mlkem768_encapsulation(ek: Seq<u8>, ct: Seq<u8>, ss: Seq<u8>) -> bool {
    exists|m: Seq<u8>| m.len() == 32 && (ct, ss) == #[trigger] mlkem768_encaps_of(ek, m)
}

/// The encoded ML-DSA-65 verifying key of the signing key grown from `seed`.
pub uninterp spec fn mldsa65_vk_of(seed: Seq<u8>) -> Seq<u8>;

/// The deterministic ML-DSA-65 signature of `msg` under the key grown from `seed`
/// (empty context), or `None` when signing fails.
pub uninterp spec fn mldsa65_sign_of(seed: Seq<u8>, msg: Seq<u8>) -> Option<Seq<u8>>;

/// ML-DSA-65 verification (empty context): `None` when the signature bytes do
/// not decode, else whether the signature is valid.
pub uninterp spec fn mldsa65_verify_of(vk: Seq<u8>, msg: Seq<u8>, sig: Seq<u8>) -> Option<bool>;

/// A fresh ML-KEM-768 key pair `(decapsulation key, encapsulation key)`.
///
/// Calls `MlKem768::generate` with the thread-local generator and encodes both
/// keys. The decapsulation key's encoding is the decryption key (1152 bytes),
/// the encapsulation key, its hash and the implicit-rejection secret, so the
/// encapsulation key stands at bytes 1152 to 2336 of it; the random key
/// material is not stated.
#[verifier::external_body]
fn mlkem768_generate() -> (r: (Vec<u8>, Vec<u8>))
    ensures
        r.0@.len() == MLKEM768_DK_LEN,
        r.1@.len() == MLKEM768_EK_LEN,
        r.0@.subrange(1152, 2336) == r.1@,
{
    let (dk, ek) = ml_kem::MlKem768::generate(&mut rand::thread_rng());
    (dk.as_bytes().as_slice().to_vec(), ek.as_bytes().as_slice().to_vec())
}

/// ML-KEM-768 encapsulation of the 32-byte message `m` against an encoded
/// encapsulation key.
///
/// Calls `EncapsulationKey::from_bytes` and
/// `EncapsulateDeterministic::encapsulate_deterministic`, which the source
/// never fails (it is the step `Encapsulate::encapsulate` takes after drawing
/// `m`); returns `(ciphertext, shared secret)`, named by `mlkem768_encaps_of`.
#[verifier::external_body]
fn mlkem768_encapsulate(ek: &[u8], m: &[u8]) -> (r: (Vec<u8>, Vec<u8>))
    requires
        ek@.len() == MLKEM768_EK_LEN,
        m@.len() == 32,
    ensures
        (r.0@, r.1@) == mlkem768_encaps_of(ek@, m@),
        r.0@.len() == MLKEM768_CT_LEN,
        r.1@.len() == MLKEM_SS_LEN,
{
    let arr: ml_kem::Encoded<ml_kem::kem::EncapsulationKey<ml_kem::MlKem768Params>> = ek.try_into().unwrap();
    let key = ml_kem::kem::EncapsulationKey::<ml_kem::MlKem768Params>::from_bytes(&arr);
    let msg: ml_kem::B32 = m.try_into().unwrap();
    let (ct, ss) = key.encapsulate_deterministic(&msg).unwrap();
    (ct.as_slice().to_vec(), ss.as_slice().to_vec())
}

/// ML-KEM-768 decapsulation.
///
/// Calls `DecapsulationKey::from_bytes` and `Decapsulate::decapsulate`, which
/// the source never fails (implicit rejection); the secret is named by
/// `mlkem768_decaps_of`.
#[verifier::external_body]
fn mlkem768_decapsulate(dk: &[u8], ct: &[u8]) -> (r: Vec<u8>)
    requires
        dk@.len() == MLKEM768_DK_LEN,
        ct@.len() == MLKEM768_CT_LEN,
    ensures
        r@ == mlkem768_decaps_of(dk@, ct@),
        r@.len() == MLKEM_SS_LEN,
{
    let dk_arr: ml_kem::Encoded<ml_kem::kem::DecapsulationKey<ml_kem::MlKem768Params>> = dk.try_into().unwrap();
    let key = ml_kem::kem::DecapsulationKey::<ml_kem::MlKem768Params>::from_bytes(&dk_arr);
    let ct_arr: ml_kem::Ciphertext<ml_kem::MlKem768> = ct.try_into().unwrap();
    key.decapsulate(&ct_arr).unwrap().as_slice().to_vec()
}

/// The encoded ML-DSA-65 verifying key for a 32-byte seed.
///
/// Calls `SigningKey::<MlDsa65>::from_seed`, `Keypair::verifying_key` and
/// `VerifyingKey::encode`; the key is named by `mldsa65_vk_of`.
#[verifier::external_body]
fn mldsa65_verifying_key(seed: &[u8]) -> (r: Vec<u8>)
    requires
        seed@.len() == MLDSA65_SEED_LEN,
    ensures
        r@ == mldsa65_vk_of(seed@),
        r@.len() == MLDSA65_VK_LEN,
{
    let arr: ml_dsa::Seed = seed.try_into().unwrap();
    let sk = ml_dsa::SigningKey::<ml_dsa::MlDsa65>::from_seed(&arr);
    ml_dsa::Keypair::verifying_key(&sk).encode().as_slice().to_vec()
}

/// Deterministic ML-DSA-65 signature with an empty context.
///
/// Calls `SigningKey::<MlDsa65>::from_seed` and `sign_deterministic` on its
/// expanded key; the result is named by `mldsa65_sign_of`. A signature produced
/// this way is 3309 bytes and verifies under the seed's verifying key (FIPS 204).
#[verifier::external_body]
fn mldsa65_sign_raw(seed: &[u8], msg: &[u8]) -> (r: Option<Vec<u8>>)
    requires
        seed@.len() == MLDSA65_SEED_LEN,
    ensures
        r is Some <==> mldsa65_sign_of(seed@, msg@) is Some,
        r matches Some(s) ==> {
            &&& mldsa65_sign_of(seed@, msg@) == Some(s@)
            &&& s@.len() == MLDSA65_SIG_LEN
            &&& mldsa65_verify_of(mldsa65_vk_of(seed@), msg@, s@) == Some(true)
        },
{
    let arr: ml_dsa::Seed = seed.try_into().unwrap();
    let sk = ml_dsa::SigningKey::<ml_dsa::MlDsa65>::from_seed(&arr);
    match sk.expanded_key().sign_deterministic(msg, &[]) {
        Ok(s) => Some(s.encode().as_slice().to_vec()),
        Err(_) => None,
    }
}

/// ML-DSA-65 verification with an empty context.
///
/// Calls `VerifyingKey::<MlDsa65>::decode`, `Signature::decode` (which may refuse
/// the bytes) and `verify_with_context`; the result is named by `mldsa65_verify_of`.
#[verifier::external_body]
fn mldsa65_verify_raw(vk: &[u8], msg: &[u8], sig: &[u8]) -> (r: Option<bool>)
    requires
        vk@.len() == MLDSA65_VK_LEN,
        sig@.len() == MLDSA65_SIG_LEN,
    ensures
        r == mldsa65_verify_of(vk@, msg@, sig@),
{
    let vk_arr: ml_dsa::EncodedVerifyingKey<ml_dsa::MlDsa65> = vk.try_into().unwrap();
    let key = ml_dsa::VerifyingKey::<ml_dsa::MlDsa65>::decode(&vk_arr);
    let sig_arr: ml_dsa::EncodedSignature<ml_dsa::MlDsa65> = sig.try_into().unwrap();
    match ml_dsa::Signature::<ml_dsa::MlDsa65>::decode(&sig_arr) {
        Some(s) => Some(key.verify_with_context(msg, &[], &s)),
        None => None,
    }
}

/// Supported post-quantum algorithms.
#[derive(Clone, Copy, Debug, PartialEq, Eq)]
pub enum PqcAlgorithm {
    /// ML-KEM-768 (FIPS 203): key encapsulation.
    MlKem768,
    /// ML-KEM-1024 (FIPS 203, level 5): key encapsulation.
    MlKem1024,
    /// ML-DSA-65 (FIPS 204): signatures.
    MlDsa65,
    /// ML-DSA-87 (FIPS 204, level 5): signatures.
    MlDsa87,
    /// SLH-DSA-SHA2-128s (FIPS 205): hash-based signatures.
    SlhDsaSha2128s,
}

/// The wire ID of a post-quantum algorithm.
pub open spec fn pqc_wire_id(a: PqcAlgorithm) -> u8 {
    match a {
        PqcAlgorithm::MlKem768 => 1,
        PqcAlgorithm::MlKem1024 => 2,
        PqcAlgorithm::MlDsa65 => 10,
        PqcAlgorithm::MlDsa87 => 11,
        PqcAlgorithm::SlhDsaSha2128s => 20,
    }
}

/// The post-quantum algorithm with wire ID `id`, if any.
pub open spec fn pqc_from_wire_id(id: u8) -> Option<PqcAlgorithm> {
    if id == 1 {
        Some(PqcAlgorithm::MlKem768)
    } else if id == 2 {
        Some(PqcAlgorithm::MlKem1024)
    } else if id == 10 {
        Some(PqcAlgorithm::MlDsa65)
    } else if id == 11 {
        Some(PqcAlgorithm::MlDsa87)
    } else if id == 20 {
        Some(PqcAlgorithm::SlhDsaSha2128s)
    } else {
        None
    }
}

/// The human-readable label of a post-quantum algorithm.
pub open spec fn pqc_label(a: PqcAlgorithm) -> Seq<char> {
    match a {
        PqcAlgorithm::MlKem768 => "ML-KEM-768"@,
        PqcAlgorithm::MlKem1024 => "ML-KEM-1024"@,
        PqcAlgorithm::MlDsa65 => "ML-DSA-65"@,
        PqcAlgorithm::MlDsa87 => "ML-DSA-87"@,
        PqcAlgorithm::SlhDsaSha2128s => "SLH-DSA-SHA2-128s"@,
    }
}

impl PqcAlgorithm {
    /// Wire ID for the `CPHE` v2 header.
    pub fn id(self) -> (r: u8)
        ensures
            r == pqc_wire_id(self),
    {
        match self {
            PqcAlgorithm::MlKem768 => 1,
            PqcAlgorithm::MlKem1024 => 2,
            PqcAlgorithm::MlDsa65 => 10,
            PqcAlgorithm::MlDsa87 => 11,
            PqcAlgorithm::SlhDsaSha2128s => 20,
        }
    }

    /// Decode from wire ID.
    pub fn from_id(id: u8) -> (r: Result<PqcAlgorithm, CpacError>)
        ensures
            r is Ok <==> pqc_from_wire_id(id) is Some,
            r matches Ok(a) ==> pqc_from_wire_id(id) == Some(a),
            r matches Err(e) ==> e is Encryption,
    {
        match id {
            1 => Ok(PqcAlgorithm::MlKem768),
            2 => Ok(PqcAlgorithm::MlKem1024),
            10 => Ok(PqcAlgorithm::MlDsa65),
            11 => Ok(PqcAlgorithm::MlDsa87),
            20 => Ok(PqcAlgorithm::SlhDsaSha2128s),
            _ => Err(CpacError::Encryption("unknown PQC algorithm wire ID".to_string())),
        }
    }

    /// Human-readable label.
    pub fn label(self) -> (r: &'static str)
        ensures
            r@ == pqc_label(self),
    {
        match self {
            PqcAlgorithm::MlKem768 => "ML-KEM-768",
            PqcAlgorithm::MlKem1024 => "ML-KEM-1024",
            PqcAlgorithm::MlDsa65 => "ML-DSA-65",
            PqcAlgorithm::MlDsa87 => "ML-DSA-87",
            PqcAlgorithm::SlhDsaSha2128s => "SLH-DSA-SHA2-128s",
        }
    }
}

/// The wire ID names the algorithm back.
pub proof fn lemma_pqc_id_roundtrip(a: PqcAlgorithm)
    ensures
        pqc_from_wire_id(pqc_wire_id(a)) == Some(a),
{
}

/// A post-quantum key pair (encoded byte blobs).
#[derive(Clone, Debug)]
pub struct PqcKeyPair {
    pub algorithm: PqcAlgorithm,
    pub public_key: Vec<u8>,
    pub secret_key: Vec<u8>,
}

/// Generates a post-quantum key pair.
///
/// ML-KEM-768 and ML-DSA-65 are supported; for ML-DSA-65 the secret key is the
/// 32-byte seed and the public key the verifying key grown from it.
pub fn pqc_keygen(algo: PqcAlgorithm) -> (r: Result<PqcKeyPair, CpacError>)
    ensures
        r is Ok <==> (algo == PqcAlgorithm::MlKem768 || algo == PqcAlgorithm::MlDsa65),
        r matches Err(e) ==> e is Encryption,
        r matches Ok(kp) ==> kp.algorithm == algo,
        r matches Ok(kp) ==> (algo == PqcAlgorithm::MlKem768 ==> kp.public_key@.len() == MLKEM768_EK_LEN && kp.secret_key@.len() == MLKEM768_DK_LEN
            && kp.secret_key@.subrange(1152, 2336) == kp.public_key@),
        r matches Ok(kp) ==> (algo == PqcAlgorithm::MlDsa65 ==> kp.secret_key@.len() == MLDSA65_SEED_LEN && kp.public_key@ == mldsa65_vk_of(kp.secret_key@)),
{
    match algo {
        PqcAlgorithm::MlKem768 => {
            let (dk, ek) = mlkem768_generate();
            Ok(PqcKeyPair { algorithm: PqcAlgorithm::MlKem768, public_key: ek, secret_key: dk })
        },
        PqcAlgorithm::MlDsa65 => {
            let seed = thread_random_bytes(MLDSA65_SEED_LEN);
            let vk = mldsa65_verifying_key(seed.as_slice());
            Ok(PqcKeyPair { algorithm: PqcAlgorithm::MlDsa65, public_key: vk, secret_key: seed })
        },
        PqcAlgorithm::MlKem1024 => Err(CpacError::Encryption("ML-KEM-1024 keygen not yet implemented".to_string())),
        PqcAlgorithm::MlDsa87 => Err(CpacError::Encryption("ML-DSA-87 keygen not yet implemented".to_string())),
        PqcAlgorithm::SlhDsaSha2128s => Err(CpacError::Encryption("SLH-DSA not yet available".to_string())),
    }
}

/// Post-quantum key encapsulation (ML-KEM-768 only).
///
/// Returns `(ciphertext, shared secret)`.
pub fn pqc_encapsulate(public_key: &[u8], algo: PqcAlgorithm) -> (r: Result<(Vec<u8>, Vec<u8>), CpacError>)
    ensures
        r is Ok <==> (algo == PqcAlgorithm::MlKem768 && public_key@.len() == MLKEM768_EK_LEN),
        r matches Err(e) ==> e is Encryption,
        r matches Ok((ct, ss)) ==> ct@.len() == MLKEM768_CT_LEN && ss@.len() == MLKEM_SS_LEN
            && is_mlkem768_encapsulation(public_key@, ct@, ss@),
{
    match algo {
        PqcAlgorithm::MlKem768 => {
            if public_key.len() != MLKEM768_EK_LEN {
                return Err(CpacError::Encryption("invalid ML-KEM-768 public key length".to_string()));
            }
            let m = thread_random_bytes(32);
            Ok(mlkem768_encapsulate(public_key, m.as_slice()))
        },
        _ => Err(CpacError::Encryption("algorithm does not support encapsulation".to_string())),
    }
}

/// Post-quantum key decapsulation (ML-KEM-768 only).
pub fn pqc_decapsulate(ciphertext: &[u8], secret_key: &[u8], algo: PqcAlgorithm) -> (r: Result<Vec<u8>, CpacError>)
    ensures
        r is Ok <==> (algo == PqcAlgorithm::MlKem768 && secret_key@.len() == MLKEM768_DK_LEN && ciphertext@.len() == MLKEM768_CT_LEN),
        r matches Err(e) ==> e is Encryption,
        r matches Ok(ss) ==> ss@ == mlkem768_decaps_of(secret_key@, ciphertext@),
{
    match algo {
        PqcAlgorithm::MlKem768 => {
            if secret_key.len() != MLKEM768_DK_LEN {
                return Err(CpacError::Encryption("invalid ML-KEM-768 secret key length".to_string()));
            }
            if ciphertext.len() != MLKEM768_CT_LEN {
                return Err(CpacError::Encryption("invalid ML-KEM-768 ciphertext length".to_string()));
            }
            Ok(mlkem768_decapsulate(secret_key, ciphertext))
        },
        _ => Err(CpacError::Encryption("algorithm does not support decapsulation".to_string())),
    }
}

/// Post-quantum signature (ML-DSA-65 only; the secret key is the 32-byte seed).
pub fn pqc_sign(message: &[u8], secret_key: &[u8], algo: PqcAlgorithm) -> (r: Result<Vec<u8>, CpacError>)
    ensures
        r is Ok <==> (algo == PqcAlgorithm::MlDsa65 && secret_key@.len() == MLDSA65_SEED_LEN
            && mldsa65_sign_of(secret_key@, message@) is Some),
        r matches Err(e) ==> e is Encryption,
        r matches Ok(sig) ==> {
            &&& mldsa65_sign_of(secret_key@, message@) == Some(sig@)
            &&& sig@.len() == MLDSA65_SIG_LEN
            &&& mldsa65_verify_of(mldsa65_vk_of(secret_key@), message@, sig@) == Some(true)
        },
{
    match algo {
        PqcAlgorithm::MlDsa65 => {
            if secret_key.len() != MLDSA65_SEED_LEN {
                return Err(CpacError::Encryption("invalid ML-DSA-65 seed length (expected 32 bytes)".to_string()));
            }
            match mldsa65_sign_raw(secret_key, message) {
                Some(sig) => Ok(sig),
                None => Err(CpacError::Encryption("ML-DSA-65 signing failed".to_string())),
            }
        },
        PqcAlgorithm::MlDsa87 => Err(CpacError::Encryption("ML-DSA-87 signing not yet implemented".to_string())),
        PqcAlgorithm::SlhDsaSha2128s => Err(CpacError::Encryption("SLH-DSA not yet available".to_string())),
        _ => Err(CpacError::Encryption("algorithm does not support signing".to_string())),
    }
}

/// Post-quantum signature verification (ML-DSA-65 only).
pub fn pqc_verify(message: &[u8], signature: &[u8], public_key: &[u8], algo: PqcAlgorithm) -> (r: Result<bool, CpacError>)
    ensures
        r is Ok <==> (algo == PqcAlgorithm::MlDsa65 && public_key@.len() == MLDSA65_VK_LEN
            && signature@.len() == MLDSA65_SIG_LEN
            && mldsa65_verify_of(public_key@, message@, signature@) is Some),
        r matches Err(e) ==> e is Encryption,
        r matches Ok(b) ==> mldsa65_verify_of(public_key@, message@, signature@) == Some(b),
{
    match algo {
        PqcAlgorithm::MlDsa65 => {
            if public_key.len() != MLDSA65_VK_LEN {
                return Err(CpacError::Encryption("invalid ML-DSA-65 verifying key length".to_string()));
            }
            if signature.len() != MLDSA65_SIG_LEN {
                return Err(CpacError::Encryption("invalid ML-DSA-65 signature length".to_string()));
            }
            match mldsa65_verify_raw(public_key, message, signature) {
                Some(b) => Ok(b),
                None => Err(CpacError::Encryption("invalid ML-DSA-65 signature".to_string())),
            }
        },
        PqcAlgorithm::MlDsa87 => Err(CpacError::Encryption("ML-DSA-87 verification not yet implemented".to_string())),
        PqcAlgorithm::SlhDsaSha2128s => Err(CpacError::Encryption("SLH-DSA not yet available".to_string())),
        _ => Err(CpacError::Encryption("algorithm does not support verification".to_string())),
    }
}

} // verus!
