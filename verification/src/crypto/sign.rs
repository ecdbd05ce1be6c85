//! Signatures: Ed25519, and the hybrid Ed25519 + ML-DSA-65 `CPHS` frame:
//!
//! `"CPHS" | version (1) | Ed25519 signature (64) | ML-DSA length (4 LE) | ML-DSA signature`

use vstd::prelude::*;
use ed25519_dalek::{Signer, Verifier};
use crate::bytes::{le32, get32, push_u32, push_all, read_u32, slice_to_vec, lemma_le32_roundtrip};
use crate::error::CpacError;
use crate::crypto::keys::array32;
use crate::crypto::pqc::{PqcAlgorithm, pqc_keygen, pqc_sign, pqc_verify, mldsa65_vk_of, mldsa65_sign_of, mldsa65_verify_of, MLDSA65_SEED_LEN, MLDSA65_VK_LEN, MLDSA65_SIG_LEN};

verus! {

/// The Ed25519 verifying key of the 32-byte signing key `sk`.
pub uninterp spec fn ed25519_public_of(sk: Seq<u8>) -> Seq<u8>;

/// The (deterministic) Ed25519 signature of `msg` under the signing key `sk`.
pub uninterp spec fn ed25519_signature_of(sk: Seq<u8>, msg: Seq<u8>) -> Seq<u8>;

/// Ed25519 verification: `None` when `vk` is not a valid encoded point, else
/// whether `sig` is a valid signature of `msg`.
pub uninterp spec fn ed25519_verify_of(vk: Seq<u8>, msg: Seq<u8>, sig: Seq<u8>) -> Option<bool>;

/// A fresh random Ed25519 signing key.
///
/// Calls `SigningKey::generate(&mut OsRng)` and `to_bytes`; nothing is stated
/// of the bytes.
#[verifier::external_body]
fn ed25519_random_secret() -> (r: [u8; 32]) {
    ed25519_dalek::SigningKey::generate(&mut rand::rngs::OsRng).to_bytes()
}

/// The verifying key of an Ed25519 signing key.
///
/// Calls `SigningKey::from_bytes`, `verifying_key` and `to_bytes`; the key is
/// named by `ed25519_public_of`.
#[verifier::external_body]
fn ed25519_public(sk: &[u8; 32]) -> (r: [u8; 32])
    ensures
        r@ == ed25519_public_of(sk@),
{
    ed25519_dalek::SigningKey::from_bytes(sk).verifying_key().to_bytes()
}

/// Ed25519 signature of a message.
///
/// Calls `SigningKey::from_bytes`, `Signer::sign` and `Signature::to_bytes`; the
/// signature is named by `ed25519_signature_of` and, as RFC 8032 guarantees,
/// verifies under the signing key's verifying key.
#[verifier::external_body]
fn ed25519_sign_raw(sk: &[u8; 32], msg: &[u8]) -> (r: [u8; 64])
    ensures
        r@ == ed25519_signature_of(sk@, msg@),
        ed25519_verify_of(ed25519_public_of(sk@), msg@, r@) == Some(true),
{
    ed25519_dalek::SigningKey::from_bytes(sk).sign(msg).to_bytes()
}

/// Ed25519 verification against an encoded verifying key.
///
/// Calls `VerifyingKey::from_bytes` (which refuses bytes that are not a valid
/// point), `Signature::from_bytes` and `Verifier::verify`; the result is named
/// by `ed25519_verify_of`.
#[verifier::external_body]
fn ed25519_verify_raw(vk: &[u8; 32], msg: &[u8], sig: &[u8]) -> (r: Option<bool>)
    requires
        sig@.len() == 64,
    ensures
        r == ed25519_verify_of(vk@, msg@, sig@),
{
    let sig_bytes: [u8; 64] = sig.try_into().unwrap();
    match ed25519_dalek::VerifyingKey::from_bytes(vk) {
        Ok(key) => Some(key.verify(msg, &ed25519_dalek::Signature::from_bytes(&sig_bytes)).is_ok()),
        Err(_) => None,
    }
}

/// Ed25519 key pair (raw 32-byte keys).
pub struct Ed25519KeyPair {
    /// Signing (secret) key.
    pub signing: [u8; 32],
    /// Verifying (public) key.
    pub verifying: [u8; 32],
}

/// Generates a new Ed25519 key pair.
pub fn generate_ed25519_keypair() -> (r: Ed25519KeyPair)
    ensures
        r.verifying@ == ed25519_public_of(r.signing@),
{
    let signing = ed25519_random_secret();
    let verifying = ed25519_public(&signing);
    Ed25519KeyPair { signing, verifying }
}

/// Signs a message with Ed25519.
///
/// The signature verifies under the signing key's verifying key.
pub fn ed25519_sign(key: &[u8; 32], message: &[u8]) -> (r: Vec<u8>)
    ensures
        r@ == ed25519_signature_of(key@, message@),
        r@.len() == 64,
        ed25519_verify_of(ed25519_public_of(key@), message@, r@) == Some(true),
{
    let sig = ed25519_sign_raw(key, message);
    let mut out: Vec<u8> = Vec::new();
    push_all(&mut out, &sig);
    assert(out@ =~= sig@);
    out
}

/// Verifies an Ed25519 signature: false for a signature that is not 64 bytes or
/// a key that is not a valid point.
pub fn ed25519_verify(key: &[u8; 32], message: &[u8], signature: &[u8]) -> (r: bool)
    ensures
        r == (signature@.len() == 64 && ed25519_verify_of(key@, message@, signature@) == Some(true)),
{
    if signature.len() != 64 {
        return false;
    }
    match ed25519_verify_raw(key, message, signature) {
        Some(b) => b,
        None => false,
    }
}

/// SLH-DSA-SHA2-128s signing: not available in this build.
pub fn slh_dsa_sign(message: &[u8], secret_key: &[u8]) -> (r: Result<Vec<u8>, CpacError>)
    ensures
        r matches Err(e) && e is Encryption,
{
    Err(CpacError::Encryption("SLH-DSA-SHA2-128s signing deferred".to_string()))
}

/// SLH-DSA-SHA2-128s verification: not available in this build.
pub fn slh_dsa_verify(message: &[u8], signature: &[u8], public_key: &[u8]) -> (r: Result<bool, CpacError>)
    ensures
        r matches Err(e) && e is Encryption,
{
    Err(CpacError::Encryption("SLH-DSA-SHA2-128s verify deferred".to_string()))
}

/// `CPHS` frame version.
pub const CPHS_VERSION: u8 = 1;

/// The `CPHS` magic bytes.
pub open spec fn cphs_magic() -> Seq<u8> {
    seq![0x43u8, 0x50u8, 0x48u8, 0x53u8]
}

/// The `CPHS` frame holding an Ed25519 and an ML-DSA signature.
pub open spec fn cphs_frame(ed_sig: Seq<u8>, mldsa_sig: Seq<u8>) -> Seq<u8> {
    cphs_magic() + seq![CPHS_VERSION] + ed_sig + le32(mldsa_sig.len() as u32) + mldsa_sig
}

/// The two signatures in a `CPHS` frame, or `None` for a malformed frame.
///
/// Bytes after the ML-DSA signature are ignored.
pub open spec fn parse_cphs(d: Seq<u8>) -> Option<(Seq<u8>, Seq<u8>)> {
    if d.len() < 73 || d.subrange(0, 4) != cphs_magic() || d[4] != CPHS_VERSION {
        None
    } else {
        let n = get32(d, 69);
        if d.len() < 73 + n {
            None
        } else {
            Some((d.subrange(5, 69), d.subrange(73, 73 + n)))
        }
    }
}

/// Whether `d` starts with the `CPHS` magic.
pub open spec fn has_cphs_magic(d: Seq<u8>) -> bool {
    d.len() >= 4 && d.subrange(0, 4) == cphs_magic()
}

/// The outcome of verifying a `CPHS` frame: `None` for an error, else the verdict.
pub open spec fn hybrid_verify_outcome(msg: Seq<u8>, d: Seq<u8>, ed_vk: Seq<u8>, mldsa_vk: Seq<u8>) -> Option<bool> {
    match parse_cphs(d) {
        None => None,
        Some((ed_sig, mldsa_sig)) => {
            if ed_vk.len() != 32 {
                None
            } else {
                match ed25519_verify_of(ed_vk, msg, ed_sig) {
                    None => None,
                    Some(false) => Some(false),
                    Some(true) => {
                        if mldsa_vk.len() == MLDSA65_VK_LEN && mldsa_sig.len() == MLDSA65_SIG_LEN {
                            mldsa65_verify_of(mldsa_vk, msg, mldsa_sig)
                        } else {
                            None
                        }
                    },
                }
            }
        },
    }
}

/// A hybrid key pair for dual signing.
#[derive(Clone)]
pub struct HybridSignKeyPair {
    /// Ed25519 signing key (32 bytes).
    pub ed25519_signing: Vec<u8>,
    /// Ed25519 verifying key (32 bytes).
    pub ed25519_verifying: Vec<u8>,
    /// ML-DSA-65 signing key (32-byte seed).
    pub mldsa_signing: Vec<u8>,
    /// ML-DSA-65 verifying key.
    pub mldsa_verifying: Vec<u8>,
}

/// Generates a hybrid signature key pair (Ed25519 + ML-DSA-65).
pub fn hybrid_sign_keygen() -> (r: Result<HybridSignKeyPair, CpacError>)
    ensures
        r matches Ok(kp) && {
            &&& kp.ed25519_signing@.len() == 32
            &&& kp.ed25519_verifying@ == ed25519_public_of(kp.ed25519_signing@)
            &&& kp.mldsa_signing@.len() == MLDSA65_SEED_LEN
            &&& kp.mldsa_verifying@ == mldsa65_vk_of(kp.mldsa_signing@)
        },
{
    let ed_kp = generate_ed25519_keypair();
    let pqc_kp = pqc_keygen(PqcAlgorithm::MlDsa65)?;
    let mut ed_signing: Vec<u8> = Vec::new();
    push_all(&mut ed_signing, &ed_kp.signing);
    let mut ed_verifying: Vec<u8> = Vec::new();
    push_all(&mut ed_verifying, &ed_kp.verifying);
    assert(ed_signing@ =~= ed_kp.signing@);
    assert(ed_verifying@ =~= ed_kp.verifying@);
    Ok(HybridSignKeyPair {
        ed25519_signing: ed_signing,
        ed25519_verifying: ed_verifying,
        mldsa_signing: pqc_kp.secret_key,
        mldsa_verifying: pqc_kp.public_key,
    })
}

/// Appends the `CPHS` frame of the two signatures.
fn write_cphs(out: &mut Vec<u8>, ed_sig: &[u8], mldsa_sig: &[u8])
    requires
        mldsa_sig@.len() <= u32::MAX,
    ensures
        final(out)@ == old(out)@ + cphs_frame(ed_sig@, mldsa_sig@),
{
    out.push(0x43u8);
    out.push(0x50u8);
    out.push(0x48u8);
    out.push(0x53u8);
    out.push(CPHS_VERSION);
    push_all(out, ed_sig);
    push_u32(out, mldsa_sig.len() as u32);
    push_all(out, mldsa_sig);
    assert(final(out)@ =~= old(out)@ + cphs_frame(ed_sig@, mldsa_sig@));
}

/// Signs with both Ed25519 and ML-DSA-65, producing a `CPHS` frame.
pub fn hybrid_sign(message: &[u8], ed_signing_key: &[u8], mldsa_signing_key: &[u8]) -> (r: Result<Vec<u8>, CpacError>)
    ensures
        r is Ok <==> (ed_signing_key@.len() == 32 && mldsa_signing_key@.len() == MLDSA65_SEED_LEN
            && mldsa65_sign_of(mldsa_signing_key@, message@) is Some),
        r matches Err(e) ==> e is Encryption,
        r matches Ok(f) ==> {
            &&& mldsa65_sign_of(mldsa_signing_key@, message@) matches Some(ms)
            &&& f@ == cphs_frame(ed25519_signature_of(ed_signing_key@, message@), ms)
            &&& parse_cphs(f@) == Some((ed25519_signature_of(ed_signing_key@, message@), ms))
        },
{
    if ed_signing_key.len() != 32 {
        return Err(CpacError::Encryption("invalid Ed25519 key length".to_string()));
    }
    let sk = array32(ed_signing_key);
    let ed_sig = ed25519_sign(&sk, message);
    let mldsa_sig = pqc_sign(message, mldsa_signing_key, PqcAlgorithm::MlDsa65)?;
    let mut out: Vec<u8> = Vec::new();
    write_cphs(&mut out, ed_sig.as_slice(), mldsa_sig.as_slice());
    assert(out@ =~= cphs_frame(ed_sig@, mldsa_sig@));
    proof {
        lemma_cphs_roundtrip(ed_sig@, mldsa_sig@);
    }
    Ok(out)
}

/// Verifies a `CPHS` frame: both signatures must be valid.
pub fn hybrid_verify(message: &[u8], cphs_data: &[u8], ed_verifying_key: &[u8], mldsa_verifying_key: &[u8]) -> (r: Result<bool, CpacError>)
    ensures
        r is Ok <==> hybrid_verify_outcome(message@, cphs_data@, ed_verifying_key@, mldsa_verifying_key@) is Some,
        r matches Ok(b) ==> hybrid_verify_outcome(message@, cphs_data@, ed_verifying_key@, mldsa_verifying_key@) == Some(b),
        r matches Err(e) ==> e is Encryption,
{
    let d = cphs_data;
    if d.len() < 73 {
        return Err(CpacError::Encryption("CPHS data too short".to_string()));
    }
    if !(d[0] == 0x43u8 && d[1] == 0x50u8 && d[2] == 0x48u8 && d[3] == 0x53u8) || d[4] != CPHS_VERSION {
        proof {
            if d@.subrange(0, 4) == cphs_magic() {
                assert(d@[0] == d@.subrange(0, 4)[0]);
                assert(d@[1] == d@.subrange(0, 4)[1]);
                assert(d@[2] == d@.subrange(0, 4)[2]);
                assert(d@[3] == d@.subrange(0, 4)[3]);
            }
        }
        return Err(CpacError::Encryption("not a CPHS frame".to_string()));
    }
    assert(d@.subrange(0, 4) =~= cphs_magic());
    let n = read_u32(d, 69);
    if (d.len() as u64) < 73u64 + (n as u64) {
        return Err(CpacError::Encryption("CPHS truncated".to_string()));
    }
    let ed_sig = slice_to_vec(d, 5, 69);
    let mldsa_sig = slice_to_vec(d, 73, 73 + n as usize);
    if ed_verifying_key.len() != 32 {
        return Err(CpacError::Encryption("invalid Ed25519 verifying key".to_string()));
    }
    let vk = array32(ed_verifying_key);
    match ed25519_verify_raw(&vk, message, ed_sig.as_slice()) {
        None => Err(CpacError::Encryption("bad Ed25519 verifying key".to_string())),
        Some(false) => Ok(false),
        Some(true) => pqc_verify(message, mldsa_sig.as_slice(), mldsa_verifying_key, PqcAlgorithm::MlDsa65),
    }
}

/// Whether `data` starts with the `CPHS` magic.
pub fn is_cphs(data: &[u8]) -> (r: bool)
    ensures
        r == has_cphs_magic(data@),
{
    if data.len() < 4 {
        return false;
    }
    let r = data[0] == 0x43u8 && data[1] == 0x50u8 && data[2] == 0x48u8 && data[3] == 0x53u8;
    proof {
        if r {
            assert(data@.subrange(0, 4) =~= cphs_magic());
        } else if data@.subrange(0, 4) == cphs_magic() {
            assert(data@[0] == data@.subrange(0, 4)[0]);
            assert(data@[1] == data@.subrange(0, 4)[1]);
            assert(data@[2] == data@.subrange(0, 4)[2]);
            assert(data@[3] == data@.subrange(0, 4)[3]);
        }
    }
    r
}

/// A `CPHS` frame parses back to the two signatures it was built from.
pub proof fn lemma_cphs_roundtrip(ed_sig: Seq<u8>, mldsa_sig: Seq<u8>)
    requires
        ed_sig.len() == 64,
        mldsa_sig.len() <= u32::MAX,
    ensures
        parse_cphs(cphs_frame(ed_sig, mldsa_sig)) == Some((ed_sig, mldsa_sig)),
        has_cphs_magic(cphs_frame(ed_sig, mldsa_sig)),
{
    let f = cphs_frame(ed_sig, mldsa_sig);
    let n = mldsa_sig.len() as u32;
    assert(f.subrange(0, 4) =~= cphs_magic());
    assert(f[4] == CPHS_VERSION);
    assert(f.subrange(69, 73) =~= le32(n));
    lemma_le32_roundtrip(n, f, 69);
    assert(f.subrange(5, 69) =~= ed_sig);
    assert(f.subrange(73, 73 + n) =~= mldsa_sig);
}

/// A frame of an Ed25519 signature and an ML-DSA-65 signature, each valid for the
/// message under the verifying key of its signing key, verifies.
pub proof fn lemma_cphs_sign_verify(msg: Seq<u8>, ed_sk: Seq<u8>, mldsa_seed: Seq<u8>, ed_sig: Seq<u8>, mldsa_sig: Seq<u8>)
    requires
        ed_sig.len() == 64,
        mldsa_sig.len() == MLDSA65_SIG_LEN,
        ed25519_verify_of(ed25519_public_of(ed_sk), msg, ed_sig) == Some(true),
        mldsa65_verify_of(mldsa65_vk_of(mldsa_seed), msg, mldsa_sig) == Some(true),
        ed25519_public_of(ed_sk).len() == 32,
        mldsa65_vk_of(mldsa_seed).len() == MLDSA65_VK_LEN,
    ensures
        hybrid_verify_outcome(msg, cphs_frame(ed_sig, mldsa_sig), ed25519_public_of(ed_sk), mldsa65_vk_of(mldsa_seed)) == Some(true),
{
    lemma_cphs_roundtrip(ed_sig, mldsa_sig);
}

} // verus!
