//! Hybrid encryption: X25519 (classical) + ML-KEM-768 (post-quantum), the two
//! shared secrets combined by HKDF-SHA256 into an AEAD key.
//!
//! `CPHE` v2 frame:
//! `"CPHE" | version (1) | KEM id | AEAD id | KDF id | ephemeral X25519 public (32) |
//! ML-KEM ciphertext length (2 LE) | ML-KEM ciphertext | nonce length (1) | nonce | ciphertext`
//!
//! A v1 frame has no algorithm IDs and means ML-KEM-768 with ChaCha20-Poly1305.

use vstd::prelude::*;
use crate::bytes::{le16, get16, push_u16, push_all, read_u16, slice_to_vec, lemma_le16_roundtrip};
use crate::error::CpacError;
use crate::crypto::aead::{AeadAlgorithm, aead_from_wire_id, aead_open, aead_seal, encrypt_aead, decrypt_aead, AEAD_MAX_PLAINTEXT};
use crate::crypto::kdf::{KdfAlgorithm, kdf_from_wire_id, derive_key_hkdf, hkdf_sha256_of};
use crate::crypto::keys::{array32, generate_x25519_keypair, x25519_shared_secret, x25519_public_of, x25519_shared_of};
use crate::crypto::pqc::{PqcAlgorithm, pqc_from_wire_id, pqc_keygen, pqc_encapsulate, pqc_decapsulate, mlkem768_decaps_of, mlkem768_encaps_of, MLKEM768_EK_LEN, MLKEM768_DK_LEN, MLKEM768_CT_LEN, MLKEM_SS_LEN};

verus! {

/// `CPHE` v1 (no algorithm IDs).
pub const CPHE_VERSION_V1: u8 = 1;
/// `CPHE` v2 (with KEM, AEAD and KDF IDs).
pub const CPHE_VERSION: u8 = 2;

/// The `CPHE` magic bytes.
pub open spec fn cphe_magic() -> Seq<u8> {
    seq![0x43u8, 0x50u8, 0x48u8, 0x45u8]
}

/// Whether `d` starts with the `CPHE` magic.
pub open spec fn has_cphe_magic(d: Seq<u8>) -> bool {
    d.len() >= 4 && d.subrange(0, 4) == cphe_magic()
}

/// HKDF salt of the hybrid key: `"CPHE-hybrid-salt"`.
pub open spec fn hybrid_salt() -> Seq<u8> {
    seq![0x43u8, 0x50u8, 0x48u8, 0x45u8, 0x2du8, 0x68u8, 0x79u8, 0x62u8, 0x72u8, 0x69u8, 0x64u8, 0x2du8, 0x73u8, 0x61u8, 0x6cu8, 0x74u8]
}

/// HKDF info of the hybrid key: `"CPHE-hybrid-v1"`.
pub open spec fn hybrid_info() -> Seq<u8> {
    seq![0x43u8, 0x50u8, 0x48u8, 0x45u8, 0x2du8, 0x68u8, 0x79u8, 0x62u8, 0x72u8, 0x69u8, 0x64u8, 0x2du8, 0x76u8, 0x31u8]
}

/// The AEAD key combined from the X25519 and the ML-KEM shared secrets.
pub open spec fn hybrid_key(x25519_ss: Seq<u8>, mlkem_ss: Seq<u8>) -> Seq<u8> {
    hkdf_sha256_of(x25519_ss + mlkem_ss, hybrid_salt(), hybrid_info())
}

/// A `CPHE` v2 frame.
pub open spec fn cphe_frame(kem_id: u8, aead_id: u8, kdf_id: u8, eph_pub: Seq<u8>, mlkem_ct: Seq<u8>, nonce: Seq<u8>, ciphertext: Seq<u8>) -> Seq<u8> {
    cphe_magic() + seq![CPHE_VERSION, kem_id, aead_id, kdf_id] + eph_pub + le16(mlkem_ct.len() as u16)
        + mlkem_ct + seq![nonce.len() as u8] + nonce + ciphertext
}

/// The header of a `CPHE` frame: KEM, AEAD and where the key material starts,
/// or `None` for a frame that is short, has another magic or version, or names
/// an unknown algorithm.
pub open spec fn cphe_header(d: Seq<u8>) -> Option<(PqcAlgorithm, AeadAlgorithm, int)> {
    if d.len() < 39 || d.subrange(0, 4) != cphe_magic() {
        None
    } else if d[4] == CPHE_VERSION_V1 {
        Some((PqcAlgorithm::MlKem768, AeadAlgorithm::ChaCha20Poly1305, 5))
    } else if d[4] == CPHE_VERSION {
        match (pqc_from_wire_id(d[5]), aead_from_wire_id(d[6]), kdf_from_wire_id(d[7])) {
            (Some(k), Some(a), Some(_)) => Some((k, a, 8)),
            _ => None,
        }
    } else {
        None
    }
}

/// The fields of a `CPHE` frame: KEM, AEAD, ephemeral public key, ML-KEM
/// ciphertext, nonce and AEAD ciphertext; `None` for a malformed frame.
pub open spec fn parse_cphe(d: Seq<u8>) -> Option<(PqcAlgorithm, AeadAlgorithm, Seq<u8>, Seq<u8>, Seq<u8>, Seq<u8>)> {
    match cphe_header(d) {
        None => None,
        Some((k, a, s)) => {
            let n = get16(d, s + 32);
            let ct_end = s + 34 + n;
            if d.len() < ct_end + 1 {
                None
            } else {
                let nonce_end = ct_end + 1 + d[ct_end];
                if d.len() < nonce_end {
                    None
                } else {
                    Some((k, a, d.subrange(s, s + 32), d.subrange(s + 34, ct_end), d.subrange(ct_end + 1, nonce_end), d.subrange(nonce_end, d.len() as int)))
                }
            }
        },
    }
}

/// What decrypting the frame `d` with the X25519 secret `xsk` and the ML-KEM
/// secret `msk` gives: the plaintext, or `None` for an error.
pub open spec fn hybrid_decrypt_outcome(d: Seq<u8>, xsk: Seq<u8>, msk: Seq<u8>) -> Option<Seq<u8>> {
    match parse_cphe(d) {
        None => None,
        Some((k, a, eph, mct, nonce, ct)) => {
            if xsk.len() != 32 || !(k == PqcAlgorithm::MlKem768 && msk.len() == MLKEM768_DK_LEN && mct.len() == MLKEM768_CT_LEN)
                || nonce.len() != 12 {
                None
            } else {
                aead_open(a, hybrid_key(x25519_shared_of(xsk, eph), mlkem768_decaps_of(msk, mct)), nonce, ct)
            }
        },
    }
}

/// `f` is the v2 frame that encrypting `pt` for the X25519 public key `xpub`
/// and the ML-KEM-768 encapsulation key `mpub` produces with ephemeral secret
/// `eph`, the 32-byte ML-KEM message `m` (whose encapsulation against `mpub`
/// gives the frame's ML-KEM ciphertext and the secret mixed into the key),
/// and nonce `nonce`; the X25519 secret agreed with `eph` is the one the
/// holder of `xpub`'s secret computes with `eph`'s public key.
pub open spec fn is_hybrid_frame_of(f: Seq<u8>, eph: Seq<u8>, m: Seq<u8>, nonce: Seq<u8>, xpub: Seq<u8>, mpub: Seq<u8>, pt: Seq<u8>) -> bool {
    let mct = mlkem768_encaps_of(mpub, m).0;
    let mss = mlkem768_encaps_of(mpub, m).1;
    let key = hybrid_key(x25519_shared_of(eph, xpub), mss);
    let ct = aead_seal(AeadAlgorithm::ChaCha20Poly1305, key, nonce, pt);
    &&& m.len() == 32
    &&& forall|b: Seq<u8>| b.len() == 32 && xpub == #[trigger] x25519_public_of(b)
        ==> x25519_shared_of(b, x25519_public_of(eph)) == x25519_shared_of(eph, xpub)
    &&& mct.len() == MLKEM768_CT_LEN
    &&& nonce.len() == 12
    &&& f == cphe_frame(1, 1, 1, x25519_public_of(eph), mct, nonce, ct)
    &&& parse_cphe(f) == Some((PqcAlgorithm::MlKem768, AeadAlgorithm::ChaCha20Poly1305, x25519_public_of(eph), mct, nonce, ct))
    &&& aead_open(AeadAlgorithm::ChaCha20Poly1305, key, nonce, ct) == Some(pt)
}

/// `f` is a frame that encrypting `pt` for the X25519 public key `xpub` and
/// the ML-KEM-768 key `mpub` can produce, for some ephemeral secret, ML-KEM
/// message and nonce.
pub open spec fn is_hybrid_encryption(f: Seq<u8>, xpub: Seq<u8>, mpub: Seq<u8>, pt: Seq<u8>) -> bool {
    exists|eph: Seq<u8>, m: Seq<u8>, nonce: Seq<u8>| #[trigger] is_hybrid_frame_of(f, eph, m, nonce, xpub, mpub, pt)
}

/// A hybrid key pair (X25519 + ML-KEM-768).
#[derive(Clone, Debug)]
pub struct HybridKeyPair {
    /// X25519 secret key (32 bytes).
    pub x25519_secret: Vec<u8>,
    /// X25519 public key (32 bytes).
    pub x25519_public: Vec<u8>,
    /// ML-KEM-768 public (encapsulation) key.
    pub mlkem_public: Vec<u8>,
    /// ML-KEM-768 secret (decapsulation) key.
    pub mlkem_secret: Vec<u8>,
}

/// Generates a hybrid key pair (X25519 + ML-KEM-768).
pub fn hybrid_keygen() -> (r: Result<HybridKeyPair, CpacError>)
    ensures
        r matches Ok(kp) && {
            &&& kp.x25519_secret@.len() == 32
            &&& kp.x25519_public@ == x25519_public_of(kp.x25519_secret@)
            &&& kp.mlkem_public@.len() == MLKEM768_EK_LEN
            &&& kp.mlkem_secret@.len() == MLKEM768_DK_LEN
            &&& kp.mlkem_secret@.subrange(1152, 2336) == kp.mlkem_public@
        },
{
    let x_kp = generate_x25519_keypair();
    let mut x_secret: Vec<u8> = Vec::new();
    push_all(&mut x_secret, &x_kp.secret);
    let mut x_public: Vec<u8> = Vec::new();
    push_all(&mut x_public, &x_kp.public);
    assert(x_secret@ =~= x_kp.secret@);
    assert(x_public@ =~= x_kp.public@);
    let pqc_kp = pqc_keygen(PqcAlgorithm::MlKem768)?;
    Ok(HybridKeyPair {
        x25519_secret: x_secret,
        x25519_public: x_public,
        mlkem_public: pqc_kp.public_key,
        mlkem_secret: pqc_kp.secret_key,
    })
}

/// Derives the 32-byte AEAD key from the two shared secrets via HKDF-SHA256.
fn derive_hybrid_key(x25519_ss: &[u8; 32], mlkem_ss: &[u8]) -> (r: Result<[u8; 32], CpacError>)
    ensures
        r matches Ok(k) && k@ == hybrid_key(x25519_ss@, mlkem_ss@),
{
    let mut ikm: Vec<u8> = Vec::new();
    push_all(&mut ikm, x25519_ss);
    push_all(&mut ikm, mlkem_ss);
    let salt: [u8; 16] = [0x43u8, 0x50u8, 0x48u8, 0x45u8, 0x2du8, 0x68u8, 0x79u8, 0x62u8, 0x72u8, 0x69u8, 0x64u8, 0x2du8, 0x73u8, 0x61u8, 0x6cu8, 0x74u8];
    let info: [u8; 14] = [0x43u8, 0x50u8, 0x48u8, 0x45u8, 0x2du8, 0x68u8, 0x79u8, 0x62u8, 0x72u8, 0x69u8, 0x64u8, 0x2du8, 0x76u8, 0x31u8];
    assert(salt@ =~= hybrid_salt());
    assert(info@ =~= hybrid_info());
    derive_key_hkdf(ikm.as_slice(), &salt, &info)
}

/// Appends a `CPHE` v2 frame.
fn write_cphe(out: &mut Vec<u8>, kem_id: u8, aead_id: u8, kdf_id: u8, eph_pub: &[u8], mlkem_ct: &[u8], nonce: &[u8], ciphertext: &[u8])
    requires
        mlkem_ct@.len() <= u16::MAX,
        nonce@.len() <= u8::MAX,
    ensures
        final(out)@ == old(out)@ + cphe_frame(kem_id, aead_id, kdf_id, eph_pub@, mlkem_ct@, nonce@, ciphertext@),
{
    out.push(0x43u8);
    out.push(0x50u8);
    out.push(0x48u8);
    out.push(0x45u8);
    out.push(CPHE_VERSION);
    out.push(kem_id);
    out.push(aead_id);
    out.push(kdf_id);
    push_all(out, eph_pub);
    push_u16(out, mlkem_ct.len() as u16);
    push_all(out, mlkem_ct);
    out.push(nonce.len() as u8);
    push_all(out, nonce);
    push_all(out, ciphertext);
    assert(final(out)@ =~= old(out)@ + cphe_frame(kem_id, aead_id, kdf_id, eph_pub@, mlkem_ct@, nonce@, ciphertext@));
}

/// Encrypts `plaintext` for a recipient's X25519 and ML-KEM-768 public keys.
///
/// An ephemeral X25519 key agrees a secret with the recipient's, ML-KEM-768
/// encapsulates a second one, HKDF combines both into a ChaCha20-Poly1305 key,
/// and the result is a `CPHE` v2 frame.
pub fn hybrid_encrypt(plaintext: &[u8], recipient_x25519_public: &[u8], recipient_mlkem_public: &[u8]) -> (r: Result<Vec<u8>, CpacError>)
    ensures
        r is Ok ==> recipient_x25519_public@.len() == 32 && recipient_mlkem_public@.len() == MLKEM768_EK_LEN,
        recipient_x25519_public@.len() == 32 && recipient_mlkem_public@.len() == MLKEM768_EK_LEN
            && plaintext@.len() <= AEAD_MAX_PLAINTEXT ==> r is Ok,
        r matches Err(e) ==> e is Encryption,
        r matches Ok(f) ==> is_hybrid_encryption(f@, recipient_x25519_public@, recipient_mlkem_public@, plaintext@),
{
    let eph = generate_x25519_keypair();
    if recipient_x25519_public.len() != 32 {
        return Err(CpacError::Encryption("invalid X25519 public key length".to_string()));
    }
    let their_pk = array32(recipient_x25519_public);
    let x_shared = x25519_shared_secret(&eph.secret, &their_pk);
    let (mlkem_ct, mlkem_ss) = match pqc_encapsulate(recipient_mlkem_public, PqcAlgorithm::MlKem768) {
        Ok(p) => p,
        Err(e) => return Err(e),
    };
    let ghost m = choose|m: Seq<u8>| m.len() == 32 && (mlkem_ct@, mlkem_ss@) == #[trigger] mlkem768_encaps_of(recipient_mlkem_public@, m);
    let combined_key = match derive_hybrid_key(&x_shared, mlkem_ss.as_slice()) {
        Ok(k) => k,
        Err(e) => return Err(e),
    };
    let (nonce, ciphertext) = match encrypt_aead(plaintext, &combined_key, AeadAlgorithm::ChaCha20Poly1305) {
        Ok(p) => p,
        Err(e) => return Err(e),
    };
    let kem_id = PqcAlgorithm::MlKem768.id();
    let aead_id = AeadAlgorithm::ChaCha20Poly1305.id();
    let kdf_id = KdfAlgorithm::HkdfSha256.id();
    let mut out: Vec<u8> = Vec::new();
    write_cphe(&mut out, kem_id, aead_id, kdf_id, &eph.public, mlkem_ct.as_slice(), nonce.as_slice(), ciphertext.as_slice());
    assert(out@ =~= cphe_frame(1, 1, 1, eph.public@, mlkem_ct@, nonce@, ciphertext@));
    proof {
        lemma_cphe_roundtrip(1, 1, 1, eph.public@, mlkem_ct@, nonce@, ciphertext@);
        assert(is_hybrid_frame_of(out@, eph.secret@, m, nonce@, recipient_x25519_public@, recipient_mlkem_public@, plaintext@));
        assert(is_hybrid_encryption(out@, recipient_x25519_public@, recipient_mlkem_public@, plaintext@));
    }
    Ok(out)
}

/// Parses the header of a `CPHE` frame (v1 or v2); returns the KEM, the AEAD
/// and where the key material starts.
fn read_cphe_header(d: &[u8]) -> (r: Result<(PqcAlgorithm, AeadAlgorithm, usize), CpacError>)
    ensures
        r is Ok <==> cphe_header(d@) is Some,
        r matches Ok((k, a, s)) ==> cphe_header(d@) == Some((k, a, s as int)),
        r matches Err(e) ==> e is Encryption,
{
    if d.len() < 39 {
        return Err(CpacError::Encryption("CPHE data too short".to_string()));
    }
    if !(d[0] == 0x43u8 && d[1] == 0x50u8 && d[2] == 0x48u8 && d[3] == 0x45u8) {
        proof {
            if d@.subrange(0, 4) == cphe_magic() {
                assert(d@[0] == d@.subrange(0, 4)[0]);
                assert(d@[1] == d@.subrange(0, 4)[1]);
                assert(d@[2] == d@.subrange(0, 4)[2]);
                assert(d@[3] == d@.subrange(0, 4)[3]);
            }
        }
        return Err(CpacError::Encryption("not a CPHE frame".to_string()));
    }
    assert(d@.subrange(0, 4) =~= cphe_magic());
    let version = d[4];
    if version == CPHE_VERSION_V1 {
        Ok((PqcAlgorithm::MlKem768, AeadAlgorithm::ChaCha20Poly1305, 5))
    } else if version == CPHE_VERSION {
        let kem = PqcAlgorithm::from_id(d[5])?;
        let aead = AeadAlgorithm::from_id(d[6])?;
        let _kdf = KdfAlgorithm::from_id(d[7])?;
        Ok((kem, aead, 8))
    } else {
        Err(CpacError::Encryption("unsupported CPHE version".to_string()))
    }
}

/// Decrypts a `CPHE` frame with our X25519 and ML-KEM-768 secret keys.
/// A frame that ends before its ML-KEM length field is too short.
pub fn hybrid_decrypt(cphe_data: &[u8], our_x25519_secret: &[u8], our_mlkem_secret: &[u8]) -> (r: Result<Vec<u8>, CpacError>)
    ensures
        r is Ok <==> hybrid_decrypt_outcome(cphe_data@, our_x25519_secret@, our_mlkem_secret@) is Some,
        r matches Ok(p) ==> hybrid_decrypt_outcome(cphe_data@, our_x25519_secret@, our_mlkem_secret@) == Some(p@),
        r matches Err(e) ==> e is Encryption,
{
    let d = cphe_data;
    let (kem_algo, aead_algo, s) = read_cphe_header(d)?;
    if d.len() < s + 34 {
        return Err(CpacError::Encryption("CPHE data too short".to_string()));
    }
    let eph_pub = array32(slice_to_vec(d, s, s + 32).as_slice());
    let n = read_u16(d, s + 32);
    let ct_start = s + 34;
    let ct_end = ct_start + n as usize;
    if d.len() < ct_end + 1 {
        return Err(CpacError::Encryption("CPHE truncated ML-KEM ciphertext".to_string()));
    }
    let mlkem_ct = slice_to_vec(d, ct_start, ct_end);
    let nonce_len = d[ct_end] as usize;
    let nonce_end = ct_end + 1 + nonce_len;
    if d.len() < nonce_end {
        return Err(CpacError::Encryption("CPHE truncated nonce".to_string()));
    }
    let nonce = slice_to_vec(d, ct_end + 1, nonce_end);
    let ciphertext = slice_to_vec(d, nonce_end, d.len());
    if our_x25519_secret.len() != 32 {
        return Err(CpacError::Encryption("invalid X25519 secret key length".to_string()));
    }
    let our_sk = array32(our_x25519_secret);
    let x_shared = x25519_shared_secret(&our_sk, &eph_pub);
    let mlkem_ss = pqc_decapsulate(mlkem_ct.as_slice(), our_mlkem_secret, kem_algo)?;
    let combined_key = derive_hybrid_key(&x_shared, mlkem_ss.as_slice())?;
    decrypt_aead(ciphertext.as_slice(), &combined_key, nonce.as_slice(), aead_algo)
}

/// Whether `data` starts with the `CPHE` magic.
pub fn is_cphe(data: &[u8]) -> (r: bool)
    ensures
        r == has_cphe_magic(data@),
{
    if data.len() < 4 {
        return false;
    }
    let r = data[0] == 0x43u8 && data[1] == 0x50u8 && data[2] == 0x48u8 && data[3] == 0x45u8;
    proof {
        if r {
            assert(data@.subrange(0, 4) =~= cphe_magic());
        } else if data@.subrange(0, 4) == cphe_magic() {
            assert(data@[0] == data@.subrange(0, 4)[0]);
            assert(data@[1] == data@.subrange(0, 4)[1]);
            assert(data@[2] == data@.subrange(0, 4)[2]);
            assert(data@[3] == data@.subrange(0, 4)[3]);
        }
    }
    r
}

/// A `CPHE` v2 frame with known algorithm IDs parses back to its fields.
pub proof fn lemma_cphe_roundtrip(kem_id: u8, aead_id: u8, kdf_id: u8, eph_pub: Seq<u8>, mlkem_ct: Seq<u8>, nonce: Seq<u8>, ciphertext: Seq<u8>)
    requires
        pqc_from_wire_id(kem_id) is Some,
        aead_from_wire_id(aead_id) is Some,
        kdf_from_wire_id(kdf_id) is Some,
        eph_pub.len() == 32,
        mlkem_ct.len() <= u16::MAX,
        nonce.len() <= u8::MAX,
    ensures
        parse_cphe(cphe_frame(kem_id, aead_id, kdf_id, eph_pub, mlkem_ct, nonce, ciphertext)) == Some((
            pqc_from_wire_id(kem_id).unwrap(),
            aead_from_wire_id(aead_id).unwrap(),
            eph_pub,
            mlkem_ct,
            nonce,
            ciphertext,
        )),
        has_cphe_magic(cphe_frame(kem_id, aead_id, kdf_id, eph_pub, mlkem_ct, nonce, ciphertext)),
{
    let f = cphe_frame(kem_id, aead_id, kdf_id, eph_pub, mlkem_ct, nonce, ciphertext);
    let n = mlkem_ct.len() as u16;
    let ct_end: int = 42 + mlkem_ct.len() as int;
    let nl: int = nonce.len() as int;
    assert(f.subrange(0, 4) =~= cphe_magic());
    assert(f[4] == CPHE_VERSION);
    assert(f[5] == kem_id);
    assert(f[6] == aead_id);
    assert(f[7] == kdf_id);
    assert(f.subrange(40, 42) =~= le16(n));
    lemma_le16_roundtrip(n, f, 40);
    assert(f[ct_end] == nonce.len() as u8);
    assert(f.subrange(8, 40) =~= eph_pub);
    assert(f.subrange(42, ct_end) =~= mlkem_ct);
    assert(f.subrange(ct_end + 1, ct_end + 1 + nl) =~= nonce);
    assert(f.subrange(ct_end + 1 + nl, f.len() as int) =~= ciphertext);
}

/// Decrypting a frame built by `hybrid_encrypt` for our keys gives the
/// plaintext back when our ML-KEM secret recovers the secret encapsulated
/// against our ML-KEM public key (ML-KEM decapsulation fails only with
/// negligible probability, so that is a premise).
pub proof fn lemma_hybrid_roundtrip(f: Seq<u8>, eph: Seq<u8>, m: Seq<u8>, nonce: Seq<u8>, xsk: Seq<u8>, msk: Seq<u8>, mpub: Seq<u8>, pt: Seq<u8>)
    requires
        is_hybrid_frame_of(f, eph, m, nonce, x25519_public_of(xsk), mpub, pt),
        xsk.len() == 32,
        msk.len() == MLKEM768_DK_LEN,
        mlkem768_decaps_of(msk, mlkem768_encaps_of(mpub, m).0) == mlkem768_encaps_of(mpub, m).1,
    ensures
        hybrid_decrypt_outcome(f, xsk, msk) == Some(pt),
{
    assert(x25519_public_of(xsk) == x25519_public_of(xsk));
}

} // verus!
