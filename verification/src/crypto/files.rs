//! The files of the command line's crypto commands: password-encrypted
//! files (`[salt length (1)] salt [nonce length (1)] nonce ciphertext`),
//! hybrid key files (the X25519 key, 32 bytes, then the ML-KEM key), and the
//! names of the AEAD algorithms.

use vstd::prelude::*;
use vstd::string::StringExecFns;
use crate::bytes::{push_all, slice_to_vec};
use crate::crypto::aead::AeadAlgorithm;
use crate::crypto::hybrid::HybridKeyPair;
use crate::decimal::{all_ascii, lower_seq, lowercase_of, to_lowercase};

verus! {

/// A password-encrypted file: the salt and the nonce each after its length
/// (one byte, the length modulo 256), then the ciphertext.
pub open spec fn password_file_spec(salt: Seq<u8>, nonce: Seq<u8>, ct: Seq<u8>) -> Seq<u8> {
    seq![salt.len() as u8] + salt + seq![nonce.len() as u8] + nonce + ct
}

/// The salt, nonce and ciphertext of a password-encrypted file; none for a
/// file under four bytes or whose lengths run past its end.
pub open spec fn password_file_parts(d: Seq<u8>) -> Option<(Seq<u8>, Seq<u8>, Seq<u8>)> {
    if d.len() < 4 {
        None
    } else {
        let sl = d[0] as int;
        if 1 + sl >= d.len() {
            None
        } else {
            let nl = d[1 + sl] as int;
            if 2 + sl + nl > d.len() {
                None
            } else {
                Some((d.subrange(1, 1 + sl), d.subrange(2 + sl, 2 + sl + nl), d.subrange(2 + sl + nl, d.len() as int)))
            }
        }
    }
}

/// Writes a password-encrypted file.
pub fn password_file(salt: &[u8], nonce: &[u8], ct: &[u8]) -> (r: Vec<u8>)
    ensures
        r@ == password_file_spec(salt@, nonce@, ct@),
{
    let mut out: Vec<u8> = Vec::new();
    out.push(salt.len() as u8);
    push_all(&mut out, salt);
    out.push(nonce.len() as u8);
    push_all(&mut out, nonce);
    push_all(&mut out, ct);
    assert(out@ =~= password_file_spec(salt@, nonce@, ct@));
    out
}

/// Reads a password-encrypted file into its salt, nonce and ciphertext.
pub fn parse_password_file(data: &[u8]) -> (r: Option<(Vec<u8>, Vec<u8>, Vec<u8>)>)
    ensures
        match password_file_parts(data@) {
            Some((s, n, c)) => r matches Some((rs, rn, rc)) && rs@ == s && rn@ == n && rc@ == c,
            None => r is None,
        },
{
    if data.len() < 4 {
        return None;
    }
    let sl = data[0] as usize;
    if 1 + sl >= data.len() {
        return None;
    }
    let nl = data[1 + sl] as usize;
    if 2 + sl + nl > data.len() {
        return None;
    }
    let salt = slice_to_vec(data, 1, 1 + sl);
    let nonce = slice_to_vec(data, 2 + sl, 2 + sl + nl);
    let ct = slice_to_vec(data, 2 + sl + nl, data.len());
    Some((salt, nonce, ct))
}

/// Reading a password-encrypted file gives back what was written, when the
/// salt and the nonce each hold at most 255 bytes and the file at least four.
pub proof fn lemma_password_file_roundtrip(salt: Seq<u8>, nonce: Seq<u8>, ct: Seq<u8>)
    requires
        salt.len() <= 255,
        nonce.len() <= 255,
        salt.len() + nonce.len() + ct.len() >= 2,
    ensures
        password_file_parts(password_file_spec(salt, nonce, ct)) == Some((salt, nonce, ct)),
{
    let d = password_file_spec(salt, nonce, ct);
    let sl = salt.len() as int;
    let nl = nonce.len() as int;
    assert(d[0] as int == sl);
    assert(d[1 + sl] as int == nl);
    assert(d.subrange(1, 1 + sl) =~= salt);
    assert(d.subrange(2 + sl, 2 + sl + nl) =~= nonce);
    assert(d.subrange(2 + sl + nl, d.len() as int) =~= ct);
}

/// The public key file of a hybrid key pair: the X25519 public key, then the
/// ML-KEM public key.
pub fn hybrid_public_file(kp: &HybridKeyPair) -> (r: Vec<u8>)
    ensures
        r@ == kp.x25519_public@ + kp.mlkem_public@,
{
    let mut out: Vec<u8> = Vec::new();
    push_all(&mut out, kp.x25519_public.as_slice());
    push_all(&mut out, kp.mlkem_public.as_slice());
    assert(out@ =~= kp.x25519_public@ + kp.mlkem_public@);
    out
}

/// The secret key file of a hybrid key pair: the X25519 secret key, then the
/// ML-KEM secret key.
pub fn hybrid_secret_file(kp: &HybridKeyPair) -> (r: Vec<u8>)
    ensures
        r@ == kp.x25519_secret@ + kp.mlkem_secret@,
{
    let mut out: Vec<u8> = Vec::new();
    push_all(&mut out, kp.x25519_secret.as_slice());
    push_all(&mut out, kp.mlkem_secret.as_slice());
    assert(out@ =~= kp.x25519_secret@ + kp.mlkem_secret@);
    out
}

/// Splits a hybrid key file into its X25519 key (the first 32 bytes) and its
/// ML-KEM key (the rest); none for a file under 32 bytes.
pub fn split_key_file(data: &[u8]) -> (r: Option<(Vec<u8>, Vec<u8>)>)
    ensures
        data@.len() < 32 ==> r is None,
        data@.len() >= 32 ==> (r matches Some((x, m)) && x@ == data@.subrange(0, 32) && m@ == data@.subrange(
            32,
            data@.len() as int,
        )),
{
    if data.len() < 32 {
        return None;
    }
    Some((slice_to_vec(data, 0, 32), slice_to_vec(data, 32, data.len())))
}

/// A key file split after its 32-byte X25519 key gives back both keys.
pub proof fn lemma_key_file_roundtrip(x: Seq<u8>, m: Seq<u8>)
    requires
        x.len() == 32,
    ensures
        (x + m).subrange(0, 32) == x,
        (x + m).subrange(32, (x + m).len() as int) == m,
{
    assert((x + m).subrange(0, 32) =~= x);
    assert((x + m).subrange(32, (x + m).len() as int) =~= m);
}

/// The ML-DSA key of a key file: what follows the 32-byte X25519 key, or the
/// whole file when it is no longer than that.
pub fn signature_key_part(data: &[u8]) -> (r: Vec<u8>)
    ensures
        r@ == (if data@.len() > 32 { data@.subrange(32, data@.len() as int) } else { data@ }),
{
    if data.len() > 32 {
        slice_to_vec(data, 32, data.len())
    } else {
        let r = slice_to_vec(data, 0, data.len());
        assert(data@.subrange(0, data@.len() as int) =~= data@);
        r
    }
}

/// The AEAD algorithm a lowercase name stands for.
pub open spec fn aead_of_name(s: Seq<char>) -> Option<AeadAlgorithm> {
    if s == "chacha20"@ || s == "chacha20poly1305"@ {
        Some(AeadAlgorithm::ChaCha20Poly1305)
    } else if s == "aes256gcm"@ || s == "aes-256-gcm"@ || s == "aes"@ {
        Some(AeadAlgorithm::Aes256Gcm)
    } else {
        None
    }
}

/// Parses an AEAD algorithm name, ignoring case: `chacha20` or
/// `chacha20poly1305`, `aes256gcm`, `aes-256-gcm` or `aes`; otherwise the
/// error names the lowercased input and the choices.
pub fn parse_aead_algo(s: &str) -> (r: Result<AeadAlgorithm, String>)
    ensures
        all_ascii(s@) ==> lowercase_of(s@) == lower_seq(s@),
        match aead_of_name(lowercase_of(s@)) {
            Some(a) => r == Ok::<AeadAlgorithm, String>(a),
            None => r matches Err(msg) && msg@ == "unknown algorithm: "@ + lowercase_of(s@)
                + " (available: chacha20, aes256gcm)"@,
        },
{
    let l = to_lowercase(s);
    if l == "chacha20".to_owned() || l == "chacha20poly1305".to_owned() {
        Ok(AeadAlgorithm::ChaCha20Poly1305)
    } else if l == "aes256gcm".to_owned() || l == "aes-256-gcm".to_owned() || l == "aes".to_owned() {
        Ok(AeadAlgorithm::Aes256Gcm)
    } else {
        let mut m = "unknown algorithm: ".to_owned();
        m.append(l.as_str());
        m.append(" (available: chacha20, aes256gcm)");
        Err(m)
    }
}

} // verus!
