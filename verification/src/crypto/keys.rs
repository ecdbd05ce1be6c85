//! Key exchange: X25519 Diffie-Hellman over raw 32-byte keys.

use vstd::prelude::*;

verus! {

/// The X25519 public key of the 32-byte secret `secret`.
pub uninterp spec fn x25519_public_of(secret: Seq<u8>) -> Seq<u8>;

/// The X25519 shared secret of `secret` with the peer's public key `public`.
pub uninterp spec fn x25519_shared_of(secret: Seq<u8>, public: Seq<u8>) -> Seq<u8>;

/// A fresh random X25519 secret key.
///
/// Calls `StaticSecret::random_from_rng(OsRng)` and `to_bytes`; nothing is
/// stated of the bytes.
#[verifier::external_body]
fn x25519_random_secret() -> (r: [u8; 32]) {
    x25519_dalek::StaticSecret::random_from_rng(rand::rngs::OsRng).to_bytes()
}

/// The public key of an X25519 secret key.
///
/// Calls `PublicKey::from(&StaticSecret::from(secret))` and `to_bytes`; the key
/// is named by `x25519_public_of`.
#[verifier::external_body]
fn x25519_public(secret: &[u8; 32]) -> (r: [u8; 32])
    ensures
        r@ == x25519_public_of(secret@),
{
    x25519_dalek::PublicKey::from(&x25519_dalek::StaticSecret::from(*secret)).to_bytes()
}

/// The Diffie-Hellman shared secret of a secret key and a peer's public key.
///
/// Calls `StaticSecret::diffie_hellman` and `SharedSecret::as_bytes`; the secret
/// is named by `x25519_shared_of`. As the crate documents, both parties agree:
/// when `public` is the public key of a secret `b`, the result is what `b`
/// computes with our public key (both are the clamped scalars' product times
/// the base point).
#[verifier::external_body]
fn x25519_diffie_hellman(secret: &[u8; 32], public: &[u8; 32]) -> (r: [u8; 32])
    ensures
        r@ == x25519_shared_of(secret@, public@),
        forall|b: Seq<u8>| b.len() == 32 && public@ == #[trigger] x25519_public_of(b) ==> r@ == x25519_shared_of(
            b,
            x25519_public_of(secret@),
        ),
{
    let sk = x25519_dalek::StaticSecret::from(*secret);
    *sk.diffie_hellman(&x25519_dalek::PublicKey::from(*public)).as_bytes()
}

/// Copies a 32-byte slice into an array.
pub(crate) fn array32(s: &[u8]) -> (r: [u8; 32])
    requires
        s@.len() == 32,
    ensures
        r@ == s@,
{
    let mut a: [u8; 32] = [0u8; 32];
    let mut i: usize = 0;
    while i < 32
        invariant
            s@.len() == 32,
            i <= 32,
            forall|j: int| 0 <= j < i ==> a@[j] == s@[j],
        decreases 32 - i,
    {
        a.set(i, s[i]);
        i = i + 1;
    }
    assert(a@ =~= s@);
    a
}

/// X25519 key pair (raw 32-byte keys).
pub struct X25519KeyPair {
    /// Secret key (32 bytes).
    pub secret: [u8; 32],
    /// Public key (32 bytes).
    pub public: [u8; 32],
}

/// Generates a new X25519 key pair.
pub fn generate_x25519_keypair() -> (r: X25519KeyPair)
    ensures
        r.public@ == x25519_public_of(r.secret@),
{
    let secret = x25519_random_secret();
    let public = x25519_public(&secret);
    X25519KeyPair { secret, public }
}

/// Computes the shared secret of our secret key and their public key.
pub fn x25519_shared_secret(our_secret: &[u8; 32], their_public: &[u8; 32]) -> (r: [u8; 32])
    ensures
        r@ == x25519_shared_of(our_secret@, their_public@),
        forall|b: Seq<u8>| b.len() == 32 && their_public@ == #[trigger] x25519_public_of(b) ==> r@ == x25519_shared_of(
            b,
            x25519_public_of(our_secret@),
        ),
{
    x25519_diffie_hellman(our_secret, their_public)
}

} // verus!
