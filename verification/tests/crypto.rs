use cpac::crypto::aead::{decrypt_aead, encrypt_aead, AeadAlgorithm};
use cpac::crypto::hqc::{hqc_decapsulate, hqc_encapsulate, hqc_keygen, HqcLevel};
use cpac::crypto::hybrid::{hybrid_decrypt, hybrid_encrypt, hybrid_keygen, is_cphe};
use cpac::crypto::kdf::{derive_key_argon2, derive_key_hkdf, random_salt, KdfAlgorithm};
use cpac::crypto::keys::{generate_x25519_keypair, x25519_shared_secret};
use cpac::crypto::pqc::{pqc_decapsulate, pqc_encapsulate, pqc_keygen, pqc_sign, pqc_verify, PqcAlgorithm};
use cpac::crypto::sign::{
    ed25519_sign, ed25519_verify, generate_ed25519_keypair, hybrid_sign, hybrid_sign_keygen, hybrid_verify, is_cphs,
    slh_dsa_sign, slh_dsa_verify,
};
use cpac::crypto::{decrypt_with_password, encrypt_with_password};
use cpac::error::CpacError;

#[test]
fn chacha_roundtrip() {
    let key = [0x42u8; 32];
    let plaintext = b"Hello, CPAC crypto!";
    let (nonce, ct) = encrypt_aead(plaintext, &key, AeadAlgorithm::ChaCha20Poly1305).unwrap();
    let pt = decrypt_aead(&ct, &key, &nonce, AeadAlgorithm::ChaCha20Poly1305).unwrap();
    assert_eq!(pt, plaintext);
}

#[test]
fn aes_roundtrip() {
    let key = [0x55u8; 32];
    let plaintext = b"AES-256-GCM test data";
    let (nonce, ct) = encrypt_aead(plaintext, &key, AeadAlgorithm::Aes256Gcm).unwrap();
    let pt = decrypt_aead(&ct, &key, &nonce, AeadAlgorithm::Aes256Gcm).unwrap();
    assert_eq!(pt, plaintext);
}

#[test]
fn tampered_ciphertext_fails() {
    let key = [0x42u8; 32];
    let (nonce, mut ct) = encrypt_aead(b"data", &key, AeadAlgorithm::ChaCha20Poly1305).unwrap();
    ct[0] ^= 0xFF;
    assert!(decrypt_aead(&ct, &key, &nonce, AeadAlgorithm::ChaCha20Poly1305).is_err());
}

#[test]
fn aead_ciphertext_carries_tag_and_fresh_nonce() {
    let key = [7u8; 32];
    let (n1, c1) = encrypt_aead(b"abc", &key, AeadAlgorithm::Aes256Gcm).unwrap();
    let (n2, _c2) = encrypt_aead(b"abc", &key, AeadAlgorithm::Aes256Gcm).unwrap();
    assert_eq!(n1.len(), 12);
    assert_eq!(c1.len(), 3 + 16);
    assert_ne!(n1, n2);
}

#[test]
fn aead_bad_key_and_nonce_lengths() {
    assert!(matches!(encrypt_aead(b"x", &[0u8; 16], AeadAlgorithm::ChaCha20Poly1305), Err(CpacError::Encryption(_))));
    assert!(decrypt_aead(b"x", &[0u8; 31], &[0u8; 12], AeadAlgorithm::Aes256Gcm).is_err());
    assert!(decrypt_aead(b"x", &[0u8; 32], &[0u8; 11], AeadAlgorithm::Aes256Gcm).is_err());
}

#[test]
fn aead_wire_ids() {
    assert_eq!(AeadAlgorithm::ChaCha20Poly1305.id(), 1);
    assert_eq!(AeadAlgorithm::Aes256Gcm.id(), 2);
    assert_eq!(AeadAlgorithm::from_id(2).unwrap(), AeadAlgorithm::Aes256Gcm);
    assert!(AeadAlgorithm::from_id(3).is_err());
    assert_eq!(AeadAlgorithm::Aes256Gcm.nonce_size(), 12);
    assert_eq!(KdfAlgorithm::HkdfSha256.id(), 1);
    assert!(KdfAlgorithm::from_id(0).is_err());
}

#[test]
fn hkdf_deterministic() {
    let key1 = derive_key_hkdf(b"input", b"salt", b"info").unwrap();
    let key2 = derive_key_hkdf(b"input", b"salt", b"info").unwrap();
    assert_eq!(key1, key2);
}

#[test]
fn hkdf_different_inputs() {
    let key1 = derive_key_hkdf(b"input1", b"salt", b"info").unwrap();
    let key2 = derive_key_hkdf(b"input2", b"salt", b"info").unwrap();
    assert_ne!(key1, key2);
}

#[test]
fn hkdf_rfc5869_case1() {
    let ikm = [0x0bu8; 22];
    let salt: Vec<u8> = (0u8..=0x0c).collect();
    let info: Vec<u8> = (0xf0u8..=0xf9).collect();
    let okm = derive_key_hkdf(&ikm, &salt, &info).unwrap();
    assert_eq!(&okm[..8], &[0x3c, 0xb2, 0x5f, 0x25, 0xfa, 0xac, 0xd5, 0x7a]);
}

#[test]
fn argon2_derives_key() {
    let salt = random_salt();
    let key = derive_key_argon2(b"password", &salt).unwrap();
    assert_eq!(key.len(), 32);
}

#[test]
fn argon2_deterministic_with_same_salt() {
    let salt = vec![0x42u8; 16];
    let key1 = derive_key_argon2(b"pass", &salt).unwrap();
    let key2 = derive_key_argon2(b"pass", &salt).unwrap();
    assert_eq!(key1, key2);
}

#[test]
fn argon2_short_salt_padded_with_zeros() {
    let short = derive_key_argon2(b"pass", &[1u8, 2, 3]).unwrap();
    let mut padded = vec![0u8; 16];
    padded[..3].copy_from_slice(&[1, 2, 3]);
    let long = derive_key_argon2(b"pass", &padded).unwrap();
    assert_eq!(short, long);
}

#[test]
fn key_exchange_roundtrip() {
    let alice = generate_x25519_keypair();
    let bob = generate_x25519_keypair();
    let alice_shared = x25519_shared_secret(&alice.secret, &bob.public);
    let bob_shared = x25519_shared_secret(&bob.secret, &alice.public);
    assert_eq!(alice_shared, bob_shared);
}

#[test]
fn different_keys_different_secrets() {
    let alice = generate_x25519_keypair();
    let bob = generate_x25519_keypair();
    let eve = generate_x25519_keypair();
    let ab = x25519_shared_secret(&alice.secret, &bob.public);
    let ae = x25519_shared_secret(&alice.secret, &eve.public);
    assert_ne!(ab, ae);
}

#[test]
fn password_roundtrip_chacha() {
    let data = b"secret message for CPAC encryption test";
    let password = b"hunter2";
    let (salt, nonce, ct) = encrypt_with_password(data, password, AeadAlgorithm::ChaCha20Poly1305).unwrap();
    let pt = decrypt_with_password(&ct, password, &salt, &nonce, AeadAlgorithm::ChaCha20Poly1305).unwrap();
    assert_eq!(pt, data);
}

#[test]
fn password_roundtrip_aes() {
    let data = b"another secret for AES-GCM";
    let password = b"correcthorsebatterystaple";
    let (salt, nonce, ct) = encrypt_with_password(data, password, AeadAlgorithm::Aes256Gcm).unwrap();
    let pt = decrypt_with_password(&ct, password, &salt, &nonce, AeadAlgorithm::Aes256Gcm).unwrap();
    assert_eq!(pt, data);
}

#[test]
fn wrong_password_fails() {
    let data = b"cannot read this";
    let (salt, nonce, ct) = encrypt_with_password(data, b"right", AeadAlgorithm::ChaCha20Poly1305).unwrap();
    let result = decrypt_with_password(&ct, b"wrong", &salt, &nonce, AeadAlgorithm::ChaCha20Poly1305);
    assert!(result.is_err());
}

#[test]
fn mlkem768_keygen_encap_decap_roundtrip() {
    let kp = pqc_keygen(PqcAlgorithm::MlKem768).unwrap();
    assert!(!kp.public_key.is_empty());
    assert!(!kp.secret_key.is_empty());
    let (ct, ss_sender) = pqc_encapsulate(&kp.public_key, PqcAlgorithm::MlKem768).unwrap();
    let ss_receiver = pqc_decapsulate(&ct, &kp.secret_key, PqcAlgorithm::MlKem768).unwrap();
    assert_eq!(ss_sender, ss_receiver, "shared secrets must match");
    assert_eq!(ss_sender.len(), 32, "shared secret should be 32 bytes");
}

#[test]
fn mldsa65_keygen_sign_verify_roundtrip() {
    let kp = pqc_keygen(PqcAlgorithm::MlDsa65).unwrap();
    let message = b"CPAC post-quantum signature test";
    let sig = pqc_sign(message, &kp.secret_key, PqcAlgorithm::MlDsa65).unwrap();
    assert!(!sig.is_empty());
    let valid = pqc_verify(message, &sig, &kp.public_key, PqcAlgorithm::MlDsa65).unwrap();
    assert!(valid, "signature must verify");
}

#[test]
fn mldsa65_wrong_message_fails() {
    let kp = pqc_keygen(PqcAlgorithm::MlDsa65).unwrap();
    let sig = pqc_sign(b"original", &kp.secret_key, PqcAlgorithm::MlDsa65).unwrap();
    let valid = pqc_verify(b"tampered", &sig, &kp.public_key, PqcAlgorithm::MlDsa65).unwrap();
    assert!(!valid, "tampered message must not verify");
}

#[test]
fn slh_dsa_returns_error() {
    assert!(pqc_keygen(PqcAlgorithm::SlhDsaSha2128s).is_err());
    assert!(pqc_sign(b"msg", b"sk", PqcAlgorithm::SlhDsaSha2128s).is_err());
    assert!(slh_dsa_sign(b"msg", b"sk").is_err());
    assert!(slh_dsa_verify(b"msg", b"sig", b"pk").is_err());
}

#[test]
fn kem_on_signature_algo_returns_error() {
    assert!(pqc_encapsulate(b"pk", PqcAlgorithm::MlDsa65).is_err());
}

#[test]
fn pqc_wire_ids_and_labels() {
    for a in [PqcAlgorithm::MlKem768, PqcAlgorithm::MlKem1024, PqcAlgorithm::MlDsa65, PqcAlgorithm::MlDsa87, PqcAlgorithm::SlhDsaSha2128s] {
        assert_eq!(PqcAlgorithm::from_id(a.id()).unwrap(), a);
    }
    assert_eq!(PqcAlgorithm::MlDsa65.id(), 10);
    assert_eq!(PqcAlgorithm::SlhDsaSha2128s.id(), 20);
    assert_eq!(PqcAlgorithm::MlKem768.label(), "ML-KEM-768");
    assert_eq!(PqcAlgorithm::SlhDsaSha2128s.label(), "SLH-DSA-SHA2-128s");
    assert!(PqcAlgorithm::from_id(3).is_err());
}

#[test]
fn mlkem_bad_key_length_rejected() {
    assert!(pqc_encapsulate(&[0u8; 10], PqcAlgorithm::MlKem768).is_err());
    assert!(pqc_decapsulate(&[0u8; 1088], &[0u8; 10], PqcAlgorithm::MlKem768).is_err());
}

#[test]
fn hqc128_roundtrip() {
    let kp = hqc_keygen(HqcLevel::Hqc128).unwrap();
    let (ct, ss_enc) = hqc_encapsulate(&kp.public_key, HqcLevel::Hqc128).unwrap();
    let ss_dec = hqc_decapsulate(&ct, &kp.secret_key, HqcLevel::Hqc128).unwrap();
    assert_eq!(ss_enc, ss_dec);
    assert!(!ss_enc.is_empty());
}

#[test]
fn hqc192_roundtrip() {
    let kp = hqc_keygen(HqcLevel::Hqc192).unwrap();
    let (ct, ss_enc) = hqc_encapsulate(&kp.public_key, HqcLevel::Hqc192).unwrap();
    let ss_dec = hqc_decapsulate(&ct, &kp.secret_key, HqcLevel::Hqc192).unwrap();
    assert_eq!(ss_enc, ss_dec);
}

#[test]
fn hqc256_roundtrip() {
    let kp = hqc_keygen(HqcLevel::Hqc256).unwrap();
    let (ct, ss_enc) = hqc_encapsulate(&kp.public_key, HqcLevel::Hqc256).unwrap();
    let ss_dec = hqc_decapsulate(&ct, &kp.secret_key, HqcLevel::Hqc256).unwrap();
    assert_eq!(ss_enc, ss_dec);
}

#[test]
fn hqc_level_wire_ids() {
    assert_eq!(HqcLevel::from_id(30).unwrap(), HqcLevel::Hqc128);
    assert_eq!(HqcLevel::from_id(31).unwrap(), HqcLevel::Hqc192);
    assert_eq!(HqcLevel::from_id(32).unwrap(), HqcLevel::Hqc256);
    assert!(HqcLevel::from_id(99).is_err());
    assert_eq!(HqcLevel::Hqc192.label(), "HQC-192");
    assert_eq!(HqcLevel::Hqc256.id(), 32);
}

#[test]
fn hqc_bad_key_length_rejected() {
    assert!(hqc_encapsulate(&[0u8; 5], HqcLevel::Hqc128).is_err());
    assert!(hqc_decapsulate(&[0u8; 5], &[0u8; 5], HqcLevel::Hqc256).is_err());
}

#[test]
fn hybrid_roundtrip() {
    let kp = hybrid_keygen().unwrap();
    let plaintext = b"Hello hybrid post-quantum world!";
    let encrypted = hybrid_encrypt(plaintext, &kp.x25519_public, &kp.mlkem_public).unwrap();
    assert!(is_cphe(&encrypted));
    let decrypted = hybrid_decrypt(&encrypted, &kp.x25519_secret, &kp.mlkem_secret).unwrap();
    assert_eq!(decrypted, plaintext);
}

#[test]
fn hybrid_large_data() {
    let kp = hybrid_keygen().unwrap();
    let plaintext: Vec<u8> = (0u8..=255).cycle().take(100_000).collect();
    let encrypted = hybrid_encrypt(&plaintext, &kp.x25519_public, &kp.mlkem_public).unwrap();
    let decrypted = hybrid_decrypt(&encrypted, &kp.x25519_secret, &kp.mlkem_secret).unwrap();
    assert_eq!(decrypted, plaintext);
}

#[test]
fn hybrid_wrong_key_fails() {
    let kp1 = hybrid_keygen().unwrap();
    let kp2 = hybrid_keygen().unwrap();
    let plaintext = b"secret data";
    let encrypted = hybrid_encrypt(plaintext, &kp1.x25519_public, &kp1.mlkem_public).unwrap();
    let result = hybrid_decrypt(&encrypted, &kp2.x25519_secret, &kp2.mlkem_secret);
    assert!(result.is_err());
}

#[test]
fn is_cphe_detection() {
    assert!(is_cphe(b"CPHEsomething"));
    assert!(!is_cphe(b"CPsomething"));
    assert!(!is_cphe(b"XX"));
}

#[test]
fn hybrid_frame_header_layout() {
    let kp = hybrid_keygen().unwrap();
    let f = hybrid_encrypt(b"abc", &kp.x25519_public, &kp.mlkem_public).unwrap();
    assert_eq!(&f[..4], b"CPHE");
    assert_eq!(&f[4..8], &[2, 1, 1, 1]);
    assert_eq!(u16::from_le_bytes([f[40], f[41]]), 1088);
    assert_eq!(f[42 + 1088], 12);
    assert_eq!(f.len(), 42 + 1088 + 1 + 12 + 3 + 16);
}

#[test]
fn hybrid_decrypt_rejects_bad_frames() {
    assert!(hybrid_decrypt(b"short", &[0u8; 32], &[0u8; 2400]).is_err());
    let mut f = vec![0u8; 64];
    f[..4].copy_from_slice(b"CPHE");
    f[4] = 9;
    assert!(hybrid_decrypt(&f, &[0u8; 32], &[0u8; 2400]).is_err());
    f[4] = 2;
    f[5] = 99;
    assert!(hybrid_decrypt(&f, &[0u8; 32], &[0u8; 2400]).is_err());
    // a v2 header with valid ids whose frame ends before the ML-KEM length
    let mut short = b"CPHE".to_vec();
    short.extend_from_slice(&[2, PqcAlgorithm::MlKem768.id(), AeadAlgorithm::ChaCha20Poly1305.id(), KdfAlgorithm::HkdfSha256.id()]);
    short.extend_from_slice(&[0u8; 31]);
    assert_eq!(short.len(), 39);
    assert!(matches!(hybrid_decrypt(&short, &[0u8; 32], &[0u8; 2400]), Err(CpacError::Encryption(_))));
}

#[test]
fn sign_verify_roundtrip() {
    let kp = generate_ed25519_keypair();
    let message = b"CPAC integrity check";
    let sig = ed25519_sign(&kp.signing, message);
    assert!(ed25519_verify(&kp.verifying, message, &sig));
}

#[test]
fn verify_tampered_fails() {
    let kp = generate_ed25519_keypair();
    let sig = ed25519_sign(&kp.signing, b"original");
    assert!(!ed25519_verify(&kp.verifying, b"tampered", &sig));
}

#[test]
fn wrong_key_fails() {
    let kp1 = generate_ed25519_keypair();
    let kp2 = generate_ed25519_keypair();
    let sig = ed25519_sign(&kp1.signing, b"message");
    assert!(!ed25519_verify(&kp2.verifying, b"message", &sig));
}

#[test]
fn ed25519_rfc8032_test1() {
    let sk: [u8; 32] = [
        0x9d, 0x61, 0xb1, 0x9d, 0xef, 0xfd, 0x5a, 0x60, 0xba, 0x84, 0x4a, 0xf4, 0x92, 0xec, 0x2c, 0xc4, 0x44, 0x49,
        0xc5, 0x69, 0x7b, 0x32, 0x69, 0x19, 0x70, 0x3b, 0xac, 0x03, 0x1c, 0xae, 0x7f, 0x60,
    ];
    let sig = ed25519_sign(&sk, b"");
    assert_eq!(&sig[..4], &[0xe5, 0x56, 0x43, 0x00]);
    assert!(!ed25519_verify(&sk, b"", &sig[..63]));
}

#[test]
fn hybrid_sign_verify_roundtrip() {
    let kp = hybrid_sign_keygen().unwrap();
    let frame = hybrid_sign(b"hybrid message", &kp.ed25519_signing, &kp.mldsa_signing).unwrap();
    assert!(is_cphs(&frame));
    assert_eq!(frame[4], 1);
    assert_eq!(frame.len(), 73 + 3309);
    assert!(hybrid_verify(b"hybrid message", &frame, &kp.ed25519_verifying, &kp.mldsa_verifying).unwrap());
    assert!(!hybrid_verify(b"other message", &frame, &kp.ed25519_verifying, &kp.mldsa_verifying).unwrap());
    assert!(hybrid_verify(b"x", &frame[..50], &kp.ed25519_verifying, &kp.mldsa_verifying).is_err());
    assert!(hybrid_sign(b"m", &[0u8; 5], &kp.mldsa_signing).is_err());
    assert!(!is_cphs(b"CPH"));
}
