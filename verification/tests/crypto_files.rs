use cpac::crypto::aead::AeadAlgorithm;
use cpac::crypto::files::{
    parse_aead_algo, parse_password_file, password_file, signature_key_part, split_key_file,
};

#[test]
fn password_file_layout() {
    let f = password_file(&[1, 2, 3], &[9, 8], &[7, 7, 7, 7]);
    assert_eq!(f, vec![3, 1, 2, 3, 2, 9, 8, 7, 7, 7, 7]);
}

#[test]
fn password_file_reads_back() {
    let salt = [5u8; 16];
    let nonce = [6u8; 12];
    let ct = b"ciphertext and tag".to_vec();
    let f = password_file(&salt, &nonce, &ct);
    let (s, n, c) = parse_password_file(&f).unwrap();
    assert_eq!(s, salt.to_vec());
    assert_eq!(n, nonce.to_vec());
    assert_eq!(c, ct);
}

#[test]
fn password_file_too_small() {
    assert!(parse_password_file(&[0, 0, 0]).is_none());
    assert!(parse_password_file(&[]).is_none());
}

#[test]
fn password_file_lengths_past_end() {
    // salt length runs past the end
    assert!(parse_password_file(&[10, 1, 2, 3]).is_none());
    // nonce length runs past the end
    assert!(parse_password_file(&[1, 1, 9, 0]).is_none());
}

#[test]
fn password_file_empty_ciphertext() {
    let (s, n, c) = parse_password_file(&[1, 4, 2, 5, 6]).unwrap();
    assert_eq!(s, vec![4]);
    assert_eq!(n, vec![5, 6]);
    assert!(c.is_empty());
}

#[test]
fn key_file_split() {
    let mut data = vec![1u8; 32];
    data.extend_from_slice(&[2, 3, 4]);
    let (x, m) = split_key_file(&data).unwrap();
    assert_eq!(x, vec![1u8; 32]);
    assert_eq!(m, vec![2, 3, 4]);
    assert!(split_key_file(&[0u8; 31]).is_none());
    let (x2, m2) = split_key_file(&[9u8; 32]).unwrap();
    assert_eq!(x2.len(), 32);
    assert!(m2.is_empty());
}

#[test]
fn signature_key_after_x25519() {
    let mut data = vec![0u8; 32];
    data.extend_from_slice(&[5, 6]);
    assert_eq!(signature_key_part(&data), vec![5, 6]);
    assert_eq!(signature_key_part(&[1, 2, 3]), vec![1, 2, 3]);
    assert_eq!(signature_key_part(&[4u8; 32]), vec![4u8; 32]);
}

#[test]
fn aead_names() {
    assert_eq!(parse_aead_algo("chacha20").unwrap(), AeadAlgorithm::ChaCha20Poly1305);
    assert_eq!(parse_aead_algo("ChaCha20Poly1305").unwrap(), AeadAlgorithm::ChaCha20Poly1305);
    assert_eq!(parse_aead_algo("AES").unwrap(), AeadAlgorithm::Aes256Gcm);
    assert_eq!(parse_aead_algo("aes-256-gcm").unwrap(), AeadAlgorithm::Aes256Gcm);
    assert_eq!(parse_aead_algo("AES256GCM").unwrap(), AeadAlgorithm::Aes256Gcm);
}

#[test]
fn aead_unknown_name() {
    assert_eq!(
        parse_aead_algo("Blowfish").unwrap_err(),
        "unknown algorithm: blowfish (available: chacha20, aes256gcm)".to_string()
    );
}
