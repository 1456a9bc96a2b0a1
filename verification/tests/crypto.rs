use chacha20poly1305::aead::Aead;
use chacha20poly1305::{Key, KeyInit, XChaCha20Poly1305, XNonce};
use lan_remote::crypto::{
    connection_cipher, derive_key, drawn_bytes, random_bytes, Cipher, KeyError, RandomUnavailable,
    NONCE_LEN, SALT_LEN, TAG_LEN,
};

#[test]
fn lengths() {
    assert_eq!(SALT_LEN, 16);
    assert_eq!(NONCE_LEN, 24);
    assert_eq!(TAG_LEN, 16);
}

#[test]
fn random_arrays_differ() {
    let a = random_bytes::<32>().unwrap();
    let b = random_bytes::<32>().unwrap();
    assert_ne!(a, b);
    assert_ne!(a, [0u8; 32]);
    assert_eq!(RandomUnavailable, RandomUnavailable);
}

#[test]
fn an_empty_array_can_always_be_had() {
    assert_eq!(random_bytes::<0>(), Ok([]));
}

#[test]
fn what_was_drawn_is_handed_on() {
    assert_eq!(drawn_bytes(Ok([1u8, 2, 3])), Ok([1, 2, 3]));
    assert_eq!(drawn_bytes::<3>(Err(getrandom::Error::UNSUPPORTED)), Err(RandomUnavailable));
}

#[test]
fn sealing_fails_exactly_without_a_nonce() {
    let cipher = Cipher::new(&[3u8; 32]);
    let nonce = [5u8; 24];
    assert_eq!(cipher.seal_drawn(Ok(nonce), b"x"), Ok(cipher.seal_with_nonce(&nonce, b"x")));
    assert_eq!(cipher.seal_drawn(Err(RandomUnavailable), b"x"), Err(RandomUnavailable));
}

#[test]
fn key_is_that_of_argon2id() {
    let salt = [7u8; SALT_LEN];
    let mut expected = [0u8; 32];
    argon2::Argon2::default().hash_password_into(b"secret", &salt, &mut expected).unwrap();
    assert_eq!(derive_key("secret", &salt), Ok(expected));
    assert_eq!(derive_key("secret", &salt), derive_key("secret", &salt));
}

#[test]
fn key_depends_on_password_and_salt() {
    let key = derive_key("secret", &[7u8; 16]).unwrap();
    assert_ne!(derive_key("Secret", &[7u8; 16]).unwrap(), key);
    assert_ne!(derive_key("secret", &[8u8; 16]).unwrap(), key);
}

#[test]
fn an_empty_password_is_accepted() {
    assert!(derive_key("", &[1u8; 16]).is_ok());
}

#[test]
fn short_salt_is_refused() {
    assert_eq!(derive_key("secret", &[0u8; 7]), Err(KeyError::SaltTooShort));
    assert!(derive_key("secret", &[0u8; 8]).is_ok());
}

#[test]
fn key_errors_have_words() {
    assert_eq!(
        KeyError::PasswordTooLong.message(),
        "argon2 key derivation: password is too long"
    );
    assert_eq!(KeyError::SaltTooShort.message(), "argon2 key derivation: salt is too short");
    assert_eq!(KeyError::SaltTooLong.message(), "argon2 key derivation: salt is too long");
}

#[test]
fn sealed_is_nonce_then_xchacha20poly1305() {
    let key = [3u8; 32];
    let nonce = [5u8; 24];
    let sealed = Cipher::new(&key).seal_with_nonce(&nonce, b"hello");
    let ct = XChaCha20Poly1305::new(Key::from_slice(&key))
        .encrypt(XNonce::from_slice(&nonce), b"hello".as_slice())
        .unwrap();
    assert_eq!(&sealed[..24], &nonce);
    assert_eq!(&sealed[24..], &ct[..]);
    assert_eq!(sealed.len(), 24 + 5 + 16);
    assert_ne!(&sealed[24..29], b"hello");
}

#[test]
fn sealed_opens() {
    let cipher = Cipher::new(&[9u8; 32]);
    for len in [0usize, 1, 63, 64, 65, 1314] {
        let plain = vec![0x5a; len];
        let sealed = cipher.seal(&plain).unwrap();
        assert_eq!(sealed.len(), len + 40);
        assert_eq!(cipher.open(&sealed), Some(plain));
    }
}

#[test]
fn a_clone_has_the_same_key() {
    let cipher = Cipher::new(&[9u8; 32]);
    let sealed = cipher.clone().seal(b"x").unwrap();
    assert_eq!(cipher.open(&sealed), Some(b"x".to_vec()));
}

#[test]
fn nonces_are_fresh() {
    let cipher = Cipher::new(&[9u8; 32]);
    assert_ne!(cipher.seal(b"x").unwrap(), cipher.seal(b"x").unwrap());
}

#[test]
fn another_key_does_not_open() {
    let sealed = Cipher::new(&[1u8; 32]).seal(b"x").unwrap();
    assert_eq!(Cipher::new(&[2u8; 32]).open(&sealed), None);
}

#[test]
fn tampering_is_noticed() {
    let cipher = Cipher::new(&[1u8; 32]);
    let sealed = cipher.seal(b"payload").unwrap();
    for i in 0..sealed.len() {
        let mut bad = sealed.clone();
        bad[i] ^= 1;
        assert_eq!(cipher.open(&bad), None);
    }
}

#[test]
fn malformed_data_does_not_open() {
    let cipher = Cipher::new(&[1u8; 32]);
    assert_eq!(cipher.open(&[]), None);
    assert_eq!(cipher.open(&[0; 23]), None);
    assert_eq!(cipher.open(&[0; 24]), None);
    assert_eq!(cipher.open(&[0; 39]), None);
    assert_eq!(cipher.open(&[0; 40]), None);
}

#[test]
fn both_sides_with_one_password_understand_each_other() {
    let salt = [4u8; SALT_LEN];
    let host = connection_cipher("pw", &salt).unwrap();
    let viewer = connection_cipher("pw", &salt).unwrap();
    let stranger = connection_cipher("wp", &salt).unwrap();
    let sealed = viewer.seal(b"hello").unwrap();
    assert_eq!(host.open(&sealed), Some(b"hello".to_vec()));
    assert_eq!(stranger.open(&sealed), None);
    assert_eq!(connection_cipher("pw", &[0u8; 3]).err(), Some(KeyError::SaltTooShort));
}
