//! Password-based encryption for the control channel and the video stream.
//!
//! A random salt for each connection is exchanged in the clear; both sides derive
//! the same 32-byte key from the shared password with Argon2id. All traffic after
//! that is sealed with XChaCha20-Poly1305 under a random 24-byte nonce for each
//! message. A wrong password gives another key, so that what it seals does not
//! open and the peer is rejected.

use chacha20poly1305::aead::Aead;
use chacha20poly1305::{Key, KeyInit, XChaCha20Poly1305, XNonce};
use vstd::prelude::*;
use vstd::string::*;

verus! {

/// Length of the handshake salt, in bytes.
pub const SALT_LEN: usize = 16;

/// Length of an XChaCha20-Poly1305 nonce, in bytes.
pub const NONCE_LEN: usize = 24;

/// Length of a Poly1305 tag, in bytes.
pub const TAG_LEN: usize = 16;

/// Most bytes that one message can hold: 64 for each value of the block counter
/// but the first and the last.
pub const PLAINTEXT_MAX: u64 = 0x3f_ffff_ff80;

/// Fewest bytes of a salt.
pub const SALT_MIN: usize = 8;

/// Most bytes of a password, and of a salt.
pub const SECRET_MAX: u64 = 0xffff_ffff;

/// `getrandom::Error`, opaque: the error of the system's random number generator.
#[verifier::external_type_specification]
#[verifier::external_body]
pub struct ExRandomError(getrandom::Error);

/// `argon2::Error`, opaque: the error of a key derivation.
#[verifier::external_type_specification]
#[verifier::external_body]
pub struct ExArgon2Error(argon2::Error);

/// The key that Argon2id, version 0x13, with the default cost parameters, derives
/// from a password and a salt.
pub uninterp spec fn argon2id_key(password: Seq<u8>, salt: Seq<u8>) -> Seq<u8>;

/// What XChaCha20-Poly1305 makes of a plaintext under a key and a nonce, without
/// associated data: the ciphertext, then the tag.
pub uninterp spec fn xchacha_encrypt(key: Seq<u8>, nonce: Seq<u8>, plaintext: Seq<u8>) -> Seq<u8>;

/// The plaintext that XChaCha20-Poly1305 finds in a ciphertext with its tag, or
/// nothing where the tag does not authenticate it.
pub uninterp spec fn xchacha_decrypt(
    key: Seq<u8>,
    nonce: Seq<u8>,
    ciphertext: Seq<u8>,
) -> Option<Seq<u8>>;

/// Calls `getrandom::getrandom`, which fills a buffer with random bytes from the
/// system or fails. On an empty buffer it succeeds without asking the system. Nothing
/// is claimed of the bytes, nor of when it fails on another.
#[verifier::external_body]
fn system_random<const N: usize>() -> (r: Result<[u8; N], getrandom::Error>)
    ensures
        N == 0 ==> r is Ok,
{
    let mut b = [0u8; N];
    match getrandom::getrandom(&mut b) {
        Ok(()) => Ok(b),
        Err(e) => Err(e),
    }
}

/// Calls `argon2::Argon2::hash_password_into` with the default parameters, for 32
/// bytes. It gives a key, which is a function of the password and the salt,
/// whenever neither is longer than 2^32 - 1 bytes and the salt has at least 8.
#[verifier::external_body]
fn argon2_hash(password: &[u8], salt: &[u8]) -> (r: Result<[u8; 32], argon2::Error>)
    ensures
        r is Ok <==> (password@.len() <= SECRET_MAX && SALT_MIN <= salt@.len() <= SECRET_MAX),
        r matches Ok(key) ==> key@ == argon2id_key(password@, salt@),
{
    let mut key = [0u8; 32];
    match argon2::Argon2::default().hash_password_into(password, salt, &mut key) {
        Ok(()) => Ok(key),
        Err(e) => Err(e),
    }
}

/// Calls `Aead::encrypt` of `chacha20poly1305::XChaCha20Poly1305`. Within the
/// length that it takes it succeeds; the result is a function of key, nonce and
/// plaintext, is longer than the plaintext by the tag, and decrypts to the
/// plaintext under the same key and nonce.
#[verifier::external_body]
fn aead_encrypt(key: &[u8; 32], nonce: &[u8; 24], plaintext: &[u8]) -> (r: Option<Vec<u8>>)
    requires
        plaintext@.len() <= PLAINTEXT_MAX,
    ensures
        r is Some,
        r matches Some(c) ==> c@ == xchacha_encrypt(key@, nonce@, plaintext@),
        r matches Some(c) ==> c@.len() == plaintext@.len() + TAG_LEN,
        r matches Some(c) ==> xchacha_decrypt(key@, nonce@, c@) == Some(plaintext@),
{
    XChaCha20Poly1305::new(Key::from_slice(key)).encrypt(XNonce::from_slice(nonce), plaintext).ok()
}

/// Calls `Aead::decrypt` of `chacha20poly1305::XChaCha20Poly1305`. Its result is a
/// function of key, nonce and ciphertext; a plaintext is shorter than the
/// ciphertext by the tag.
#[verifier::external_body]
fn aead_decrypt(key: &[u8; 32], nonce: &[u8], ciphertext: &[u8]) -> (r: Option<Vec<u8>>)
    requires
        nonce@.len() == NONCE_LEN,
        ciphertext@.len() <= PLAINTEXT_MAX + TAG_LEN,
    ensures
        r is Some <==> xchacha_decrypt(key@, nonce@, ciphertext@) is Some,
        r matches Some(p) ==> Some(p@) == xchacha_decrypt(key@, nonce@, ciphertext@),
        r matches Some(p) ==> p@.len() + TAG_LEN == ciphertext@.len(),
{
    XChaCha20Poly1305::new(Key::from_slice(key)).decrypt(XNonce::from_slice(nonce), ciphertext).ok()
}

/// The system's random number generator is not available.
#[derive(Debug, Clone, Copy, PartialEq, Eq, Structural)]
pub struct RandomUnavailable;

/// Why no key can be derived.
#[derive(Debug, Clone, Copy, PartialEq, Eq, Structural)]
pub enum KeyError {
    PasswordTooLong,
    SaltTooShort,
    SaltTooLong,
}

impl KeyError {
    /// The error in words.
    pub fn message(&self) -> (text: &'static str)
        ensures
            text@ == match *self {
                KeyError::PasswordTooLong => "argon2 key derivation: password is too long"@,
                KeyError::SaltTooShort => "argon2 key derivation: salt is too short"@,
                KeyError::SaltTooLong => "argon2 key derivation: salt is too long"@,
            },
    {
        match *self {
            KeyError::PasswordTooLong => "argon2 key derivation: password is too long",
            KeyError::SaltTooShort => "argon2 key derivation: salt is too short",
            KeyError::SaltTooLong => "argon2 key derivation: salt is too long",
        }
    }
}

/// The system's random number generator gave that.
pub closed spec fn system_gave<const N: usize>(drawn: Result<[u8; N], getrandom::Error>) -> bool {
    call_ensures(system_random::<N>, (), drawn)
}

/// The result is what was drawn: the same bytes, or a failure if there are none.
pub open spec fn is_drawn<const N: usize>(
    drawn: Result<[u8; N], getrandom::Error>,
    r: Result<[u8; N], RandomUnavailable>,
) -> bool {
    match drawn {
        Ok(bytes) => r matches Ok(b) && b == bytes,
        Err(_) => r is Err,
    }
}

/// What the system gave for an array of random bytes: the bytes as they are, or that
/// there are none.
pub fn drawn_bytes<const N: usize>(drawn: Result<[u8; N], getrandom::Error>) -> (r: Result<
    [u8; N],
    RandomUnavailable,
>)
    ensures
        is_drawn(drawn, r),
{
    match drawn {
        Ok(b) => Ok(b),
        Err(_) => Err(RandomUnavailable),
    }
}

/// An array of random bytes: those that the system's generator gave, as they are. Fails
/// exactly if it gave none; an empty array can always be had.
pub fn random_bytes<const N: usize>() -> (r: Result<[u8; N], RandomUnavailable>)
    ensures
        N == 0 ==> r is Ok,
        exists|drawn: Result<[u8; N], getrandom::Error>| #[trigger]
            system_gave(drawn) && is_drawn(drawn, r),
{
    let drawn = system_random::<N>();
    assert(system_gave(drawn));
    drawn_bytes(drawn)
}

/// `random_bytes` gave that for a nonce.
pub open spec fn nonce_drawn(drawn: Result<[u8; 24], RandomUnavailable>) -> bool {
    call_ensures(random_bytes::<24>, (), drawn)
}

/// A nonce that was drawn for a message is one that the system's generator gave, as it is.
pub proof fn law_nonce_from_system(nonce: Result<[u8; 24], RandomUnavailable>)
    requires
        nonce_drawn(nonce),
    ensures
        exists|drawn: Result<[u8; 24], getrandom::Error>| #[trigger]
            system_gave(drawn) && match drawn {
                Ok(bytes) => nonce == Ok::<[u8; 24], RandomUnavailable>(bytes),
                Err(_) => nonce is Err,
            },
{
    let drawn = choose|drawn: Result<[u8; 24], getrandom::Error>| #[trigger]
        system_gave(drawn) && is_drawn(drawn, nonce);
    assert(system_gave(drawn));
}

/// What is wrong with a password and a salt of those lengths, if anything is.
pub open spec fn key_error(password_len: nat, salt_len: nat) -> Option<KeyError> {
    if password_len > SECRET_MAX {
        Some(KeyError::PasswordTooLong)
    } else if salt_len < SALT_MIN {
        Some(KeyError::SaltTooShort)
    } else if salt_len > SECRET_MAX {
        Some(KeyError::SaltTooLong)
    } else {
        None
    }
}

/// Derives a 32-byte key from a password and a salt with Argon2id.
pub fn derive_key(password: &str, salt: &[u8]) -> (r: Result<[u8; 32], KeyError>)
    ensures
        match r {
            Ok(key) => {
                &&& key_error(password.spec_bytes().len(), salt@.len()) is None
                &&& key@ == argon2id_key(password.spec_bytes(), salt@)
            },
            Err(e) => key_error(password.spec_bytes().len(), salt@.len()) == Some(e),
        },
{
    let bytes = password.as_bytes();
    match argon2_hash(bytes, salt) {
        Ok(key) => Ok(key),
        Err(_) => {
            if bytes.len() as u64 > SECRET_MAX {
                Err(KeyError::PasswordTooLong)
            } else if salt.len() < SALT_MIN {
                Err(KeyError::SaltTooShort)
            } else {
                Err(KeyError::SaltTooLong)
            }
        },
    }
}

/// A sealed message under a key and a nonce: the nonce, then the ciphertext with
/// its tag.
pub open spec fn sealed(key: Seq<u8>, nonce: Seq<u8>, plaintext: Seq<u8>) -> Seq<u8> {
    nonce + xchacha_encrypt(key, nonce, plaintext)
}

/// What a sealed message opens to under a key: nothing if it is too short for a
/// nonce, longer than any sealed message, or not authentic.
pub open spec fn opened(key: Seq<u8>, data: Seq<u8>) -> Option<Seq<u8>> {
    if data.len() < NONCE_LEN || data.len() > NONCE_LEN + PLAINTEXT_MAX + TAG_LEN {
        None
    } else {
        xchacha_decrypt(
            key,
            data.subrange(0, NONCE_LEN as int),
            data.subrange(NONCE_LEN as int, data.len() as int),
        )
    }
}

/// The result is the plaintext sealed under the nonce that was drawn, or a failure if
/// none was.
pub open spec fn is_sealed(
    key: Seq<u8>,
    drawn: Result<[u8; 24], RandomUnavailable>,
    plaintext: Seq<u8>,
    r: Result<Vec<u8>, RandomUnavailable>,
) -> bool {
    match drawn {
        Ok(nonce) => r matches Ok(out) && out@ == sealed(key, nonce@, plaintext),
        Err(_) => r is Err,
    }
}

/// An AEAD cipher for one key. Cheap to clone: it is just the key.
pub struct Cipher {
    key: [u8; 32],
}

impl View for Cipher {
    type V = Seq<u8>;

    /// The key.
    closed spec fn view(&self) -> Seq<u8> {
        self.key@
    }
}

impl Clone for Cipher {
    fn clone(&self) -> (r: Self)
        ensures
            r@ == self@,
    {
        Cipher { key: self.key }
    }
}

impl Cipher {
    pub fn new(key: &[u8; 32]) -> (r: Self)
        ensures
            r@ == key@,
    {
        Cipher { key: *key }
    }

    /// Encrypts `plaintext` under a nonce: `nonce || ciphertext || tag`. What comes
    /// out opens to the plaintext.
    pub fn seal_with_nonce(&self, nonce: &[u8; 24], plaintext: &[u8]) -> (out: Vec<u8>)
        requires
            plaintext@.len() <= PLAINTEXT_MAX,
        ensures
            out@ == sealed(self@, nonce@, plaintext@),
            out@.len() == NONCE_LEN + plaintext@.len() + TAG_LEN,
            opened(self@, out@) == Some(plaintext@),
    {
        let ct = aead_encrypt(&self.key, nonce, plaintext).unwrap();
        let mut out: Vec<u8> = Vec::new();
        out.extend_from_slice(nonce.as_slice());
        out.extend_from_slice(ct.as_slice());
        proof {
            assert(out@ =~= nonce@ + ct@);
            assert(out@.subrange(0, NONCE_LEN as int) =~= nonce@);
            assert(out@.subrange(NONCE_LEN as int, out@.len() as int) =~= ct@);
        }
        out
    }

    /// Encrypts `plaintext` under the nonce that was drawn, and fails exactly if none
    /// was.
    pub fn seal_drawn(&self, nonce: Result<[u8; 24], RandomUnavailable>, plaintext: &[u8]) -> (r:
        Result<Vec<u8>, RandomUnavailable>)
        requires
            plaintext@.len() <= PLAINTEXT_MAX,
        ensures
            match nonce {
                Ok(n) => {
                    &&& r matches Ok(out)
                    &&& out@ == sealed(self@, n@, plaintext@)
                    &&& out@.len() == NONCE_LEN + plaintext@.len() + TAG_LEN
                    &&& out@.subrange(0, NONCE_LEN as int) == n@
                    &&& opened(self@, out@) == Some(plaintext@)
                },
                Err(_) => r is Err,
            },
    {
        match nonce {
            Ok(n) => {
                let out = self.seal_with_nonce(&n, plaintext);
                assert(out@.subrange(0, NONCE_LEN as int) =~= n@);
                Ok(out)
            },
            Err(e) => Err(e),
        }
    }

    /// Encrypts `plaintext` under a random nonce: `nonce || ciphertext || tag`.
    /// What comes out opens to the plaintext. The nonce is one that `random_bytes` gave;
    /// fails exactly if it gave none.
    pub fn seal(&self, plaintext: &[u8]) -> (r: Result<Vec<u8>, RandomUnavailable>)
        requires
            plaintext@.len() <= PLAINTEXT_MAX,
        ensures
            r matches Ok(out) ==> {
                &&& out@.len() == NONCE_LEN + plaintext@.len() + TAG_LEN
                &&& out@ == sealed(self@, out@.subrange(0, NONCE_LEN as int), plaintext@)
                &&& opened(self@, out@) == Some(plaintext@)
            },
            exists|drawn: Result<[u8; 24], RandomUnavailable>| #[trigger]
                nonce_drawn(drawn) && is_sealed(self@, drawn, plaintext@, r),
    {
        let drawn = random_bytes::<24>();
        assert(nonce_drawn(drawn));
        self.seal_drawn(drawn, plaintext)
    }

    /// Decrypts `nonce || ciphertext || tag`. `None` if the data is malformed or
    /// does not authenticate (wrong key, or tampering).
    pub fn open(&self, data: &[u8]) -> (r: Option<Vec<u8>>)
        ensures
            r is Some <==> opened(self@, data@) is Some,
            r matches Some(p) ==> Some(p@) == opened(self@, data@),
            r matches Some(p) ==> data@.len() == NONCE_LEN + p@.len() + TAG_LEN,
            data@.len() < NONCE_LEN + TAG_LEN ==> r is None,
    {
        if data.len() < NONCE_LEN || data.len() as u64 > NONCE_LEN as u64 + PLAINTEXT_MAX
            + TAG_LEN as u64 {
            return None;
        }
        let (nonce, ct) = data.split_at(NONCE_LEN);
        aead_decrypt(&self.key, nonce, ct)
    }
}

/// The cipher of a connection: the key that the password and the salt give.
pub fn connection_cipher(password: &str, salt: &[u8]) -> (r: Result<Cipher, KeyError>)
    ensures
        match r {
            Ok(cipher) => {
                &&& key_error(password.spec_bytes().len(), salt@.len()) is None
                &&& cipher@ == argon2id_key(password.spec_bytes(), salt@)
            },
            Err(e) => key_error(password.spec_bytes().len(), salt@.len()) == Some(e),
        },
{
    match derive_key(password, salt) {
        Ok(key) => Ok(Cipher::new(&key)),
        Err(e) => Err(e),
    }
}

/// Random bytes, as many as are asked for, are those that the system gave, as they are;
/// there are none exactly if the system gave none.
pub proof fn law_random_from_system<const N: usize>(r: Result<[u8; N], RandomUnavailable>)
    requires
        call_ensures(random_bytes::<N>, (), r),
    ensures
        N == 0 ==> r is Ok,
        exists|drawn: Result<[u8; N], getrandom::Error>| #[trigger]
            system_gave(drawn) && match drawn {
                Ok(bytes) => r == Ok::<[u8; N], RandomUnavailable>(bytes),
                Err(_) => r is Err,
            },
{
    let drawn = choose|drawn: Result<[u8; N], getrandom::Error>| #[trigger]
        system_gave(drawn) && is_drawn(drawn, r);
    assert(system_gave(drawn));
}

/// A password of at most 2^32 - 1 bytes and a salt of 8 to 2^32 - 1 give a key; otherwise
/// it is said what is wrong, of the password first. Both sides of a connection, with one
/// password and one salt, get one key.
pub proof fn law_key_derived(
    password: &str,
    salt: &[u8],
    r: Result<[u8; 32], KeyError>,
    cipher: Result<Cipher, KeyError>,
    other: Result<Cipher, KeyError>,
)
    requires
        call_ensures(derive_key, (password, salt), r),
        call_ensures(connection_cipher, (password, salt), cipher),
        call_ensures(connection_cipher, (password, salt), other),
    ensures
        ({
            let p = password.spec_bytes().len();
            let s = salt@.len();
            &&& r is Ok <==> p <= 0xffff_ffff && 8 <= s <= 0xffff_ffff
            &&& p > 0xffff_ffff ==> r == Err::<[u8; 32], _>(KeyError::PasswordTooLong)
            &&& p <= 0xffff_ffff && s < 8 ==> r == Err::<[u8; 32], _>(KeyError::SaltTooShort)
            &&& p <= 0xffff_ffff && s > 0xffff_ffff ==> r == Err::<[u8; 32], _>(
                KeyError::SaltTooLong,
            )
        }),
        r matches Ok(key) ==> key@ == argon2id_key(password.spec_bytes(), salt@),
        match r {
            Ok(key) => cipher matches Ok(c) && other matches Ok(d) && c@ == key@ && d@ == key@,
            Err(e) => cipher matches Err(f) && other matches Err(g) && f == e && g == e,
        },
{
}

/// What one side seals, the other side opens: two ciphers of one key, of which one may be
/// a copy. A sealed message is the nonce, then what the cipher makes of the message under
/// it.
pub proof fn law_sealed_opens(
    key: &[u8; 32],
    one: Cipher,
    two: Cipher,
    copy: Cipher,
    nonce: &[u8; 24],
    plaintext: &[u8],
    out: Vec<u8>,
    data: &[u8],
    r: Option<Vec<u8>>,
    s: Option<Vec<u8>>,
)
    requires
        call_ensures(Cipher::new, (key,), one),
        call_ensures(Cipher::new, (key,), two),
        call_ensures(<Cipher as Clone>::clone, (&two,), copy),
        plaintext@.len() <= PLAINTEXT_MAX,
        call_ensures(Cipher::seal_with_nonce, (&one, nonce, plaintext), out),
        data@ == out@,
        call_ensures(Cipher::open, (&two, data), r),
        call_ensures(Cipher::open, (&copy, data), s),
    ensures
        out@.take(24) == nonce@,
        out@.skip(24) == xchacha_encrypt(key@, nonce@, plaintext@),
        out@.len() == 24 + plaintext@.len() + 16,
        r matches Some(p) && p@ == plaintext@,
        s matches Some(p) && p@ == plaintext@,
{
    assert(nonce@.len() == 24);
    assert(out@.take(24) =~= nonce@);
    assert(out@.skip(24) =~= xchacha_encrypt(key@, nonce@, plaintext@));
}

/// A message opens to what the cipher finds behind its first 24 bytes with these as the
/// nonce, and to nothing if it has not as many bytes as a nonce and a tag, or more than
/// any sealed message.
pub proof fn law_opened(cipher: &Cipher, data: &[u8], r: Option<Vec<u8>>)
    requires
        call_ensures(Cipher::open, (cipher, data), r),
    ensures
        data@.len() < 24 + 16 ==> r is None,
        data@.len() > 24 + 0x3f_ffff_ff80 + 16 ==> r is None,
        24 <= data@.len() <= 24 + 0x3f_ffff_ff80 + 16 ==> match xchacha_decrypt(
            cipher@,
            data@.take(24),
            data@.skip(24),
        ) {
            Some(plain) => r matches Some(p) && p@ == plain,
            None => r is None,
        },
{
    if data@.len() >= 24 {
        assert(data@.take(24) =~= data@.subrange(0, 24));
        assert(data@.skip(24) =~= data@.subrange(24, data@.len() as int));
    }
}

/// A message is sealed under a nonce that the system gave, and not at all exactly if it
/// gave none.
pub proof fn law_sealed_at_random(
    cipher: &Cipher,
    plaintext: &[u8],
    r: Result<Vec<u8>, RandomUnavailable>,
)
    requires
        plaintext@.len() <= PLAINTEXT_MAX,
        call_ensures(Cipher::seal, (cipher, plaintext), r),
    ensures
        exists|drawn: Result<[u8; 24], getrandom::Error>| #[trigger]
            system_gave(drawn) && match drawn {
                Ok(nonce) => r matches Ok(out) && out@ == nonce@ + xchacha_encrypt(
                    cipher@,
                    nonce@,
                    plaintext@,
                ),
                Err(_) => r is Err,
            },
        r matches Ok(out) ==> opened(cipher@, out@) == Some(plaintext@),
{
    let nonce = choose|drawn: Result<[u8; 24], RandomUnavailable>| #[trigger]
        nonce_drawn(drawn) && is_sealed(cipher@, drawn, plaintext@, r);
    law_nonce_from_system(nonce);
    let drawn = choose|drawn: Result<[u8; 24], getrandom::Error>| #[trigger]
        system_gave(drawn) && match drawn {
            Ok(bytes) => nonce == Ok::<[u8; 24], RandomUnavailable>(bytes),
            Err(_) => nonce is Err,
        };
    assert(system_gave(drawn));
}

/// What was drawn is handed on as it is: bytes as they are, a nonce as the front of what is
/// sealed under it. Where nothing was drawn, nothing is made up.
pub proof fn law_drawn_used<const N: usize>(
    drawn: Result<[u8; N], getrandom::Error>,
    r: Result<[u8; N], RandomUnavailable>,
    cipher: &Cipher,
    nonce: Result<[u8; 24], RandomUnavailable>,
    plaintext: &[u8],
    s: Result<Vec<u8>, RandomUnavailable>,
)
    requires
        call_ensures(drawn_bytes::<N>, (drawn,), r),
        plaintext@.len() <= PLAINTEXT_MAX,
        call_ensures(Cipher::seal_drawn, (cipher, nonce, plaintext), s),
    ensures
        match drawn {
            Ok(bytes) => r == Ok::<[u8; N], RandomUnavailable>(bytes),
            Err(_) => r is Err,
        },
        match nonce {
            Ok(n) => s matches Ok(out) && out@ == n@ + xchacha_encrypt(
                cipher@,
                n@,
                plaintext@,
            ) && opened(cipher@, out@) == Some(plaintext@),
            Err(_) => s is Err,
        },
{
}

/// A salt of the length that is exchanged, 16 bytes, gives a key with every password that
/// is not too long.
pub proof fn law_salt_long_enough(password: &str, salt: &[u8], r: Result<[u8; 32], KeyError>)
    requires
        salt@.len() == SALT_LEN,
        call_ensures(derive_key, (password, salt), r),
    ensures
        salt@.len() == 16,
        r is Ok <==> password.spec_bytes().len() <= 0xffff_ffff,
{
}

/// Each error says what is wrong.
pub proof fn law_key_error_words(error: KeyError, text: &'static str)
    requires
        call_ensures(KeyError::message, (&error,), text),
    ensures
        error is PasswordTooLong ==> text@ == "argon2 key derivation: password is too long"@,
        error is SaltTooShort ==> text@ == "argon2 key derivation: salt is too short"@,
        error is SaltTooLong ==> text@ == "argon2 key derivation: salt is too long"@,
{
}

} // verus!
