//! Cryptographic primitives: content hashing, authenticated encryption,
//! and a passphrase-wrapped master key.

use aes_gcm::aead::Aead;
use aes_gcm::aead::KeyInit;
use aes_gcm::Aes256Gcm;
use rand::RngCore;
use vstd::prelude::*;

use crate::errors::Error;
use crate::hexfmt::hex_bytes_of;
use crate::strutil::bytes_of_str;

verus! {

/// The 32-byte content digest of a byte sequence, a function of the input
/// bytes alone.
pub uninterp spec fn blake3_of(data: Seq<u8>) -> Seq<u8>;

/// Relies on `blake3::hash`: a 32-byte digest that depends on the input
/// bytes alone, identical on every platform.
#[verifier::external_body]
pub fn hash_blake3(data: &[u8]) -> (r: [u8; 32])
    ensures
        r@ == blake3_of(data@),
{
    blake3::hash(data).into()
}

/// The content digest in lowercase hex.
pub fn hash_blake3_hex(data: &[u8]) -> (r: String)
    ensures
        bytes_of_str(r@) == hex_bytes_of(blake3_of(data@)),
{
    let h = hash_blake3(data);
    crate::hexfmt::hex_string(h.as_slice())
}

/// The 32-byte key that the memory-hard password KDF derives from a
/// passphrase and salt, a function of those two inputs alone.
pub uninterp spec fn kdf_of(pass: Seq<u8>, salt: Seq<u8>) -> Seq<u8>;

/// Relies on `argon2::Argon2::hash_password_into` with the default
/// parameters: a 32-byte key determined by passphrase and salt. It refuses
/// salts outside 8 to 64 bytes and over-long passphrases; within those
/// bounds it succeeds, its working-memory allocation taken to succeed like
/// any other allocation.
#[verifier::external_body]
fn kdf_derive(pass: &[u8], salt: &[u8]) -> (r: Result<[u8; 32], Error>)
    ensures
        r matches Ok(k) ==> k@ == kdf_of(pass@, salt@),
        r matches Err(e) ==> e == Error::Crypto,
        pass@.len() <= 0xFFFFFFFF && 8 <= salt@.len() <= 64 ==> r is Ok,
{
    let mut out = [0u8; 32];
    match argon2::Argon2::default().hash_password_into(pass, salt, &mut out) {
        Ok(()) => Ok(out),
        Err(_) => Err(Error::Crypto),
    }
}

/// What AES-256-GCM decryption yields for a key, nonce and ciphertext: the
/// plaintext when the tag verifies, nothing otherwise. A function of its
/// arguments alone.
pub uninterp spec fn aead_open_of(key: Seq<u8>, nonce: Seq<u8>, ct: Seq<u8>) -> Option<Seq<u8>>;

/// Relies on `aes_gcm::Aes256Gcm` encryption (`aead::Aead::encrypt`): the
/// ciphertext carries a 16-byte tag, decrypting it with the same key and
/// nonce returns the plaintext, and only over-long inputs are refused.
#[verifier::external_body]
fn aead_seal(key: &[u8; 32], nonce: &[u8; 12], pt: &[u8]) -> (r: Result<Vec<u8>, Error>)
    ensures
        r matches Ok(ct) ==> ct@.len() == pt@.len() + 16 && aead_open_of(key@, nonce@, ct@)
            == Some(pt@),
        r matches Err(e) ==> e == Error::Crypto,
        pt@.len() <= 68719476704 ==> r is Ok,
{
    let cipher = match Aes256Gcm::new_from_slice(key) {
        Ok(c) => c,
        Err(_) => return Err(Error::Crypto),
    };
    let n = aes_gcm::aead::Nonce::<Aes256Gcm>::from(*nonce);
    match cipher.encrypt(&n, pt) {
        Ok(ct) => Ok(ct),
        Err(_) => Err(Error::Crypto),
    }
}

/// Relies on `aes_gcm::Aes256Gcm` decryption (`aead::Aead::decrypt`): it
/// returns the plaintext exactly when the tag verifies.
#[verifier::external_body]
fn aead_open(key: &[u8; 32], nonce: &[u8; 12], ct: &[u8]) -> (r: Result<Vec<u8>, Error>)
    ensures
        r matches Ok(pt) ==> aead_open_of(key@, nonce@, ct@) == Some(pt@),
        r is Err ==> aead_open_of(key@, nonce@, ct@) is None,
        r matches Err(e) ==> e == Error::Crypto,
{
    let cipher = match Aes256Gcm::new_from_slice(key) {
        Ok(c) => c,
        Err(_) => return Err(Error::Crypto),
    };
    let n = aes_gcm::aead::Nonce::<Aes256Gcm>::from(*nonce);
    match cipher.decrypt(&n, ct) {
        Ok(pt) => Ok(pt),
        Err(_) => Err(Error::Crypto),
    }
}

/// Relies on `rand::rngs::OsRng::fill_bytes`: `n` bytes from the operating
/// system's cryptographic generator.
#[verifier::external_body]
fn random_bytes(n: usize) -> (r: Vec<u8>)
    ensures
        r@.len() == n,
{
    let mut v = vec![0u8; n];
    rand::rngs::OsRng.fill_bytes(&mut v);
    v
}

/// Relies on `TryInto` for slices: the same twelve bytes as an array.
#[verifier::external_body]
fn to_array_12(v: &[u8]) -> (r: [u8; 12])
    requires
        v@.len() == 12,
    ensures
        r@ == v@,
{
    v.try_into().unwrap()
}

/// Relies on `TryInto` for slices: the same thirty-two bytes as an array.
#[verifier::external_body]
pub(crate) fn to_array_32(v: &[u8]) -> (r: [u8; 32])
    requires
        v@.len() == 32,
    ensures
        r@ == v@,
{
    v.try_into().unwrap()
}

/// Persisted key material: a salt, the nonce used to wrap the master key,
/// and the wrapped master key itself.
#[derive(Debug, Clone, PartialEq, Eq)]
pub struct KeyConfig {
    pub salt: Vec<u8>,
    pub nonce: Vec<u8>,
    pub encrypted_master_key: Vec<u8>,
}

/// What decrypting `nonce ∥ ciphertext-and-tag` under `key` yields.
pub open spec fn engine_open(key: Seq<u8>, blob: Seq<u8>) -> Option<Seq<u8>> {
    if blob.len() < 12 {
        None
    } else {
        aead_open_of(key, blob.subrange(0, 12), blob.skip(12))
    }
}

/// An AEAD engine holding a 256-bit master key.
pub struct CryptoEngine {
    key: [u8; 32],
}

impl CryptoEngine {
    /// The key this engine encrypts and decrypts under.
    pub closed spec fn key_view(&self) -> Seq<u8> {
        self.key@
    }

    pub fn new(master_key: &[u8; 32]) -> (r: Self)
        ensures
            r.key_view() == master_key@,
    {
        CryptoEngine { key: *master_key }
    }

    /// Rebuilds the engine from a passphrase and persisted key material.
    pub fn from_passphrase(passphrase: &str, config: &KeyConfig) -> (r: Result<Self, Error>)
        ensures
            r matches Ok(e) ==> config.nonce@.len() == 12 && aead_open_of(
                kdf_of(bytes_of_str(passphrase@), config.salt@),
                config.nonce@,
                config.encrypted_master_key@,
            ) == Some(e.key_view()),
            r matches Err(e) ==> e == Error::Crypto,
            bytes_of_str(passphrase@).len() <= 0xFFFFFFFF && 8 <= config.salt@.len() <= 64
                && config.nonce@.len() == 12 && (aead_open_of(
                kdf_of(bytes_of_str(passphrase@), config.salt@),
                config.nonce@,
                config.encrypted_master_key@,
            ) matches Some(k) && k.len() == 32) ==> r is Ok,
    {
        let master_key = decrypt_master_key(passphrase, config)?;
        Ok(Self::new(&master_key))
    }

    /// Encrypts under a fresh random nonce; the result is
    /// `nonce ∥ ciphertext-and-tag` and decrypts back to the plaintext.
    pub fn encrypt(&self, plaintext: &[u8]) -> (r: Result<Vec<u8>, Error>)
        ensures
            r matches Ok(ct) ==> ct@.len() == plaintext@.len() + 28 && engine_open(
                self.key_view(),
                ct@,
            ) == Some(plaintext@),
            r matches Err(e) ==> e == Error::Crypto,
            plaintext@.len() <= 68719476704 ==> r is Ok,
    {
        let nonce_vec = random_bytes(12);
        let nonce = to_array_12(nonce_vec.as_slice());
        let sealed = aead_seal(&self.key, &nonce, plaintext)?;
        let mut out: Vec<u8> = Vec::new();
        out.extend_from_slice(nonce_vec.as_slice());
        out.extend_from_slice(sealed.as_slice());
        proof {
            assert(out@.subrange(0, 12) =~= nonce@);
            assert(out@.skip(12) =~= sealed@);
        }
        Ok(out)
    }

    /// Verifies and decrypts `nonce ∥ ciphertext-and-tag`.
    pub fn decrypt(&self, data: &[u8]) -> (r: Result<Vec<u8>, Error>)
        ensures
            r matches Ok(pt) ==> engine_open(self.key_view(), data@) == Some(pt@),
            r is Ok <==> engine_open(self.key_view(), data@) is Some,
            r matches Err(e) ==> e == Error::Crypto,
    {
        if data.len() < 12 {
            return Err(Error::Crypto);
        }
        let nonce_slice = vstd::slice::slice_subrange(data, 0, 12);
        let nonce = to_array_12(nonce_slice);
        let ct = vstd::slice::slice_subrange(data, 12, data.len());
        aead_open(&self.key, &nonce, ct)
    }
}

/// Unwraps the master key from persisted key material.
fn decrypt_master_key(passphrase: &str, config: &KeyConfig) -> (r: Result<[u8; 32], Error>)
    ensures
        r matches Ok(mk) ==> config.nonce@.len() == 12 && aead_open_of(
            kdf_of(bytes_of_str(passphrase@), config.salt@),
            config.nonce@,
            config.encrypted_master_key@,
        ) == Some(mk@),
        r matches Err(e) ==> e == Error::Crypto,
        bytes_of_str(passphrase@).len() <= 0xFFFFFFFF && 8 <= config.salt@.len() <= 64
            && config.nonce@.len() == 12 && (aead_open_of(
            kdf_of(bytes_of_str(passphrase@), config.salt@),
            config.nonce@,
            config.encrypted_master_key@,
        ) matches Some(k) && k.len() == 32) ==> r is Ok,
{
    if config.nonce.len() != 12 {
        return Err(Error::Crypto);
    }
    let derived = kdf_derive(passphrase.as_bytes(), config.salt.as_slice())?;
    let nonce = to_array_12(config.nonce.as_slice());
    let mk = aead_open(&derived, &nonce, config.encrypted_master_key.as_slice())?;
    if mk.len() != 32 {
        // a wrapped master key always holds exactly 32 bytes
        return Err(Error::Crypto);
    }
    Ok(to_array_32(mk.as_slice()))
}

/// Creates fresh key material: a random salt and master key, the master key
/// wrapped under the passphrase-derived key.
pub fn create_key_config(passphrase: &str) -> (r: Result<(KeyConfig, [u8; 32]), Error>)
    ensures
        r matches Ok((cfg, mk)) ==> cfg.salt@.len() == 16 && cfg.nonce@.len() == 12
            && cfg.encrypted_master_key@.len() == 48 && aead_open_of(
            kdf_of(bytes_of_str(passphrase@), cfg.salt@),
            cfg.nonce@,
            cfg.encrypted_master_key@,
        ) == Some(mk@),
        r matches Err(e) ==> e == Error::Crypto,
        bytes_of_str(passphrase@).len() <= 0xFFFFFFFF ==> r is Ok,
{
    let salt = random_bytes(16);
    let mk_vec = random_bytes(32);
    let master_key = to_array_32(mk_vec.as_slice());
    let derived = kdf_derive(passphrase.as_bytes(), salt.as_slice())?;
    let nonce_vec = random_bytes(12);
    let nonce = to_array_12(nonce_vec.as_slice());
    let sealed = aead_seal(&derived, &nonce, mk_vec.as_slice())?;
    let config = KeyConfig { salt, nonce: nonce_vec, encrypted_master_key: sealed };
    Ok((config, master_key))
}

} // verus!
