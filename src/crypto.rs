//! Cryptographic primitives: Ed25519 signing and verification, and AES-256-SIV
//! with keys derived by HKDF-SHA-256.
use crate::bech32k;
use crate::error::Error;
use crate::keyuri::{
    fingerprint, fingerprint_of, lemma_prefix_lengths, ENCRYPTION_KEY_PREFIX, VERIFY_KEY_PREFIX,
};
use crate::strings::ascii_chars;
use vstd::prelude::*;
use vstd::string::StringSliceAdditionalSpecFns;
use vstd::utf8::encode_utf8;

verus! {

/// Size of an encryption master secret in bytes.
pub const ENCRYPTION_KEY_SIZE: usize = 32;

/// Size of an Ed25519 signing seed in bytes.
pub const SIGNING_KEY_SIZE: usize = 32;

/// Size of an Ed25519 public key in bytes.
pub const PUBLIC_KEY_SIZE: usize = 32;

/// Size of an Ed25519 signature in bytes.
pub const SIGNATURE_SIZE: usize = 64;

/// Most associated-data items that AES-SIV accepts in one call.
pub const MAX_ASSOCIATED_DATA: usize = 126;

/// The byte sequences held by a vector of byte vectors.
pub open spec fn views_of(v: Seq<Vec<u8>>) -> Seq<Seq<u8>> {
    v.map_values(|x: Vec<u8>| x@)
}

// ---------------------------------------------------------------------------
// Names for what the outside primitives compute
/// The Ed25519 public key of a 32-byte seed.
pub uninterp spec fn ed25519_public_of(seed: Seq<u8>) -> Seq<u8>;

/// The Ed25519 signature of a message under a 32-byte seed.
pub uninterp spec fn ed25519_signature_of(seed: Seq<u8>, message: Seq<u8>) -> Seq<u8>;

/// Whether a signature over a message verifies under a public key.
pub uninterp spec fn ed25519_verifies(public: Seq<u8>, message: Seq<u8>, signature: Seq<u8>) -> bool;

/// HKDF-SHA-256 output of 64 bytes for a salt, input key material and info string.
pub uninterp spec fn hkdf_sha256_of(salt: Seq<u8>, ikm: Seq<u8>, info: Seq<u8>) -> Seq<u8>;

/// AES-256-SIV ciphertext of a plaintext under a 64-byte key and associated data.
pub uninterp spec fn siv_sealed(key: Seq<u8>, associated_data: Seq<Seq<u8>>, plaintext: Seq<u8>) -> Seq<u8>;

/// AES-256-SIV plaintext of a ciphertext, if it authenticates under the key and associated data.
pub uninterp spec fn siv_opened(key: Seq<u8>, associated_data: Seq<Seq<u8>>, ciphertext: Seq<u8>) -> Option<Seq<u8>>;

/// Relies on signatory's Ed25519 `SigningKey::from_bytes` and `verifying_key`: the public
/// key of a 32-byte seed, 32 bytes long.
#[verifier::external_body]
fn ed25519_public_key(seed: &[u8]) -> (r: Vec<u8>)
    requires
        seed@.len() == 32,
    ensures
        r@ == ed25519_public_of(seed@),
        r@.len() == 32,
{
    let key = signatory::ed25519::SigningKey::from_bytes(seed).unwrap();
    key.verifying_key().to_bytes().to_vec()
}

/// Relies on signatory's Ed25519 `SigningKey` as a `signature::Signer`: the 64-byte
/// signature of a message under a 32-byte seed.
#[verifier::external_body]
fn ed25519_sign(seed: &[u8], message: &[u8]) -> (r: Vec<u8>)
    requires
        seed@.len() == 32,
    ensures
        r@ == ed25519_signature_of(seed@, message@),
        r@.len() == 64,
{
    let key = signatory::ed25519::SigningKey::from_bytes(seed).unwrap();
    signatory::signature::Signer::sign(&key, message).to_bytes().to_vec()
}

/// Relies on signatory's Ed25519 `VerifyingKey` as a `signature::Verifier`: whether the
/// signature verifies; a malformed key or signature does not.
#[verifier::external_body]
fn ed25519_verify(public: &[u8], message: &[u8], signature: &[u8]) -> (r: bool)
    ensures
        r == ed25519_verifies(public@, message@, signature@),
{
    let key = match signatory::ed25519::VerifyingKey::from_bytes(public) {
        Ok(k) => k,
        Err(_) => return false,
    };
    let sig = match signatory::ed25519::Signature::from_slice(signature) {
        Ok(s) => s,
        Err(_) => return false,
    };
    signatory::signature::Verifier::verify(&key, message, &sig).is_ok()
}

/// Relies on `hkdf::Hkdf::<Sha256>` (`new`, then `expand` into 64 bytes, which never fails
/// at that length).
#[verifier::external_body]
fn hkdf_sha256_64(salt: &[u8], ikm: &[u8], info: &[u8]) -> (r: Vec<u8>)
    ensures
        r@ == hkdf_sha256_of(salt@, ikm@, info@),
        r@.len() == 64,
{
    let hkdf = hkdf::Hkdf::<sha2::Sha256>::new(Some(salt), ikm);
    let mut okm = vec![0u8; 64];
    hkdf.expand(info, &mut okm).unwrap();
    okm
}

/// Relies on `aes_siv::siv::Aes256Siv::encrypt`, which fails only past 126 associated-data
/// items.
#[verifier::external_body]
fn siv_encrypt(key: &[u8], associated_data: &Vec<Vec<u8>>, plaintext: &[u8]) -> (r: Vec<u8>)
    requires
        key@.len() == 64,
        associated_data@.len() <= MAX_ASSOCIATED_DATA,
    ensures
        r@ == siv_sealed(key@, views_of(associated_data@), plaintext@),
        r@.len() == plaintext@.len() + 16,
{
    let mut cipher = <aes_siv::siv::Aes256Siv as aes_siv::KeyInit>::new_from_slice(key).unwrap();
    cipher.encrypt(associated_data.iter(), plaintext).unwrap()
}

/// Relies on `aes_siv::siv::Aes256Siv::decrypt`: the plaintext when the ciphertext
/// authenticates, an error otherwise.
#[verifier::external_body]
fn siv_decrypt(key: &[u8], associated_data: &Vec<Vec<u8>>, ciphertext: &[u8]) -> (r: Option<Vec<u8>>)
    requires
        key@.len() == 64,
        associated_data@.len() <= MAX_ASSOCIATED_DATA,
    ensures
        match r {
            Some(p) => siv_opened(key@, views_of(associated_data@), ciphertext@) == Some(p@),
            None => siv_opened(key@, views_of(associated_data@), ciphertext@) is None,
        },
{
    let mut cipher = <aes_siv::siv::Aes256Siv as aes_siv::KeyInit>::new_from_slice(key).unwrap();
    cipher.decrypt(associated_data.iter(), ciphertext).ok()
}

/// Relies on `clear_on_drop::clear::Clear` on a byte slice: overwrites every byte with zero.
#[verifier::external_body]
fn clear_bytes(bytes: &mut Vec<u8>)
    ensures
        final(bytes)@ == Seq::new(old(bytes)@.len(), |i: int| 0u8),
    opens_invariants none
    no_unwind
{
    clear_on_drop::clear::Clear::clear(bytes.as_mut_slice())
}

// ---------------------------------------------------------------------------
/// The key bytes of a KeyURI with the given prefix and decoded length, if it is one.
pub open spec fn key_of_keyuri(keyuri: Seq<u8>, prefix: Seq<char>, size: nat) -> Option<Seq<u8>> {
    match bech32k::decoded(keyuri) {
        Ok((p, d)) => if ascii_chars(p) == prefix && d.len() == size {
            Some(d)
        } else {
            None
        },
        Err(_) => None,
    }
}

/// Decode a KeyURI, requiring the given prefix and decoded length.
pub fn decode_key(keyuri: &str, prefix: &str, size: usize) -> (r: Result<Vec<u8>, Error>)
    ensures
        match key_of_keyuri(keyuri.spec_bytes(), prefix@, size as nat) {
            Some(k) => r matches Ok(v) && v@ == k,
            None => r matches Err(Error::InvalidKey { .. }),
        },
{
    match bech32k::decode(keyuri) {
        Ok((p, d)) => {
            if p != prefix.to_owned() {
                Err(Error::InvalidKey { description: "invalid key prefix".to_owned() })
            } else if d.len() != size {
                Err(Error::InvalidKey { description: "invalid key length".to_owned() })
            } else {
                Ok(d)
            }
        },
        Err(e) => Err(Error::InvalidKey { description: e.describe() }),
    }
}

// ---------------------------------------------------------------------------
/// Ed25519 public key.
#[derive(Clone, Debug, PartialEq, Eq)]
pub struct PublicKey {
    bytes: Vec<u8>,
}

impl PublicKey {
    /// The key's 32 bytes.
    pub closed spec fn view(&self) -> Seq<u8> {
        self.bytes@
    }

    /// A public key holds 32 bytes.
    pub open spec fn wf(&self) -> bool {
        self.view().len() == PUBLIC_KEY_SIZE
    }

    /// A public key from 32 bytes.
    pub fn from_bytes(bytes: &[u8]) -> (r: Option<Self>)
        ensures
            bytes@.len() == PUBLIC_KEY_SIZE <==> r is Some,
            r matches Some(k) ==> k.wf() && k.view() == bytes@,
    {
        if bytes.len() == PUBLIC_KEY_SIZE {
            Some(PublicKey { bytes: vstd::slice::slice_to_vec(bytes) })
        } else {
            None
        }
    }

    /// Create a public key from a KeyURI with the verify-key prefix.
    pub fn from_keyuri(keyuri: &str) -> (r: Result<Self, Error>)
        ensures
            match key_of_keyuri(keyuri.spec_bytes(), VERIFY_KEY_PREFIX@, 32) {
                Some(k) => r matches Ok(p) && p.wf() && p.view() == k,
                None => r matches Err(Error::InvalidKey { .. }),
            },
    {
        let bytes = decode_key(keyuri, VERIFY_KEY_PREFIX, PUBLIC_KEY_SIZE)?;
        Ok(PublicKey { bytes })
    }

    /// A copy of this key.
    pub fn copy(&self) -> (r: Self)
        ensures
            r.view() == self.view(),
            r.wf() == self.wf(),
    {
        PublicKey { bytes: vstd::slice::slice_to_vec(self.bytes.as_slice()) }
    }

    /// The bytes of the public key.
    pub fn as_bytes(&self) -> (r: &[u8])
        ensures
            r@ == self.view(),
    {
        self.bytes.as_slice()
    }

    /// This public key as a KeyURI.
    pub fn to_keyuri(&self) -> (r: String)
        requires
            self.wf(),
        ensures
            r@ == bech32k::encoded(VERIFY_KEY_PREFIX@, self.view()),
            key_of_keyuri(encode_utf8(r@), VERIFY_KEY_PREFIX@, 32) == Some(self.view()),
    {
        proof {
            lemma_prefix_lengths();
            reveal_strlit("public.key:ed25519");
            bech32k::lemma_encoded_len(VERIFY_KEY_PREFIX@, self.view());
            assert(bech32k::valid_prefix(VERIFY_KEY_PREFIX@));
            bech32k::lemma_round_trip(VERIFY_KEY_PREFIX@, self.view());
        }
        bech32k::encode(VERIFY_KEY_PREFIX, self.bytes.as_slice())
    }

    /// The fingerprint of this public key's KeyURI.
    pub fn to_fingerprint(&self) -> (r: String)
        requires
            self.wf(),
        ensures
            r@ == fingerprint_of(bech32k::encoded(VERIFY_KEY_PREFIX@, self.view())),
            r@.len() == 85,
    {
        let keyuri = self.to_keyuri();
        fingerprint(keyuri.as_str())
    }

    /// Check an Ed25519 signature over a message.
    pub fn verify(&self, message: &[u8], signature: &[u8]) -> (r: Result<(), Error>)
        ensures
            r is Ok <==> ed25519_verifies(self.view(), message@, signature@),
            r is Err ==> r matches Err(Error::Crypto { .. }),
    {
        if ed25519_verify(self.bytes.as_slice(), message, signature) {
            Ok(())
        } else {
            Err(Error::Crypto { description: "signature verification failed".to_owned() })
        }
    }
}

/// Ed25519 signer, holding a 32-byte seed.
pub struct Signer {
    seed: Vec<u8>,
}

impl Signer {
    /// The seed.
    pub closed spec fn view(&self) -> Seq<u8> {
        self.seed@
    }

    /// A signer holds 32 bytes.
    pub open spec fn wf(&self) -> bool {
        self.view().len() == SIGNING_KEY_SIZE
    }

    /// A signer from a 32-byte seed.
    pub fn from_bytes(seed: &[u8]) -> (r: Result<Self, Error>)
        ensures
            seed@.len() == SIGNING_KEY_SIZE <==> r is Ok,
            r matches Ok(s) ==> s.wf() && s.view() == seed@,
            r is Err ==> r matches Err(Error::InvalidKey { .. }),
    {
        if seed.len() == SIGNING_KEY_SIZE {
            Ok(Signer { seed: vstd::slice::slice_to_vec(seed) })
        } else {
            Err(Error::InvalidKey { description: "invalid signing key length".to_owned() })
        }
    }

    /// The public key of this signer.
    pub fn public_key(&self) -> (r: Result<PublicKey, Error>)
        requires
            self.wf(),
        ensures
            r matches Ok(p) && p.wf() && p.view() == ed25519_public_of(self.view()),
    {
        Ok(PublicKey { bytes: ed25519_public_key(self.seed.as_slice()) })
    }

    /// Sign a message.
    pub fn sign(&self, message: &[u8]) -> (r: Result<Vec<u8>, Error>)
        requires
            self.wf(),
        ensures
            r matches Ok(s) && s@ == ed25519_signature_of(self.view(), message@) && s@.len() == SIGNATURE_SIZE,
    {
        Ok(ed25519_sign(self.seed.as_slice(), message))
    }
}

impl Drop for Signer {
    /// The seed is overwritten with zeros.
    fn drop(&mut self)
        opens_invariants none
        no_unwind
    {
        clear_bytes(&mut self.seed);
    }
}

/// AES-256-SIV encryptor, with the fingerprint of the master secret it came from.
pub struct Encryptor {
    key: Vec<u8>,
    fingerprint: String,
}

impl Drop for Encryptor {
    /// The key is overwritten with zeros.
    fn drop(&mut self)
        opens_invariants none
        no_unwind
    {
        clear_bytes(&mut self.key);
    }
}

/// The AES-SIV key derived from a master secret with a salt.
pub open spec fn derived_key(salt: Seq<u8>, secret: Seq<u8>) -> Seq<u8> {
    hkdf_sha256_of(salt, secret, encode_utf8(ENCRYPTION_KEY_PREFIX@))
}

impl Encryptor {
    /// The 64-byte AES-SIV key.
    pub closed spec fn key(&self) -> Seq<u8> {
        self.key@
    }

    /// The fingerprint of the master secret.
    pub closed spec fn fingerprint_view(&self) -> Seq<char> {
        self.fingerprint@
    }

    /// The key holds 64 bytes; the fingerprint is 85 characters.
    pub open spec fn wf(&self) -> bool {
        self.key().len() == 64 && self.fingerprint_view().len() == 85
    }

    /// An encryptor from a master secret KeyURI and a salt: HKDF-SHA-256 with the
    /// encryption-key prefix as info, expanded to two AES-256 keys.
    pub fn from_keyuri(secret_keyuri: &str, salt: &[u8]) -> (r: Result<Self, Error>)
        ensures
            match key_of_keyuri(secret_keyuri.spec_bytes(), ENCRYPTION_KEY_PREFIX@, 32) {
                Some(k) => r matches Ok(e) && e.wf() && e.key() == derived_key(salt@, k)
                    && e.fingerprint_view() == fingerprint_of(secret_keyuri@),
                None => r matches Err(Error::InvalidKey { .. }),
            },
    {
        let fingerprint = fingerprint(secret_keyuri);
        let mut secret = decode_key(secret_keyuri, ENCRYPTION_KEY_PREFIX, ENCRYPTION_KEY_SIZE)?;
        let key = hkdf_sha256_64(salt, secret.as_slice(), ENCRYPTION_KEY_PREFIX.as_bytes());
        clear_bytes(&mut secret);
        Ok(Encryptor { key, fingerprint })
    }

    /// Whether the key holds 64 bytes and the fingerprint 85 characters.
    pub fn is_wf(&self) -> (r: bool)
        ensures
            r == self.wf(),
    {
        self.key.len() == 64 && self.fingerprint.as_str().unicode_len() == 85
    }

    /// The fingerprint of the master secret's KeyURI.
    pub fn fingerprint(&self) -> (r: &str)
        ensures
            r@ == self.fingerprint_view(),
            self.wf() ==> r@.len() == 85,
    {
        self.fingerprint.as_str()
    }

    /// Encrypt a plaintext, binding the associated data.
    pub fn seal(&mut self, associated_data: &Vec<Vec<u8>>, plaintext: &[u8]) -> (r: Vec<u8>)
        requires
            old(self).wf(),
            associated_data@.len() <= MAX_ASSOCIATED_DATA,
        ensures
            *final(self) == *old(self),
            r@ == siv_sealed(old(self).key(), views_of(associated_data@), plaintext@),
            r@.len() == plaintext@.len() + 16,
    {
        siv_encrypt(self.key.as_slice(), associated_data, plaintext)
    }

    /// Decrypt a ciphertext, checking it against the associated data.
    pub fn open(&mut self, associated_data: &Vec<Vec<u8>>, ciphertext: &[u8]) -> (r: Result<Vec<u8>, Error>)
        requires
            old(self).wf(),
            associated_data@.len() <= MAX_ASSOCIATED_DATA,
        ensures
            *final(self) == *old(self),
            match siv_opened(old(self).key(), views_of(associated_data@), ciphertext@) {
                Some(p) => r matches Ok(v) && v@ == p,
                None => r matches Err(Error::Crypto { .. }),
            },
    {
        match siv_decrypt(self.key.as_slice(), associated_data, ciphertext) {
            Some(p) => Ok(p),
            None => Err(Error::Crypto { description: "decryption failed".to_owned() }),
        }
    }
}

} // verus!
