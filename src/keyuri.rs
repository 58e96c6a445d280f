//! KeyURIs: keys and fingerprints written as `<prefix>;<bech32k data>`.
use crate::bech32k;
use vstd::prelude::*;
use vstd::string::StringSliceAdditionalSpecFns;
use vstd::utf8::encode_utf8;

verus! {

/// Prefix of an encryption master secret (AES-256-SIV keys derived with HKDF-SHA-256).
pub const ENCRYPTION_KEY_PREFIX: &'static str = "secret.key:aes256siv+hks256";

/// Prefix of an Ed25519 signing seed.
pub const SIGNING_KEY_PREFIX: &'static str = "secret.key:ed25519";

/// Prefix of an Ed25519 public key.
pub const VERIFY_KEY_PREFIX: &'static str = "public.key:ed25519";

/// Prefix of a SHA-256 key fingerprint.
pub const FINGERPRINT_PREFIX: &'static str = "public.fingerprint:sha-256";

/// The SHA-256 digest of a byte sequence.
pub uninterp spec fn sha256_of(data: Seq<u8>) -> Seq<u8>;

/// Relies on `sha2::Sha256::digest`: the 32-byte SHA-256 digest of the input.
#[verifier::external_body]
pub(crate) fn sha256(data: &[u8]) -> (r: Vec<u8>)
    ensures
        r@ == sha256_of(data@),
        r@.len() == 32,
{
    <sha2::Sha256 as sha2::Digest>::digest(data).to_vec()
}

/// The fingerprint prefix, as characters.
pub open spec fn fingerprint_prefix() -> Seq<char> {
    FINGERPRINT_PREFIX@
}

/// The fingerprint of a KeyURI: its SHA-256 digest, as a KeyURI.
pub open spec fn fingerprint_of(keyuri: Seq<char>) -> Seq<char> {
    bech32k::encoded(fingerprint_prefix(), sha256_of(encode_utf8(keyuri)))
}

/// The length in characters of each KeyURI prefix.
pub proof fn lemma_prefix_lengths()
    ensures
        ENCRYPTION_KEY_PREFIX@.len() == 27,
        SIGNING_KEY_PREFIX@.len() == 18,
        VERIFY_KEY_PREFIX@.len() == 18,
        FINGERPRINT_PREFIX@.len() == 26,
{
    reveal_strlit("secret.key:aes256siv+hks256");
    reveal_strlit("secret.key:ed25519");
    reveal_strlit("public.key:ed25519");
    reveal_strlit("public.fingerprint:sha-256");
}

/// A fingerprint is itself a KeyURI, 85 characters long, that decodes to the fingerprint
/// prefix and the 32-byte digest.
pub proof fn lemma_fingerprint_decodes(keyuri: Seq<char>)
    requires
        sha256_of(encode_utf8(keyuri)).len() == 32,
    ensures
        fingerprint_of(keyuri).len() == 85,
        bech32k::decoded(encode_utf8(fingerprint_of(keyuri))) == Ok::<(Seq<u8>, Seq<u8>), bech32k::Error>(
            (encode_utf8(FINGERPRINT_PREFIX@), sha256_of(encode_utf8(keyuri))),
        ),
{
    lemma_prefix_lengths();
    reveal_strlit("public.fingerprint:sha-256");
    let digest = sha256_of(encode_utf8(keyuri));
    bech32k::lemma_encoded_len(FINGERPRINT_PREFIX@, digest);
    assert(bech32k::valid_prefix(FINGERPRINT_PREFIX@));
    bech32k::lemma_round_trip(FINGERPRINT_PREFIX@, digest);
}

/// Compute the fingerprint of a KeyURI (or of any string).
pub fn fingerprint(keyuri: &str) -> (r: String)
    ensures
        r@ == fingerprint_of(keyuri@),
        r@.len() == 85,
{
    let digest = sha256(keyuri.as_bytes());
    proof {
        lemma_prefix_lengths();
        bech32k::lemma_encoded_len(FINGERPRINT_PREFIX@, digest@);
    }
    bech32k::encode(FINGERPRINT_PREFIX, digest.as_slice())
}

} // verus!
