//! Keyrings of a pack consumer: verify keys and encryption master secrets, indexed by
//! the fingerprints that packs carry.
use crate::bech32k;
use crate::crypto::{decode_key, key_of_keyuri, Encryptor, PublicKey, ENCRYPTION_KEY_SIZE};
use crate::error::Error;
use crate::keyuri::{fingerprint, fingerprint_of, ENCRYPTION_KEY_PREFIX, VERIFY_KEY_PREFIX};
use crate::lookup::position;
use vstd::prelude::*;
use vstd::string::StringSliceAdditionalSpecFns;
use vstd::utf8::encode_utf8;

verus! {

/// Keyring configuration of a consumer: label to KeyURI, for verify keys and for
/// encryption master secrets.
pub struct KeyringConfig {
    /// Verify-key KeyURIs by label.
    pub signing: Vec<(String, String)>,
    /// Encryption secret KeyURIs by label.
    pub encryption: Vec<(String, String)>,
}

/// Encryption secrets by fingerprint, from labelled KeyURIs; `None` on a KeyURI that is
/// malformed, has another prefix or does not hold 32 bytes, or on a repeated fingerprint.
pub open spec fn encryption_index(entries: Seq<(String, String)>) -> Option<Seq<(Seq<char>, Seq<char>)>>
    decreases entries.len(),
{
    if entries.len() == 0 {
        Some(Seq::empty())
    } else {
        match encryption_index(entries.drop_last()) {
            None => None,
            Some(t) => {
                let uri = entries.last().1@;
                let fp = fingerprint_of(uri);
                if key_of_keyuri(encode_utf8(uri), ENCRYPTION_KEY_PREFIX@, 32) is None {
                    None
                } else if exists|i: int| 0 <= i < t.len() && (#[trigger] t[i]).0 == fp {
                    None
                } else {
                    Some(t.push((fp, uri)))
                }
            },
        }
    }
}

/// Verify keys by fingerprint, from labelled KeyURIs; `None` on a malformed KeyURI or a
/// repeated fingerprint.
pub open spec fn signing_index(entries: Seq<(String, String)>) -> Option<Seq<(Seq<char>, Seq<u8>)>>
    decreases entries.len(),
{
    if entries.len() == 0 {
        Some(Seq::empty())
    } else {
        match signing_index(entries.drop_last()) {
            None => None,
            Some(t) => match key_of_keyuri(encode_utf8(entries.last().1@), VERIFY_KEY_PREFIX@, 32) {
                None => None,
                Some(k) => {
                    let fp = fingerprint_of(bech32k::encoded(VERIFY_KEY_PREFIX@, k));
                    if exists|i: int| 0 <= i < t.len() && (#[trigger] t[i]).0 == fp {
                        None
                    } else {
                        Some(t.push((fp, k)))
                    }
                },
            },
        }
    }
}

proof fn lemma_encryption_index_fails(entries: Seq<(String, String)>, k: int)
    requires
        0 <= k <= entries.len(),
        encryption_index(entries.subrange(0, k)) is None,
    ensures
        encryption_index(entries) is None,
    decreases entries.len() - k,
{
    if k == entries.len() {
        assert(entries.subrange(0, k) =~= entries);
    } else {
        assert(entries.subrange(0, k + 1).drop_last() =~= entries.subrange(0, k));
        lemma_encryption_index_fails(entries, k + 1);
    }
}

proof fn lemma_signing_index_fails(entries: Seq<(String, String)>, k: int)
    requires
        0 <= k <= entries.len(),
        signing_index(entries.subrange(0, k)) is None,
    ensures
        signing_index(entries) is None,
    decreases entries.len() - k,
{
    if k == entries.len() {
        assert(entries.subrange(0, k) =~= entries);
    } else {
        assert(entries.subrange(0, k + 1).drop_last() =~= entries.subrange(0, k));
        lemma_signing_index_fails(entries, k + 1);
    }
}

/// Every entry of an index that builds holds a 32-byte secret with the encryption prefix.
pub proof fn lemma_index_entries_decode(entries: Seq<(String, String)>, i: int)
    requires
        encryption_index(entries) is Some,
        0 <= i < entries.len(),
    ensures
        key_of_keyuri(encode_utf8(entries[i].1@), ENCRYPTION_KEY_PREFIX@, 32) is Some,
    decreases entries.len(),
{
    if i < entries.len() - 1 {
        assert(entries.drop_last()[i] == entries[i]);
        lemma_index_entries_decode(entries.drop_last(), i);
    }
}

/// No two entries share a name.
pub open spec fn distinct_names<V>(t: Seq<(Seq<char>, V)>) -> bool {
    forall|i: int, j: int| 0 <= i < t.len() && 0 <= j < t.len() && i != j ==> (#[trigger] t[i]).0 != (#[trigger] t[j]).0
}

/// The value stored under `name`, if any.
pub open spec fn lookup<V>(t: Seq<(Seq<char>, V)>, name: Seq<char>) -> Option<V> {
    if exists|i: int| 0 <= i < t.len() && (#[trigger] t[i]).0 == name {
        Some(t[choose|i: int| 0 <= i < t.len() && (#[trigger] t[i]).0 == name].1)
    } else {
        None
    }
}

pub proof fn lemma_lookup_at<V>(t: Seq<(Seq<char>, V)>, i: int)
    requires
        distinct_names(t),
        0 <= i < t.len(),
    ensures
        lookup(t, t[i].0) == Some(t[i].1),
{
    let j = choose|j: int| 0 <= j < t.len() && (#[trigger] t[j]).0 == t[i].0;
    assert(0 <= j < t.len() && t[j].0 == t[i].0);
}

pub proof fn lemma_distinct_push<V>(t: Seq<(Seq<char>, V)>, name: Seq<char>, v: V)
    requires
        distinct_names(t),
        forall|q: int| 0 <= q < t.len() ==> (#[trigger] t[q]).0 != name,
    ensures
        distinct_names(t.push((name, v))),
{
    let u = t.push((name, v));
    assert forall|i: int, j: int| 0 <= i < u.len() && 0 <= j < u.len() && i != j implies (#[trigger] u[i]).0 != (#[trigger] u[j]).0 by {
        if i < t.len() && j < t.len() {
            assert(u[i] == t[i] && u[j] == t[j]);
        } else if i < t.len() {
            assert(u[i] == t[i]);
        } else {
            assert(u[j] == t[j]);
        }
    }
}

/// Each entry is a secret's KeyURI under its own fingerprint.
pub open spec fn encryption_entries_ok(t: Seq<(Seq<char>, Seq<char>)>) -> bool {
    forall|i: int| 0 <= i < t.len() ==> (#[trigger] t[i]).0 == fingerprint_of(t[i].1)
        && key_of_keyuri(encode_utf8(t[i].1), ENCRYPTION_KEY_PREFIX@, 32) is Some
}

/// Each entry is a verify key under the fingerprint of its KeyURI.
pub open spec fn signing_entries_ok(t: Seq<(Seq<char>, Seq<u8>)>) -> bool {
    forall|i: int| 0 <= i < t.len() ==> (#[trigger] t[i]).0 == fingerprint_of(bech32k::encoded(VERIFY_KEY_PREFIX@, t[i].1))
}

/// Encryption secrets by fingerprint.
pub struct EncryptionKeyring {
    /// Encryption secret KeyURIs by fingerprint.
    pub keys: Vec<(String, String)>,
}

impl EncryptionKeyring {
    /// The fingerprints and KeyURIs, in order.
    pub open spec fn view(&self) -> Seq<(Seq<char>, Seq<char>)> {
        self.keys@.map_values(|e: (String, String)| (e.0@, e.1@))
    }

    /// Fingerprints are distinct, and each is the fingerprint of a well-formed secret's
    /// KeyURI.
    pub open spec fn wf(&self) -> bool {
        distinct_names(self.view()) && encryption_entries_ok(self.view())
    }

    /// An encryption keyring from labelled KeyURIs, indexed by fingerprint.
    pub fn new(keys: &Vec<(String, String)>) -> (r: Result<Self, Error>)
        ensures
            match encryption_index(keys@) {
                Some(t) => r matches Ok(k) && k.wf() && k.view() == t,
                None => r matches Err(Error::InvalidKey { .. }),
            },
    {
        let mut index: Vec<(String, String)> = Vec::new();
        let mut i: usize = 0;
        while i < keys.len()
            invariant
                i <= keys@.len(),
                encryption_index(keys@.subrange(0, i as int)) == Some(
                    index@.map_values(|e: (String, String)| (e.0@, e.1@)),
                ),
                distinct_names(index@.map_values(|e: (String, String)| (e.0@, e.1@))),
                encryption_entries_ok(index@.map_values(|e: (String, String)| (e.0@, e.1@))),
            decreases keys@.len() - i,
        {
            let ghost before = keys@.subrange(0, i as int);
            assert(keys@.subrange(0, i + 1).drop_last() =~= before);
            let uri = &keys[i].1;
            if decode_key(uri.as_str(), ENCRYPTION_KEY_PREFIX, ENCRYPTION_KEY_SIZE).is_err() {
                proof {
                    lemma_encryption_index_fails(keys@, i + 1);
                }
                return Err(Error::InvalidKey { description: "invalid encryption KeyURI".to_owned() });
            }
            let fp = fingerprint(uri.as_str());
            let ghost t = index@.map_values(|e: (String, String)| (e.0@, e.1@));
            match position(&index, fp.as_str()) {
                Some(j) => {
                    assert(t[j as int].0 == fp@);
                    proof {
                        lemma_encryption_index_fails(keys@, i + 1);
                    }
                    return Err(Error::InvalidKey { description: "duplicate encryption key".to_owned() });
                },
                None => {
                    assert forall|q: int| 0 <= q < t.len() implies (#[trigger] t[q]).0 != fp@ by {
                        assert(index@[q].0@ != fp@);
                    }
                },
            }
            proof {
                lemma_distinct_push(t, fp@, uri@);
            }
            index.push((fp, uri.clone()));
            assert(index@.map_values(|e: (String, String)| (e.0@, e.1@)) =~= t.push((fingerprint_of(uri@), uri@)));
            assert(encryption_entries_ok(t.push((fingerprint_of(uri@), uri@)))) by {
                let u = t.push((fingerprint_of(uri@), uri@));
                assert forall|q: int| 0 <= q < u.len() implies (#[trigger] u[q]).0 == fingerprint_of(u[q].1)
                    && key_of_keyuri(encode_utf8(u[q].1), ENCRYPTION_KEY_PREFIX@, 32) is Some by {
                    if q < t.len() {
                        assert(u[q] == t[q]);
                    }
                }
            }
            i = i + 1;
        }
        assert(keys@.subrange(0, keys@.len() as int) =~= keys@);
        Ok(EncryptionKeyring { keys: index })
    }

    /// An encryptor from the secret with the given fingerprint, salted.
    pub fn get(&self, key: &str, salt: &[u8]) -> (r: Result<Encryptor, Error>)
        requires
            self.wf(),
        ensures
            match lookup(self.view(), key@) {
                Some(uri) => match key_of_keyuri(encode_utf8(uri), ENCRYPTION_KEY_PREFIX@, 32) {
                    Some(secret) => r matches Ok(e) && e.wf() && e.key() == crate::crypto::derived_key(salt@, secret)
                        && e.fingerprint_view() == key@,
                    None => false,
                },
                None => r matches Err(Error::InvalidKey { .. }),
            },
    {
        match position(&self.keys, key) {
            Some(i) => {
                proof {
                    lemma_lookup_at(self.view(), i as int);
                    assert(self.view()[i as int].0 == fingerprint_of(self.view()[i as int].1));
                }
                Encryptor::from_keyuri(self.keys[i].1.as_str(), salt)
            },
            None => {
                assert forall|q: int| 0 <= q < self.view().len() implies (#[trigger] self.view()[q]).0 != key@ by {
                    assert(self.keys@[q].0@ != key@);
                }
                Err(Error::InvalidKey { description: "unknown encryption key".to_owned() })
            },
        }
    }
}

/// Verify keys by fingerprint.
pub struct SigningKeyring {
    keys: Vec<(String, PublicKey)>,
}

impl SigningKeyring {
    /// The fingerprints and key bytes, in order.
    pub closed spec fn view(&self) -> Seq<(Seq<char>, Seq<u8>)> {
        self.keys@.map_values(|e: (String, PublicKey)| (e.0@, e.1.view()))
    }

    /// Every key holds 32 bytes, and fingerprints are distinct.
    pub closed spec fn wf(&self) -> bool {
        (forall|i: int| 0 <= i < self.keys@.len() ==> (#[trigger] self.keys@[i]).1.wf())
            && distinct_names(self.view()) && signing_entries_ok(self.view())
    }

    /// A signing keyring from labelled verify-key KeyURIs, indexed by fingerprint.
    pub fn new(keys: &Vec<(String, String)>) -> (r: Result<Self, Error>)
        ensures
            match signing_index(keys@) {
                Some(t) => r matches Ok(k) && k.wf() && k.view() == t,
                None => r matches Err(Error::InvalidKey { .. }),
            },
    {
        let mut index: Vec<(String, PublicKey)> = Vec::new();
        let mut i: usize = 0;
        while i < keys.len()
            invariant
                i <= keys@.len(),
                signing_index(keys@.subrange(0, i as int)) == Some(
                    index@.map_values(|e: (String, PublicKey)| (e.0@, e.1.view())),
                ),
                forall|j: int| 0 <= j < index@.len() ==> (#[trigger] index@[j]).1.wf(),
                distinct_names(index@.map_values(|e: (String, PublicKey)| (e.0@, e.1.view()))),
                signing_entries_ok(index@.map_values(|e: (String, PublicKey)| (e.0@, e.1.view()))),
            decreases keys@.len() - i,
        {
            let ghost before = keys@.subrange(0, i as int);
            assert(keys@.subrange(0, i + 1).drop_last() =~= before);
            let public_key = match PublicKey::from_keyuri(keys[i].1.as_str()) {
                Ok(p) => p,
                Err(e) => {
                    proof {
                        lemma_signing_index_fails(keys@, i + 1);
                    }
                    return Err(e);
                },
            };
            let fp = public_key.to_fingerprint();
            let ghost t = index@.map_values(|e: (String, PublicKey)| (e.0@, e.1.view()));
            match position(&index, fp.as_str()) {
                Some(j) => {
                    assert(t[j as int].0 == fp@);
                    proof {
                        lemma_signing_index_fails(keys@, i + 1);
                    }
                    return Err(Error::InvalidKey { description: "duplicate signing key".to_owned() });
                },
                None => {
                    assert forall|q: int| 0 <= q < t.len() implies (#[trigger] t[q]).0 != fp@ by {
                        assert(index@[q].0@ != fp@);
                    }
                },
            }
            let ghost k = public_key.view();
            proof {
                lemma_distinct_push(t, fp@, k);
            }
            index.push((fp, public_key));
            assert(index@.map_values(|e: (String, PublicKey)| (e.0@, e.1.view())) =~= t.push((fp@, k)));
            assert(signing_entries_ok(t.push((fp@, k)))) by {
                let u = t.push((fp@, k));
                assert forall|q: int| 0 <= q < u.len() implies (#[trigger] u[q]).0 == fingerprint_of(
                    bech32k::encoded(VERIFY_KEY_PREFIX@, u[q].1),
                ) by {
                    if q < t.len() {
                        assert(u[q] == t[q]);
                    }
                }
            }
            i = i + 1;
        }
        assert(keys@.subrange(0, keys@.len() as int) =~= keys@);
        Ok(SigningKeyring { keys: index })
    }

    /// The verify key with the given fingerprint.
    pub fn get(&self, key: &str) -> (r: Result<&PublicKey, Error>)
        requires
            self.wf(),
        ensures
            match lookup(self.view(), key@) {
                Some(k) => r matches Ok(p) && p.wf() && p.view() == k
                    && fingerprint_of(bech32k::encoded(VERIFY_KEY_PREFIX@, k)) == key@,
                None => r matches Err(Error::InvalidKey { .. }),
            },
    {
        match position(&self.keys, key) {
            Some(i) => {
                proof {
                    lemma_lookup_at(self.view(), i as int);
                    assert(self.view()[i as int].0 == fingerprint_of(bech32k::encoded(VERIFY_KEY_PREFIX@, self.view()[i as int].1)));
                }
                Ok(&self.keys[i].1)
            },
            None => {
                assert forall|q: int| 0 <= q < self.view().len() implies (#[trigger] self.view()[q]).0 != key@ by {
                    assert(self.keys@[q].0@ != key@);
                }
                Err(Error::InvalidKey { description: "unknown signing key".to_owned() })
            },
        }
    }
}

/// Fingerprints of the keys a pack was signed and encrypted with.
#[derive(Clone, Debug, PartialEq, Eq)]
pub struct Fingerprints {
    /// Fingerprint of the signing public key's KeyURI.
    pub signing_key: String,
    /// Fingerprint of the encryption secret's KeyURI.
    pub encryption_key: String,
}

/// Keyrings of a pack consumer.
pub struct Keyrings {
    /// Encryption secrets by fingerprint.
    pub encryption: EncryptionKeyring,
    /// Verify keys by fingerprint.
    pub signing: SigningKeyring,
}

impl Keyrings {
    /// Both keyrings are well formed.
    pub open spec fn wf(&self) -> bool {
        self.signing.wf() && self.encryption.wf()
    }

    /// Keyrings from a parsed keyring configuration.
    pub fn load(config: &KeyringConfig) -> (r: Result<Self, Error>)
        ensures
            match (encryption_index(config.encryption@), signing_index(config.signing@)) {
                (Some(e), Some(s)) => r matches Ok(k) && k.wf() && k.encryption.view() == e
                    && k.signing.view() == s,
                _ => r matches Err(Error::InvalidKey { .. }),
            },
    {
        let encryption = EncryptionKeyring::new(&config.encryption)?;
        let signing = SigningKeyring::new(&config.signing)?;
        Ok(Keyrings { encryption, signing })
    }

    /// The verify key and a per-pack encryptor (salted with the pack's UUID bytes) for a
    /// pack's fingerprints.
    pub fn get_for_fingerprints(&self, fingerprints: &Fingerprints, uuid: &[u8]) -> (r: Result<(PublicKey, Encryptor), Error>)
        requires
            self.wf(),
        ensures
            match keys_for(self, fingerprints.signing_key@, fingerprints.encryption_key@, uuid@) {
                Some((pk, key)) => r matches Ok((p, e)) && p.wf() && e.wf() && p.view() == pk && e.key() == key
                    && fingerprint_of(bech32k::encoded(VERIFY_KEY_PREFIX@, pk)) == fingerprints.signing_key@
                    && e.fingerprint_view() == fingerprints.encryption_key@,
                None => r matches Err(Error::InvalidKey { .. }),
            },
    {
        let verify_key = self.signing.get(fingerprints.signing_key.as_str())?;
        let encryptor = self.encryption.get(fingerprints.encryption_key.as_str(), uuid)?;
        Ok((verify_key.copy(), encryptor))
    }
}

/// The verify key and the derived AES-SIV key for a pair of fingerprints and a salt, when
/// both are found and the secret decodes.
pub open spec fn keys_for(k: &Keyrings, signing: Seq<char>, encryption: Seq<char>, salt: Seq<u8>) -> Option<(Seq<u8>, Seq<u8>)> {
    match (lookup(k.signing.view(), signing), lookup(k.encryption.view(), encryption)) {
        (Some(pk), Some(uri)) => match key_of_keyuri(encode_utf8(uri), ENCRYPTION_KEY_PREFIX@, 32) {
            Some(secret) => Some((pk, crate::crypto::derived_key(salt, secret))),
            None => None,
        },
        _ => None,
    }
}

} // verus!
