//! Keyrings of a pack producer: signing seeds and encryption master secrets, by label.
use crate::consumer::{distinct_names, encryption_index, lemma_distinct_push, lemma_index_entries_decode, lemma_lookup_at, lookup, KeyringConfig};
use crate::crypto::{decode_key, derived_key, ed25519_public_of, key_of_keyuri, Encryptor, Signer, ENCRYPTION_KEY_SIZE, SIGNING_KEY_SIZE};
use crate::bech32k;
use crate::error::Error;
use crate::keyuri::{fingerprint, fingerprint_of, lemma_prefix_lengths, ENCRYPTION_KEY_PREFIX, SIGNING_KEY_PREFIX, VERIFY_KEY_PREFIX};
use crate::lookup::{copy_table, position};
use vstd::prelude::*;
use vstd::string::StringSliceAdditionalSpecFns;
use vstd::utf8::encode_utf8;

verus! {

/// Label of the key that tools use when none is named.
pub const DEFAULT_KEY_LABEL: &'static str = "default";

/// Required permissions of keyring files.
pub const REQUIRED_FILE_PERMISSIONS: u32 = 0o600;

/// File type bits of a regular file in a mode.
pub const REGULAR_FILE_MODE: u32 = 0o100_000;

/// Whether a keyring file's mode is a regular file readable and writable by its owner
/// alone (`0600`).
pub fn keyring_mode_ok(mode: u32) -> (r: bool)
    ensures
        r == (mode == REGULAR_FILE_MODE + REQUIRED_FILE_PERMISSIONS),
{
    mode == REGULAR_FILE_MODE + REQUIRED_FILE_PERMISSIONS
}

/// Relies on `rand::rngs::OsRng` (`try_fill_bytes`): 32 bytes from the operating system,
/// or nothing when its random source fails.
#[verifier::external_body]
fn random_32_bytes() -> (r: Option<Vec<u8>>)
    ensures
        r matches Some(v) ==> v@.len() == 32,
{
    let mut bytes = vec![0u8; 32];
    match rand::RngCore::try_fill_bytes(&mut rand::rngs::OsRng, &mut bytes) {
        Ok(()) => Some(bytes),
        Err(_) => None,
    }
}

/// Keyring configuration of a producer: label to KeyURI, for signing seeds and for
/// encryption master secrets.
pub struct Config {
    /// Signing seed KeyURIs by label.
    pub signing: Vec<(String, String)>,
    /// Encryption secret KeyURIs by label.
    pub encryption: Vec<(String, String)>,
}

impl Config {
    /// A configuration holding one signing seed and one encryption secret, under the
    /// default label.
    pub fn from_secrets(signing_seed: &[u8], encryption_secret: &[u8]) -> (r: Self)
        requires
            signing_seed@.len() == SIGNING_KEY_SIZE,
            encryption_secret@.len() == ENCRYPTION_KEY_SIZE,
        ensures
            r.signing@.len() == 1,
            r.signing@[0].0@ == DEFAULT_KEY_LABEL@,
            r.signing@[0].1@ == bech32k::encoded(SIGNING_KEY_PREFIX@, signing_seed@),
            r.encryption@.len() == 1,
            r.encryption@[0].0@ == DEFAULT_KEY_LABEL@,
            r.encryption@[0].1@ == bech32k::encoded(ENCRYPTION_KEY_PREFIX@, encryption_secret@),
    {
        proof {
            lemma_prefix_lengths();
        }
        let mut signing = Vec::new();
        signing.push((DEFAULT_KEY_LABEL.to_owned(), bech32k::encode(SIGNING_KEY_PREFIX, signing_seed)));
        let mut encryption = Vec::new();
        encryption.push(
            (DEFAULT_KEY_LABEL.to_owned(), bech32k::encode(ENCRYPTION_KEY_PREFIX, encryption_secret)),
        );
        Config { signing, encryption }
    }

    /// A configuration with a fresh random signing seed and encryption secret.
    pub fn generate_random() -> (r: Result<Self, Error>)
        ensures
            match r {
                Ok(c) => c.signing@.len() == 1 && c.encryption@.len() == 1
                    && c.signing@[0].0@ == DEFAULT_KEY_LABEL@ && c.encryption@[0].0@ == DEFAULT_KEY_LABEL@
                    && (exists|seed: Seq<u8>| seed.len() == 32 && c.signing@[0].1@ == bech32k::encoded(SIGNING_KEY_PREFIX@, seed))
                    && (exists|secret: Seq<u8>| secret.len() == 32 && c.encryption@[0].1@ == bech32k::encoded(ENCRYPTION_KEY_PREFIX@, secret)),
                Err(e) => e is Io,
            },
    {
        let seed = match random_32_bytes() {
            Some(b) => b,
            None => return Err(Error::Io { description: "OS random number generator failure".to_owned() }),
        };
        let secret = match random_32_bytes() {
            Some(b) => b,
            None => return Err(Error::Io { description: "OS random number generator failure".to_owned() }),
        };
        let config = Config::from_secrets(seed.as_slice(), secret.as_slice());
        Ok(config)
    }
}

/// Producer signing keys by label, in the order they were given; `None` on a malformed,
/// mistyped or wrong-length KeyURI, a repeated label, or a repeated fingerprint.
pub open spec fn signing_table(entries: Seq<(String, String)>) -> Option<Seq<(Seq<char>, Seq<u8>)>>
    decreases entries.len(),
{
    if entries.len() == 0 {
        Some(Seq::empty())
    } else {
        match signing_table(entries.drop_last()) {
            None => None,
            Some(t) => {
                let label = entries.last().0@;
                match key_of_keyuri(encode_utf8(entries.last().1@), SIGNING_KEY_PREFIX@, 32) {
                    None => None,
                    Some(seed) => if exists|i: int| 0 <= i < t.len() && (#[trigger] t[i]).0 == label {
                        None
                    } else if exists|i: int| 0 <= i < entries.len() - 1
                        && fingerprint_of((#[trigger] entries[i]).1@) == fingerprint_of(entries.last().1@) {
                        None
                    } else {
                        Some(t.push((label, seed)))
                    },
                }
            },
        }
    }
}

proof fn lemma_signing_table_fails(entries: Seq<(String, String)>, k: int)
    requires
        0 <= k <= entries.len(),
        signing_table(entries.subrange(0, k)) is None,
    ensures
        signing_table(entries) is None,
    decreases entries.len() - k,
{
    if k == entries.len() {
        assert(entries.subrange(0, k) =~= entries);
    } else {
        assert(entries.subrange(0, k + 1).drop_last() =~= entries.subrange(0, k));
        lemma_signing_table_fails(entries, k + 1);
    }
}

/// Keyring of signers, by label.
pub struct SigningKeyring {
    keys: Vec<(String, Signer)>,
}

impl SigningKeyring {
    /// The labels and seeds, in order.
    pub closed spec fn view(&self) -> Seq<(Seq<char>, Seq<u8>)> {
        self.keys@.map_values(|e: (String, Signer)| (e.0@, e.1.view()))
    }

    /// Every signer holds a 32-byte seed.
    pub closed spec fn wf(&self) -> bool {
        forall|i: int| 0 <= i < self.keys@.len() ==> (#[trigger] self.keys@[i]).1.wf()
    }

    /// A signing keyring from labelled seed KeyURIs. Fails on a malformed KeyURI, a
    /// wrong prefix or length, a repeated label, or a repeated fingerprint.
    pub fn new(keys: &Vec<(String, String)>) -> (r: Result<Self, Error>)
        ensures
            match signing_table(keys@) {
                Some(t) => r matches Ok(k) && k.wf() && k.view() == t,
                None => r matches Err(Error::InvalidKey { .. }),
            },
    {
        let mut signers: Vec<(String, Signer)> = Vec::new();
        let mut fingerprints: Vec<(String, usize)> = Vec::new();
        let mut i: usize = 0;
        while i < keys.len()
            invariant
                i <= keys@.len(),
                fingerprints@.len() == i,
                forall|j: int| 0 <= j < i ==> (#[trigger] fingerprints@[j]).0@ == fingerprint_of(keys@[j].1@),
                signing_table(keys@.subrange(0, i as int)) == Some(
                    signers@.map_values(|e: (String, Signer)| (e.0@, e.1.view())),
                ),
                forall|j: int| 0 <= j < signers@.len() ==> (#[trigger] signers@[j]).1.wf(),
            decreases keys@.len() - i,
        {
            let ghost before = keys@.subrange(0, i as int);
            let ghost after = keys@.subrange(0, i + 1);
            assert(after.drop_last() =~= before);
            let label = &keys[i].0;
            let seed = match decode_key(keys[i].1.as_str(), SIGNING_KEY_PREFIX, SIGNING_KEY_SIZE) {
                Ok(s) => s,
                Err(e) => {
                    proof {
                        lemma_signing_table_fails(keys@, i + 1);
                    }
                    return Err(e);
                },
            };
            let signer = match Signer::from_bytes(seed.as_slice()) {
                Ok(s) => s,
                Err(e) => {
                    return Err(e);
                },
            };
            let ghost t = signers@.map_values(|e: (String, Signer)| (e.0@, e.1.view()));
            match position(&signers, label.as_str()) {
                Some(j) => {
                    assert(t[j as int].0 == label@);
                    proof {
                        lemma_signing_table_fails(keys@, i + 1);
                    }
                    return Err(Error::InvalidKey { description: "duplicate signing key".to_owned() });
                },
                None => {
                    assert(!exists|q: int| 0 <= q < t.len() && (#[trigger] t[q]).0 == label@) by {
                        assert forall|q: int| 0 <= q < t.len() implies (#[trigger] t[q]).0 != label@ by {
                            assert(signers@[q].0@ != label@);
                        }
                    }
                },
            }
            let fp = fingerprint(keys[i].1.as_str());
            match position(&fingerprints, fp.as_str()) {
                Some(j) => {
                    assert(after[j as int] == keys@[j as int]);
                    assert(fingerprint_of(after[j as int].1@) == fingerprint_of(after.last().1@));
                    proof {
                        lemma_signing_table_fails(keys@, i + 1);
                    }
                    return Err(Error::InvalidKey { description: "duplicate signing key".to_owned() });
                },
                None => {
                    assert forall|q: int| 0 <= q < after.len() - 1 implies fingerprint_of((#[trigger] after[q]).1@)
                        != fingerprint_of(after.last().1@) by {
                        assert(after[q] == keys@[q]);
                        assert(fingerprints@[q].0@ != fp@);
                    }
                },
            }
            signers.push((label.clone(), signer));
            fingerprints.push((fp, i));
            assert(signers@.map_values(|e: (String, Signer)| (e.0@, e.1.view())) =~= t.push((label@, seed@)));
            i = i + 1;
        }
        assert(keys@.subrange(0, keys@.len() as int) =~= keys@);
        Ok(SigningKeyring { keys: signers })
    }

    /// The signer with the given label.
    pub fn get(&self, label: &str) -> (r: Result<&Signer, Error>)
        requires
            self.wf(),
        ensures
            match r {
                Ok(s) => s.wf() && exists|i: int| 0 <= i < self.view().len() && (#[trigger] self.view()[i]).0 == label@ && self.view()[i].1 == s.view(),
                Err(e) => e is InvalidKey && forall|i: int| 0 <= i < self.view().len() ==> (#[trigger] self.view()[i]).0 != label@,
            },
    {
        match position(&self.keys, label) {
            Some(i) => {
                assert(self.view()[i as int].0 == label@);
                Ok(&self.keys[i].1)
            },
            None => {
                assert forall|q: int| 0 <= q < self.view().len() implies (#[trigger] self.view()[q]).0 != label@ by {
                    assert(self.keys@[q].0@ != label@);
                }
                Err(Error::InvalidKey { description: "unknown signing key".to_owned() })
            },
        }
    }
}

/// A table of (name, KeyURI) pairs as sequences of characters.
pub open spec fn labelled(keys: Seq<(String, String)>) -> Seq<(Seq<char>, Seq<char>)> {
    keys.map_values(|e: (String, String)| (e.0@, e.1@))
}

/// Labelled encryption secrets a producer keyring accepts: every KeyURI a 32-byte secret
/// with the encryption prefix, fingerprints distinct, labels distinct.
pub open spec fn encryption_secrets_ok(keys: Seq<(String, String)>) -> bool {
    encryption_index(keys) is Some && distinct_names(labelled(keys))
}

/// Keyring of encryption master secrets, by label.
pub struct EncryptionKeyring {
    /// Encryption secret KeyURIs by label.
    pub keys: Vec<(String, String)>,
}

impl EncryptionKeyring {
    /// The labels and KeyURIs, in order.
    pub open spec fn view(&self) -> Seq<(Seq<char>, Seq<char>)> {
        labelled(self.keys@)
    }

    /// Labels are distinct and every KeyURI holds a 32-byte secret.
    pub open spec fn wf(&self) -> bool {
        distinct_names(self.view()) && forall|i: int|
            0 <= i < self.keys@.len() ==> key_of_keyuri(encode_utf8((#[trigger] self.keys@[i]).1@), ENCRYPTION_KEY_PREFIX@, 32) is Some
    }

    /// An encryption keyring holding the given labelled KeyURIs. Fails on a malformed,
    /// mistyped or wrong-length KeyURI, a repeated fingerprint, or a repeated label.
    pub fn new(keys: &Vec<(String, String)>) -> (r: Result<Self, Error>)
        ensures
            if encryption_secrets_ok(keys@) {
                r matches Ok(k) && k.wf() && k.keys@ == keys@
            } else {
                r matches Err(Error::InvalidKey { .. })
            },
    {
        let _index = crate::consumer::EncryptionKeyring::new(keys)?;
        let mut table: Vec<(String, String)> = Vec::new();
        let mut i: usize = 0;
        while i < keys.len()
            invariant
                i <= keys@.len(),
                encryption_index(keys@) is Some,
                table@ == keys@.subrange(0, i as int),
                distinct_names(labelled(table@)),
            decreases keys@.len() - i,
        {
            let ghost t = labelled(table@);
            match position(&table, keys[i].0.as_str()) {
                Some(j) => {
                    assert(!distinct_names(labelled(keys@))) by {
                        assert(labelled(keys@)[j as int].0 == labelled(keys@)[i as int].0);
                    }
                    return Err(Error::InvalidKey { description: "duplicate encryption key label".to_owned() });
                },
                None => {
                    assert forall|q: int| 0 <= q < t.len() implies (#[trigger] t[q]).0 != keys@[i as int].0@ by {
                        assert(table@[q].0@ != keys@[i as int].0@);
                    }
                    proof {
                        lemma_distinct_push(t, keys@[i as int].0@, keys@[i as int].1@);
                    }
                },
            }
            table.push((keys[i].0.clone(), keys[i].1.clone()));
            assert(table@ =~= keys@.subrange(0, i + 1));
            assert(labelled(table@) =~= t.push((keys@[i as int].0@, keys@[i as int].1@)));
            i = i + 1;
        }
        assert(keys@.subrange(0, keys@.len() as int) =~= keys@);
        assert forall|q: int| 0 <= q < keys@.len() implies key_of_keyuri(encode_utf8((#[trigger] keys@[q]).1@), ENCRYPTION_KEY_PREFIX@, 32) is Some by {
            lemma_index_entries_decode(keys@, q);
        }
        Ok(EncryptionKeyring { keys: table })
    }

    /// An encryptor from the secret with the given label, salted.
    pub fn get(&self, label: &str, salt: &[u8]) -> (r: Result<Encryptor, Error>)
        requires
            self.wf(),
        ensures
            match lookup(self.view(), label@) {
                Some(uri) => match key_of_keyuri(encode_utf8(uri), ENCRYPTION_KEY_PREFIX@, 32) {
                    Some(secret) => r matches Ok(e) && e.wf() && e.key() == derived_key(salt@, secret)
                        && e.fingerprint_view() == fingerprint_of(uri),
                    None => false,
                },
                None => r matches Err(Error::InvalidKey { .. }),
            },
    {
        match position(&self.keys, label) {
            Some(i) => {
                proof {
                    lemma_lookup_at(self.view(), i as int);
                }
                Encryptor::from_keyuri(self.keys[i].1.as_str(), salt)
            },
            None => {
                assert forall|q: int| 0 <= q < self.view().len() implies (#[trigger] self.view()[q]).0 != label@ by {
                    assert(self.keys@[q].0@ != label@);
                }
                Err(Error::InvalidKey { description: "unknown encryption key".to_owned() })
            },
        }
    }
}

/// Keyrings of a pack producer.
pub struct Keyrings {
    /// Encryption secrets.
    pub encryption: EncryptionKeyring,
    /// Signing seeds.
    pub signing: SigningKeyring,
}

/// The verify-key KeyURI that export writes for a seed.
pub open spec fn exported_public(seed: Seq<u8>) -> Seq<char> {
    bech32k::encoded(VERIFY_KEY_PREFIX@, ed25519_public_of(seed))
}

/// `c` is the consumer configuration exported from `p`: the same labels in the same order,
/// each with the verify-key KeyURI of its seed, and the same encryption secrets.
pub open spec fn exports_to(p: &Keyrings, c: &KeyringConfig) -> bool {
    c.signing@.len() == p.signing.view().len() && (forall|i: int|
        0 <= i < c.signing@.len() ==> (#[trigger] c.signing@[i]).0@ == p.signing.view()[i].0
            && c.signing@[i].1@ == exported_public(p.signing.view()[i].1))
        && c.encryption@ == p.encryption.keys@
}

/// Export keeps every label, and the fingerprint of each exported verify key is the
/// fingerprint of the producer signer's public key.
pub proof fn lemma_export_fingerprints(p: &Keyrings, c: &KeyringConfig, i: int)
    requires
        exports_to(p, c),
        0 <= i < p.signing.view().len(),
    ensures
        c.signing@[i].0@ == p.signing.view()[i].0,
        fingerprint_of(c.signing@[i].1@) == fingerprint_of(
            bech32k::encoded(VERIFY_KEY_PREFIX@, ed25519_public_of(p.signing.view()[i].1)),
        ),
{
}

impl Keyrings {
    /// Keyrings from a parsed keyring configuration.
    pub fn load(config: &Config) -> (r: Result<Self, Error>)
        ensures
            match signing_table(config.signing@) {
                Some(t) => if encryption_secrets_ok(config.encryption@) {
                    r matches Ok(k) && k.signing.wf() && k.signing.view() == t && k.encryption.wf()
                        && k.encryption.keys@ == config.encryption@
                } else {
                    r matches Err(Error::InvalidKey { .. })
                },
                None => r matches Err(Error::InvalidKey { .. }),
            },
    {
        let encryption = EncryptionKeyring::new(&config.encryption)?;
        let signing = SigningKeyring::new(&config.signing)?;
        Ok(Keyrings { encryption, signing })
    }

    /// The consumer keyring configuration: each signing seed replaced by its public key's
    /// KeyURI under the same label, the encryption secrets kept as they are.
    pub fn export_verify_keys(&self) -> (r: Result<KeyringConfig, Error>)
        requires
            self.signing.wf(),
        ensures
            r matches Ok(c) && exports_to(self, &c),
    {
        let mut signing: Vec<(String, String)> = Vec::new();
        let mut i: usize = 0;
        while i < self.signing.keys.len()
            invariant
                i <= self.signing.keys@.len(),
                self.signing.wf(),
                signing@.len() == i,
                forall|j: int| 0 <= j < i ==> (#[trigger] signing@[j]).0@ == self.signing.view()[j].0
                    && signing@[j].1@ == exported_public(self.signing.view()[j].1),
            decreases self.signing.keys@.len() - i,
        {
            let entry = &self.signing.keys[i];
            assert(entry.1.wf());
            let public_key = entry.1.public_key()?;
            let uri = public_key.to_keyuri();
            signing.push((entry.0.clone(), uri));
            i = i + 1;
        }
        Ok(KeyringConfig { signing, encryption: copy_table(&self.encryption.keys) })
    }
}

} // verus!
