use placer::consumer;
use placer::crypto::{PublicKey, Signer};
use placer::error::Error;
use placer::keyuri::fingerprint;
use placer::producer;

fn verify_keyuri(seed: u8) -> String {
    Signer::from_bytes(&[seed; 32]).unwrap().public_key().unwrap().to_keyuri()
}

#[test]
fn duplicate_signing_keys_are_rejected() {
    let uri = verify_keyuri(1);
    let keys = vec![("a".to_owned(), uri.clone()), ("b".to_owned(), uri)];
    match consumer::SigningKeyring::new(&keys) {
        Err(Error::InvalidKey { description }) => assert!(description.starts_with("duplicate signing key")),
        _ => panic!("duplicate signing key accepted"),
    }
}

#[test]
fn duplicate_encryption_keys_are_rejected() {
    let uri = placer::bech32k::encode("secret.key:aes256siv+hks256", &[3u8; 32]);
    let keys = vec![("a".to_owned(), uri.clone()), ("b".to_owned(), uri)];
    assert!(matches!(consumer::EncryptionKeyring::new(&keys), Err(Error::InvalidKey { .. })));
}

#[test]
fn wrong_prefix_and_length_are_rejected() {
    let wrong_prefix = placer::bech32k::encode("secret.key:ed25519", &[1u8; 32]);
    assert!(matches!(PublicKey::from_keyuri(&wrong_prefix), Err(Error::InvalidKey { .. })));
    let short = placer::bech32k::encode("public.key:ed25519", &[1u8; 31]);
    assert!(matches!(PublicKey::from_keyuri(&short), Err(Error::InvalidKey { .. })));
    assert!(matches!(PublicKey::from_keyuri("not a keyuri"), Err(Error::InvalidKey { .. })));
    let keys = vec![("a".to_owned(), "public.key:ed25519;qqqqqq".to_owned())];
    assert!(matches!(consumer::EncryptionKeyring::new(&keys), Err(Error::InvalidKey { .. })));
}

#[test]
fn export_keeps_labels_and_fingerprints() {
    let mut config = producer::Config::from_secrets(&[5u8; 32], &[6u8; 32]);
    config.signing.push(("second".to_owned(), placer::bech32k::encode("secret.key:ed25519", &[9u8; 32])));
    let keyrings = producer::Keyrings::load(&config).unwrap();
    let exported = keyrings.export_verify_keys().unwrap();
    assert_eq!(exported.signing.len(), 2);
    assert_eq!(exported.encryption, config.encryption);
    for (label, uri) in &exported.signing {
        let signer = keyrings.signing.get(label).unwrap();
        let public = signer.public_key().unwrap();
        assert_eq!(public.to_fingerprint(), fingerprint(uri));
        assert_eq!(&public.to_keyuri(), uri);
    }
    let consumer_keys = consumer::Keyrings::load(&exported).unwrap();
    let fp = keyrings.signing.get("default").unwrap().public_key().unwrap().to_fingerprint();
    assert!(consumer_keys.signing.get(&fp).is_ok());
}

#[test]
fn default_config_has_one_key_each() {
    let config = producer::Config::generate_random().unwrap();
    assert_eq!(config.signing.len(), 1);
    assert_eq!(config.encryption.len(), 1);
    assert_eq!(config.signing[0].0, producer::DEFAULT_KEY_LABEL);
    assert!(config.signing[0].1.starts_with("secret.key:ed25519;"));
    assert!(config.encryption[0].1.starts_with("secret.key:aes256siv+hks256;"));
    assert!(producer::Keyrings::load(&config).is_ok());
}

#[test]
fn unknown_keys_are_reported() {
    let config = producer::Config::from_secrets(&[5u8; 32], &[6u8; 32]);
    let keyrings = producer::Keyrings::load(&config).unwrap();
    assert!(matches!(keyrings.signing.get("other"), Err(Error::InvalidKey { .. })));
    assert!(matches!(keyrings.encryption.get("other", &[0u8; 16]), Err(Error::InvalidKey { .. })));
}

#[test]
fn encryptor_salts_give_different_ciphertexts() {
    let config = producer::Config::from_secrets(&[5u8; 32], &[6u8; 32]);
    let keyrings = producer::Keyrings::load(&config).unwrap();
    let mut a = keyrings.encryption.get("default", &[1u8; 16]).unwrap();
    let mut b = keyrings.encryption.get("default", &[2u8; 16]).unwrap();
    let ad = vec![b"x".to_vec()];
    let ca = a.seal(&ad, b"hello");
    let cb = b.seal(&ad, b"hello");
    assert_ne!(ca, cb);
    assert_ne!(&ca[16..], b"hello");
    assert_eq!(ca.len(), 5 + 16);
    assert_eq!(a.open(&ad, &ca).unwrap(), b"hello".to_vec());
    assert!(matches!(b.open(&ad, &ca), Err(Error::Crypto { .. })));
    assert!(matches!(a.open(&vec![b"y".to_vec()], &ca), Err(Error::Crypto { .. })));
}

#[test]
fn signatures_verify_only_for_their_message() {
    let signer = Signer::from_bytes(&[4u8; 32]).unwrap();
    let public = signer.public_key().unwrap();
    assert_ne!(public.as_bytes(), &[4u8; 32][..]);
    let sig = signer.sign(b"message").unwrap();
    assert_eq!(sig.len(), 64);
    assert!(public.verify(b"message", &sig).is_ok());
    assert!(matches!(public.verify(b"messagE", &sig), Err(Error::Crypto { .. })));
    assert!(matches!(public.verify(b"message", &sig[..63]), Err(Error::Crypto { .. })));
}

#[test]
fn producer_rejects_duplicate_signing_keys() {
    let uri = placer::bech32k::encode("secret.key:ed25519", &[1u8; 32]);
    let keys = vec![("a".to_owned(), uri.clone()), ("b".to_owned(), uri)];
    match producer::SigningKeyring::new(&keys) {
        Err(Error::InvalidKey { description }) => assert!(description.starts_with("duplicate signing key")),
        _ => panic!("duplicate signing key accepted"),
    }
}

#[test]
fn producer_encryption_keys_are_validated() {
    let good = placer::bech32k::encode("secret.key:aes256siv+hks256", &[3u8; 32]);
    let other = placer::bech32k::encode("secret.key:aes256siv+hks256", &[4u8; 32]);
    assert!(producer::EncryptionKeyring::new(&vec![("a".to_owned(), good.clone()), ("b".to_owned(), other.clone())]).is_ok());
    assert!(matches!(producer::EncryptionKeyring::new(&vec![("a".to_owned(), "x".to_owned())]), Err(Error::InvalidKey { .. })));
    let short = placer::bech32k::encode("secret.key:aes256siv+hks256", &[3u8; 31]);
    assert!(matches!(producer::EncryptionKeyring::new(&vec![("a".to_owned(), short)]), Err(Error::InvalidKey { .. })));
    let mistyped = placer::bech32k::encode("secret.key:ed25519", &[3u8; 32]);
    assert!(matches!(producer::EncryptionKeyring::new(&vec![("a".to_owned(), mistyped)]), Err(Error::InvalidKey { .. })));
    let same = vec![("a".to_owned(), good.clone()), ("b".to_owned(), good.clone())];
    assert!(matches!(producer::EncryptionKeyring::new(&same), Err(Error::InvalidKey { .. })));
    let relabelled = vec![("a".to_owned(), good), ("a".to_owned(), other)];
    assert!(matches!(producer::EncryptionKeyring::new(&relabelled), Err(Error::InvalidKey { .. })));
}

#[test]
fn consumer_encryption_keys_must_decode() {
    let keys = vec![("a".to_owned(), "secret.key:aes256siv+hks256".to_owned())];
    assert!(matches!(consumer::EncryptionKeyring::new(&keys), Err(Error::InvalidKey { .. })));
    let short = placer::bech32k::encode("secret.key:aes256siv+hks256", &[3u8; 16]);
    assert!(matches!(consumer::EncryptionKeyring::new(&vec![("a".to_owned(), short)]), Err(Error::InvalidKey { .. })));
}

#[test]
fn public_key_round_trips_through_its_keyuri() {
    let public = Signer::from_bytes(&[12u8; 32]).unwrap().public_key().unwrap();
    let back = PublicKey::from_keyuri(&public.to_keyuri()).unwrap();
    assert_eq!(back, public);
}

#[test]
fn lookups_carry_the_fingerprints() {
    let config = producer::Config::from_secrets(&[5u8; 32], &[6u8; 32]);
    let keyrings = producer::Keyrings::load(&config).unwrap();
    let consumer_keys = consumer::Keyrings::load(&keyrings.export_verify_keys().unwrap()).unwrap();
    let signing = keyrings.signing.get("default").unwrap().public_key().unwrap().to_fingerprint();
    let encryption = fingerprint(&config.encryption[0].1);
    let fps = consumer::Fingerprints { signing_key: signing.clone(), encryption_key: encryption.clone() };
    let (public, encryptor) = consumer_keys.get_for_fingerprints(&fps, &[9u8; 16]).unwrap();
    assert_eq!(public.to_fingerprint(), signing);
    assert_eq!(encryptor.fingerprint(), encryption);
    let producer_encryptor = keyrings.encryption.get("default", &[9u8; 16]).unwrap();
    assert_eq!(producer_encryptor.fingerprint(), encryption);
}
