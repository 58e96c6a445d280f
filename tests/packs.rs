use placer::consumer;
use placer::error::Error;
use placer::pack::{current_time, tai64n_bytes, timestamp_from_tai64n, Pack, PackFile, Timestamp, DEFAULT_CONTENT_TYPE};
use placer::producer;

const UUID: [u8; 16] = [0x6f, 0x1c, 0x2a, 0x5e, 0x11, 0x22, 0x43, 0x44, 0x85, 0x66, 0x77, 0x88, 0x99, 0xaa, 0xbb, 0xcc];

fn hello_file() -> PackFile {
    PackFile {
        filename: "/etc/hello".to_owned(),
        content_type: DEFAULT_CONTENT_TYPE.to_owned(),
        modified_at: None,
        body: b"hi\n".to_vec(),
    }
}

fn seal(files: Vec<PackFile>, date: Timestamp) -> (Vec<u8>, consumer::Keyrings, String, String) {
    let config = producer::Config::from_secrets(&[21u8; 32], &[22u8; 32]);
    let keyrings = producer::Keyrings::load(&config).unwrap();
    let mut encryptor = keyrings.encryption.get("default", &UUID).unwrap();
    let signer = keyrings.signing.get("default").unwrap();
    let signing_fp = signer.public_key().unwrap().to_fingerprint();
    let encryption_fp = encryptor.fingerprint().to_owned();
    let pack = Pack::create(&UUID, date, files).unwrap();
    let bytes = pack.encrypt_and_sign(&mut encryptor, signer).unwrap();
    let exported = keyrings.export_verify_keys().unwrap();
    let consumer_keys = consumer::Keyrings::load(&exported).unwrap();
    (bytes, consumer_keys, signing_fp, encryption_fp)
}

#[test]
fn end_to_end_pack() {
    let now = current_time();
    let (bytes, keys, signing_fp, encryption_fp) = seal(vec![hello_file()], now);
    assert_eq!(&bytes[..16], b"placer-pack:v0.1");
    let pack = Pack::verify_and_decrypt(&bytes, &keys).unwrap();
    let files: Vec<(String, Vec<u8>)> = pack.files().iter().map(|f| (f.filename.clone(), f.body.clone())).collect();
    assert_eq!(files, vec![("/etc/hello".to_owned(), b"hi\n".to_vec())]);
    assert_eq!(pack.files()[0].content_type, DEFAULT_CONTENT_TYPE);
    let fps = pack.fingerprints.unwrap();
    assert_eq!(fps.signing_key, signing_fp);
    assert_eq!(fps.encryption_key, encryption_fp);
    assert_eq!(pack.uuid, UUID.to_vec());
    assert_eq!(pack.date, now);
}

#[test]
fn files_come_back_in_order() {
    let now = current_time();
    let mut files = Vec::new();
    for i in 0..5u8 {
        files.push(PackFile {
            filename: format!("/srv/file{}", i),
            content_type: "text/plain".to_owned(),
            modified_at: Some(Timestamp { secs: 1_500_000_000 + i as i64, nanos: 7 }),
            body: vec![i; 300 * i as usize],
        });
    }
    let (bytes, keys, _, _) = seal(files.clone(), now);
    let pack = Pack::verify_and_decrypt(&bytes, &keys).unwrap();
    assert_eq!(pack.files, files);
}

#[test]
fn future_pack_is_rejected() {
    let now = current_time();
    let later = Timestamp { secs: now.secs + 2 * 86_400, nanos: now.nanos };
    let (bytes, keys, _, _) = seal(vec![hello_file()], later);
    match Pack::verify_and_decrypt(&bytes, &keys) {
        Err(Error::Parse { description }) => assert!(description.starts_with("bogus future timestamp")),
        _ => panic!("future pack accepted"),
    }
    let slightly_later = Timestamp { secs: now.secs + 3600, nanos: now.nanos };
    let (bytes, keys, _, _) = seal(vec![hello_file()], slightly_later);
    assert!(Pack::verify_and_decrypt(&bytes, &keys).is_ok());
}

#[test]
fn skew_boundary_is_exact() {
    let now = Timestamp { secs: 1_700_000_000, nanos: 500 };
    let (bytes, keys, _, _) = seal(vec![hello_file()], Timestamp { secs: now.secs + 86_400, nanos: 500 });
    assert!(Pack::verify_and_decrypt_at(&bytes, &keys, now).is_ok());
    let (bytes, keys, _, _) = seal(vec![hello_file()], Timestamp { secs: now.secs + 86_400, nanos: 501 });
    assert!(matches!(Pack::verify_and_decrypt_at(&bytes, &keys, now), Err(Error::Parse { .. })));
    let (bytes, keys, _, _) = seal(vec![hello_file()], Timestamp { secs: now.secs + 86_400, nanos: 999_999_999 });
    assert!(matches!(Pack::verify_and_decrypt_at(&bytes, &keys, now), Err(Error::Parse { .. })));
}

#[test]
fn tampering_is_detected() {
    let now = current_time();
    let (bytes, keys, _, _) = seal(vec![hello_file()], now);
    // The ciphertext is the last field, at the end of the pack.
    let mut tampered = bytes.clone();
    let last = tampered.len() - 1;
    tampered[last] ^= 1;
    assert!(matches!(Pack::verify_and_decrypt(&tampered, &keys), Err(Error::Crypto { .. })));
    // The signature sits right before the ciphertext field.
    let record_len = (2 + "/etc/hello".len()) + (2 + DEFAULT_CONTENT_TYPE.len()) + (2 + 3);
    let payload_len = 2 + record_len;
    let ct_len = payload_len + 16;
    let ct_field = 1 + 1 + ct_len;
    assert_eq!(bytes[bytes.len() - ct_field], 0x32);
    assert_eq!(bytes[bytes.len() - ct_field - 64 - 2], 0x2a);
    let sig_start = bytes.len() - ct_field - 64;
    let mut tampered = bytes.clone();
    tampered[sig_start] ^= 0x80;
    assert!(matches!(Pack::verify_and_decrypt(&tampered, &keys), Err(Error::Crypto { .. })));
}

#[test]
fn bad_framing_is_a_parse_error() {
    let now = current_time();
    let (bytes, keys, _, _) = seal(vec![hello_file()], now);
    assert!(matches!(Pack::verify_and_decrypt(&bytes[..10], &keys), Err(Error::Parse { .. })));
    let mut bad_magic = bytes.clone();
    bad_magic[0] = b'P';
    assert!(matches!(Pack::verify_and_decrypt(&bad_magic, &keys), Err(Error::Parse { .. })));
    assert!(matches!(Pack::verify_and_decrypt(&bytes[..bytes.len() - 1], &keys), Err(Error::Parse { .. })));
}

#[test]
fn unknown_keys_fail_lookup() {
    let now = current_time();
    let (bytes, _, _, _) = seal(vec![hello_file()], now);
    let other = producer::Config::from_secrets(&[1u8; 32], &[2u8; 32]);
    let other_keys = producer::Keyrings::load(&other).unwrap();
    let other_consumer = consumer::Keyrings::load(&other_keys.export_verify_keys().unwrap()).unwrap();
    match Pack::verify_and_decrypt(&bytes, &other_consumer) {
        Err(Error::InvalidKey { description }) => assert_eq!(description, "key lookup failed"),
        _ => panic!("unknown keys accepted"),
    }
}

#[test]
fn oversized_payload_is_refused() {
    let big = PackFile { body: vec![0u8; 1_048_576], ..hello_file() };
    let now = current_time();
    let pack = Pack::create(&UUID, now, vec![big]).unwrap();
    assert!(matches!(pack.serialize(), Err(Error::Serialization { .. })));
}

#[test]
fn tai64n_encoding() {
    let epoch = Timestamp { secs: 0, nanos: 0 };
    assert_eq!(tai64n_bytes(epoch), vec![0x40, 0, 0, 0, 0, 0, 0, 0x0a, 0, 0, 0, 0]);
    let t = Timestamp { secs: 1_234_567_890, nanos: 987_654_321 };
    let b = tai64n_bytes(t);
    assert_eq!(b, vec![0x40, 0, 0, 0, 0x49, 0x96, 0x02, 0xdc, 0x3a, 0xde, 0x68, 0xb1]);
    assert_eq!(timestamp_from_tai64n(&b), Some(t));
    let mut bad = b.clone();
    bad[8] = 0xff;
    assert_eq!(timestamp_from_tai64n(&bad), None);
    assert_eq!(timestamp_from_tai64n(&b[..11]), None);
}

#[test]
fn create_rejects_bad_uuid() {
    let now = current_time();
    assert!(matches!(Pack::create(&UUID[..15], now, vec![]), Err(Error::Parse { .. })));
}

#[test]
fn oversized_input_is_refused_before_parsing() {
    let now = current_time();
    let (_, keys, _, _) = seal(vec![hello_file()], now);
    let big = vec![0u8; 1_048_577];
    assert!(matches!(Pack::load(&big, &keys, now), Err(Error::Serialization { .. })));
    assert!(matches!(Pack::load(&big[..20], &keys, now), Err(Error::Parse { .. })));
}

#[test]
fn key_lookup_capability() {
    let now = current_time();
    let (bytes, keys, signing_fp, _) = seal(vec![hello_file()], now);
    let pack = Pack::verify_and_decrypt_with(
        &bytes,
        |fps: &consumer::Fingerprints, uuid: &Vec<u8>| keys.get_for_fingerprints(fps, uuid).ok(),
        now,
    )
    .unwrap();
    assert_eq!(pack.files[0].body, b"hi\n".to_vec());
    assert_eq!(pack.fingerprints.unwrap().signing_key, signing_fp);

    let missing = Pack::verify_and_decrypt_with(&bytes, |_: &consumer::Fingerprints, _: &Vec<u8>| None, now);
    assert!(matches!(missing, Err(Error::InvalidKey { .. })));

    let other_salt = Pack::verify_and_decrypt_with(
        &bytes,
        |fps: &consumer::Fingerprints, _: &Vec<u8>| keys.get_for_fingerprints(fps, &[0u8; 16]).ok(),
        now,
    );
    assert!(matches!(other_salt, Err(Error::Crypto { .. })));
}
