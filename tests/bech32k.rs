use placer::bech32k::{decode, encode, Base32Converter, Error};
use placer::keyuri::{fingerprint, FINGERPRINT_PREFIX};

const EXAMPLE_PREFIX: &str = "example.prefix";
const EXAMPLE_DATA: &[u8] = &[0, 255, 1, 2, 3, 42, 101];
const EXAMPLE_ENCODED: &str = "example.prefix;qrlszqsr9fjsjhjw53";

#[test]
fn test_beck32k_roundtrip() {
    let encoded = encode(EXAMPLE_PREFIX, EXAMPLE_DATA);
    assert_eq!(encoded, EXAMPLE_ENCODED);

    let (prefix, data) = decode(&encoded).unwrap();
    assert_eq!(prefix, EXAMPLE_PREFIX);
    assert_eq!(data, EXAMPLE_DATA);
}

#[test]
fn upper_case_string_decodes_like_lower_case() {
    let (prefix, data) = decode("EXAMPLE.PREFIX;QRLSZQSR9FJSJHJW53").unwrap();
    assert_eq!(prefix, EXAMPLE_PREFIX);
    assert_eq!(data, EXAMPLE_DATA);
    let upper = decode("EXAMPLE.PREFIX;QRLSZQSR9FJSJHJW53").unwrap();
    let lower = decode("example.prefix;qrlszqsr9fjsjhjw53").unwrap();
    assert_eq!(upper, lower);
}

#[test]
fn mixed_case_is_rejected() {
    assert_eq!(decode("example.Prefix;qrlszqsr9fjsjhjw53"), Err(Error::CaseInvalid));
    assert_eq!(decode("example.prefix;qrlszqsr9fjsjhjW53"), Err(Error::CaseInvalid));
}

#[test]
fn missing_separator_is_rejected() {
    assert_eq!(decode("exampleprefixqrlszqsr9"), Err(Error::SeparatorMissing));
}

#[test]
fn bad_lengths_are_rejected() {
    assert_eq!(decode("a;qqqq"), Err(Error::LengthInvalid));
    assert_eq!(decode(";qrlszqsr9fjsjhjw53"), Err(Error::LengthInvalid));
    assert_eq!(decode("example.prefix;qrlsz"), Err(Error::LengthInvalid));
    let long = format!("p;{}", "q".repeat(89));
    assert_eq!(decode(&long), Err(Error::LengthInvalid));
}

#[test]
fn forbidden_characters_are_rejected() {
    assert_eq!(decode("example.prefix;qrlszqsr9fjsjhjw5b"), Err(Error::CharInvalid { byte: b'b' }));
    assert_eq!(decode("example.prefix;qrlszqsr1fjsjhjw53"), Err(Error::CharInvalid { byte: b'1' }));
    assert_eq!(decode("exa mple;qrlszqsr9fjsjhjw53"), Err(Error::CharInvalid { byte: b' ' }));
}

#[test]
fn checksum_mismatch_is_rejected() {
    assert_eq!(decode("example.prefix;qrlszqsr9fjsjhjw54"), Err(Error::ChecksumInvalid));
    assert_eq!(decode("example.prefiy;qrlszqsr9fjsjhjw53"), Err(Error::ChecksumInvalid));
}

#[test]
fn empty_data_round_trips() {
    let encoded = encode("abc", &[]);
    assert_eq!(encoded.len(), 3 + 1 + 6);
    assert_eq!(decode(&encoded).unwrap(), ("abc".to_owned(), vec![]));
}

#[test]
fn many_lengths_round_trip() {
    for n in 0..40usize {
        let data: Vec<u8> = (0..n).map(|i| (i * 37 + 11) as u8).collect();
        let encoded = encode("k", &data);
        if encoded.len() <= 90 && encoded.len() >= 8 {
            assert_eq!(decode(&encoded).unwrap(), ("k".to_owned(), data));
        }
    }
}

#[test]
fn fingerprint_is_a_keyuri_of_32_bytes() {
    let k = encode("public.key:ed25519", &[7u8; 32]);
    let f1 = fingerprint(&k);
    let f2 = fingerprint(&k);
    assert_eq!(f1, f2);
    assert_eq!(f1.len(), 85);
    let (prefix, digest) = decode(&f1).unwrap();
    assert_eq!(prefix, FINGERPRINT_PREFIX);
    assert_eq!(digest.len(), 32);
    assert_ne!(digest, vec![7u8; 32]);
    let other = fingerprint(&encode("public.key:ed25519", &[8u8; 32]));
    assert_ne!(f1, other);
}

#[test]
fn converter_errors() {
    assert_eq!(Base32Converter::Decode.convert(&[3, 32, 5]), Err(Error::DataInvalid { byte: 32 }));
    assert_eq!(Base32Converter::Decode.convert(&[1]), Err(Error::PaddingInvalid));
    assert_eq!(Base32Converter::Decode.convert(&[0, 1]), Err(Error::PaddingInvalid));
    assert_eq!(Base32Converter::Decode.convert(&[31, 28]), Ok(vec![0xff]));
    assert_eq!(Base32Converter::Encode.convert(&[0xff]), Ok(vec![31, 28]));
    assert_eq!(Base32Converter::Encode.convert(&[]), Ok(vec![]));
}
