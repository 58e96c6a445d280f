use placer::error::Error;
use placer::source::{parse_decimal, read_greeting, source_command_name, Resource, ResourceHash, Source};

fn source() -> Source {
    let packs = vec![("web".to_owned(), "https://example.com/web.pack".to_owned()), ("db".to_owned(), "https://example.com/db.pack".to_owned())];
    Source::new("http", "placer-source-http 0.1 started".to_owned(), 42, &packs).unwrap()
}

#[test]
fn greetings_must_start_with_ok() {
    assert_eq!(read_greeting("OK placer-source-http 0.1 started\n").unwrap(), "placer-source-http 0.1 started");
    assert!(matches!(read_greeting("ERR nope\n"), Err(Error::Source { .. })));
    assert!(matches!(read_greeting("OK"), Err(Error::Source { .. })));
}

#[test]
fn headers_have_two_fields_and_a_bounded_length() {
    let s = source();
    assert_eq!(s.parse_header("12 https://example.com/web.pack\n").unwrap(), (12, "https://example.com/web.pack".to_owned()));
    assert!(matches!(s.parse_header("12\n"), Err(Error::Source { .. })));
    assert!(matches!(s.parse_header("1 2 3\n"), Err(Error::Source { .. })));
    assert!(matches!(s.parse_header("x https://example.com/web.pack\n"), Err(Error::Source { .. })));
    assert!(matches!(s.parse_header("1048577 https://example.com/web.pack\n"), Err(Error::Source { .. })));
    assert_eq!(s.parse_header("1048576 r\n").unwrap().0, 1_048_576);
}

#[test]
fn deliveries_map_back_to_packs() {
    let s = source();
    assert_eq!(s.finish_delivery("https://example.com/db.pack", "\n").unwrap(), "db");
    assert!(matches!(s.finish_delivery("https://example.com/other.pack", "\n"), Err(Error::Source { .. })));
    assert!(matches!(s.finish_delivery("https://example.com/db.pack", "x\n"), Err(Error::Source { .. })));
}

#[test]
fn shared_resources_are_rejected() {
    let packs = vec![("a".to_owned(), "r".to_owned()), ("b".to_owned(), "r".to_owned())];
    assert!(matches!(Source::new("http", String::new(), 1, &packs), Err(Error::Config { .. })));
}

#[test]
fn decimal_numbers() {
    assert_eq!(parse_decimal("0"), Some(0));
    assert_eq!(parse_decimal("+15"), Some(15));
    assert_eq!(parse_decimal("4294967295"), Some(u32::MAX));
    assert_eq!(parse_decimal("4294967296"), None);
    assert_eq!(parse_decimal("-1"), None);
    assert_eq!(parse_decimal(""), None);
}

#[test]
fn fetcher_command_name() {
    assert_eq!(source_command_name("http"), "placer-source-http");
}

#[test]
fn fetcher_skips_unchanged_bodies() {
    let mut r = Resource::new("https://example.com/web.pack");
    assert_eq!(r.handle_response(200, Some("\"v1\"".to_owned()), ResourceHash::digest(b"one")).unwrap(), true);
    assert_eq!(r.etag.as_deref(), Some("\"v1\""));
    assert_eq!(r.handle_response(200, None, ResourceHash::digest(b"one")).unwrap(), false);
    assert_eq!(r.handle_response(304, None, ResourceHash::digest(b"")).unwrap(), false);
    assert_eq!(r.handle_response(200, None, ResourceHash::digest(b"two")).unwrap(), true);
    assert!(r.handle_response(500, None, ResourceHash::digest(b"two")).is_err());
    assert_eq!(r.etag.as_deref(), Some("\"v1\""));
}
