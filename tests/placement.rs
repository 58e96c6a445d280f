use placer::config::{CacheConfig, LogConfig, QuarantineConfig};
use placer::error::Error;
use placer::producer::keyring_mode_ok;
use placer::placement::{hook_status, needs_placement, parse_mode, route, temp_path, Digest, Hook, PlaceAction, Placement, Route, TargetFile};

fn target(pack: &str) -> TargetFile {
    TargetFile::new("/tmp/t", "/tmp/t", pack, 1000, 1000, "0600", vec![], vec![]).unwrap()
}

fn run_all_ok(p: &mut Placement) -> Vec<PlaceAction> {
    let mut steps = vec![];
    while !p.is_finished() {
        steps.push(p.next);
        p.advance(true);
    }
    steps
}

#[test]
fn placement_is_idempotent() {
    let mut first = Placement::start(None, b"A", 2, 1);
    let steps = run_all_ok(&mut first);
    assert_eq!(
        steps,
        vec![
            PlaceAction::WriteTemp,
            PlaceAction::RunBeforeHook { index: 0 },
            PlaceAction::RunBeforeHook { index: 1 },
            PlaceAction::Rename,
            PlaceAction::RunAfterHook { index: 0 },
        ]
    );
    assert_eq!(first.next, PlaceAction::Done);
    // The target now holds "A": placing "A" again does nothing.
    let mut second = Placement::start(Some(b"A"), b"A", 2, 1);
    assert_eq!(run_all_ok(&mut second), vec![]);
    assert_eq!(second.next, PlaceAction::Done);
    // A different body is placed again.
    assert_eq!(Placement::start(Some(b"A"), b"B", 2, 1).next, PlaceAction::WriteTemp);
}

#[test]
fn failing_before_hook_aborts() {
    let mut p = Placement::start(None, b"A", 2, 1);
    p.advance(true);
    assert_eq!(p.next, PlaceAction::RunBeforeHook { index: 0 });
    p.advance(false);
    assert_eq!(p.next, PlaceAction::RemoveTemp);
    p.advance(true);
    assert_eq!(p.next, PlaceAction::Failed);
    assert!(p.is_finished());
}

#[test]
fn failing_after_hook_stops_after_rename() {
    let mut p = Placement::start(None, b"A", 0, 2);
    p.advance(true);
    assert_eq!(p.next, PlaceAction::Rename);
    p.advance(true);
    assert_eq!(p.next, PlaceAction::RunAfterHook { index: 0 });
    p.advance(false);
    assert_eq!(p.next, PlaceAction::Failed);
}

#[test]
fn change_detection_uses_digests() {
    assert!(needs_placement(None, b"A"));
    assert!(!needs_placement(Some(b"A"), b"A"));
    assert!(needs_placement(Some(b"B"), b"A"));
    let d = Digest::for_bytes(b"abc");
    assert_eq!(d.as_bytes()[..4], [0xba, 0x78, 0x16, 0xbf]);
    assert!(d.same_as(&Digest::for_bytes(b"abc")));
    assert!(!d.same_as(&Digest::for_bytes(b"abd")));
}

#[test]
fn files_of_other_packs_are_not_routed() {
    let targets = vec![("/tmp/t".to_owned(), target("A"))];
    assert_eq!(route(&targets, "B", "/tmp/t"), Route::OtherPack);
    assert_eq!(route(&targets, "A", "/tmp/t"), Route::Place { index: 0 });
    assert_eq!(route(&targets, "A", "/tmp/u"), Route::NoTarget);
}

#[test]
fn modes_parse_as_octal() {
    assert_eq!(parse_mode("0600"), Some(0o600));
    assert_eq!(parse_mode("755"), Some(0o755));
    assert_eq!(parse_mode("+7"), Some(7));
    assert_eq!(parse_mode("8"), None);
    assert_eq!(parse_mode(""), None);
    assert_eq!(parse_mode("+"), None);
    assert_eq!(parse_mode("37777777777"), Some(u32::MAX));
    assert_eq!(parse_mode("40000000000"), None);
}

#[test]
fn targets_require_canonical_paths() {
    assert!(TargetFile::new("/tmp/../tmp/t", "/tmp/t", "A", 0, 0, "0600", vec![], vec![]).is_err());
    assert!(TargetFile::new("/tmp/t", "/tmp/t", "A", 0, 0, "0x600", vec![], vec![]).is_err());
    let t = target("A");
    assert_eq!(t.mode, 0o600);
    assert_eq!(t.pack, "A");
}

#[test]
fn temp_file_sits_beside_target() {
    assert_eq!(temp_path("/tmp/t"), Some("/tmp/.placer-tmp-t".to_owned()));
    assert_eq!(temp_path("/etc/ssl/cert.pem"), Some("/etc/ssl/.placer-tmp-cert.pem".to_owned()));
    assert_eq!(temp_path("relative"), None);
}

#[test]
fn hook_arguments_substitute_the_file() {
    let hook = Hook::new(
        "/usr/bin/check",
        "/usr/bin/check",
        0,
        0,
        Some(vec!["-f".to_owned(), "%f".to_owned(), "%fx".to_owned()]),
    )
    .unwrap();
    assert_eq!(hook.arguments("/tmp/.placer-tmp-t"), vec!["-f", "/tmp/.placer-tmp-t", "%fx"]);
    assert!(Hook::new("/usr/bin/../bin/check", "/usr/bin/check", 0, 0, None).is_err());
}

#[test]
fn config_defaults() {
    let log = LogConfig::default();
    assert_eq!((log.path.as_str(), log.user.as_str(), log.group.as_str(), log.mode.as_str()), ("/var/log/placer.log", "root", "root", "0600"));
    let cache = CacheConfig::default();
    assert_eq!((cache.path.as_str(), cache.mode.as_str()), ("/var/cache/placer", "0600"));
    let q = QuarantineConfig::default();
    assert_eq!((q.path.as_str(), q.user.as_str(), q.group.as_str(), q.mode.as_str()), ("/var/preserve/placer", "nobody", "nobody", "0000"));
}

#[test]
fn hook_exit_status() {
    assert!(hook_status(Some(0)).is_ok());
    assert!(matches!(hook_status(Some(1)), Err(Error::Hook { .. })));
    assert!(matches!(hook_status(None), Err(Error::Hook { .. })));
}

#[test]
fn keyring_files_must_be_private() {
    assert!(keyring_mode_ok(0o100600));
    assert!(!keyring_mode_ok(0o100644));
    assert!(!keyring_mode_ok(0o600));
}
