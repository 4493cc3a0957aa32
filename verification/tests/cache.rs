use scriptbox::cache::{
    after_attempt, cache_dir_name, cache_key, frozen_bytes, gc, is_cache_dir, is_stale, owner_of,
    pid_alive, pin_name, snapshot_name, temp_name, Liveness, Made, NextDir, Swept,
};
use scriptbox::checksum::sha256_pin;

#[test]
fn first_encounter_caches_then_reuses_ignoring_disk_edits() {
    let first = frozen_bytes(b"/d/a.sh", None, "", b"original\n").unwrap();
    assert_eq!(first.bytes, b"original\n");
    let pin = first.record.unwrap();
    assert_eq!(pin, sha256_pin(b"original\n"));

    let again = frozen_bytes(b"/d/a.sh", Some(first.bytes), &pin, b"EDITED-later\n").unwrap();
    assert_eq!(again.bytes, b"original\n");
    assert_eq!(again.record, None);
}

#[test]
fn tampering_the_cache_is_detected() {
    let pin = sha256_pin(b"trusted\n");
    let err = frozen_bytes(
        b"/d/b.sh",
        Some(b"tampered\n".to_vec()),
        &format!("{pin}\n"),
        b"trusted\n",
    )
    .unwrap_err();
    assert_eq!(
        err.message(),
        format!(
            "cached snapshot for `/d/b.sh` failed its pin - the cache was modified.\n  \
             expected: {pin}\n  actual:   {}",
            sha256_pin(b"tampered\n")
        )
    );
    assert!(frozen_bytes(b"/d/b.sh", Some(b"trusted\n".to_vec()), "", b"trusted\n").is_err());
    assert!(frozen_bytes(b"/d/b.sh", Some(b"trusted\n".to_vec()), &format!(" {pin}\n"), b"").is_ok());
}

#[test]
fn keys_are_digests_of_paths() {
    let pin = sha256_pin(b"/d/a.sh");
    let key = cache_key(b"/d/a.sh");
    assert_eq!(format!("sha256:{key}"), pin);
    assert_eq!(
        cache_key(b"/d/\xff"),
        sha256_pin("/d/\u{fffd}".as_bytes())["sha256:".len()..]
    );
    assert_eq!(snapshot_name("k"), "k.snap");
    assert_eq!(pin_name("k"), "k.pin");
    assert_eq!(temp_name(7, 12), ".tmp.7.12");
}

#[test]
fn directories_name_their_owner() {
    assert_eq!(cache_dir_name(4242, 0), "scriptbox-cache.4242.0");
    assert_eq!(owner_of(&cache_dir_name(4242, 17)), Some(4242));
    assert_eq!(owner_of(&cache_dir_name(u32::MAX, 1)), Some(u32::MAX));
    assert_eq!(owner_of("scriptbox-cache.+12.3"), Some(12));
    assert_eq!(owner_of("scriptbox-cache.12"), Some(12));
    assert_eq!(owner_of("scriptbox-cache.007.1"), Some(7));
    for other in [
        "scriptbox-cache.",
        "scriptbox-cache..1",
        "scriptbox-cache.x.1",
        "scriptbox-cache.-1.1",
        "scriptbox-cache.+.1",
        "scriptbox-cache.4294967296.1",
        "scriptbox-cachetest.1.1",
        "other",
    ] {
        assert_eq!(owner_of(other), None);
    }
}

#[test]
fn names_are_tried_in_turn() {
    assert_eq!(after_attempt(0, Made::Created), NextDir::Use);
    assert_eq!(after_attempt(0, Made::Taken), NextDir::Try(1));
    assert_eq!(after_attempt(126, Made::Taken), NextDir::Try(127));
    assert_eq!(after_attempt(127, Made::Taken), NextDir::Exhausted);
    assert_eq!(after_attempt(u32::MAX, Made::Taken), NextDir::Exhausted);
    assert_eq!(after_attempt(3, Made::Failed), NextDir::Failed);
}

#[test]
fn only_abandoned_directories_are_stale() {
    assert!(!is_stale(true, Some(1_000_000)));
    assert!(!is_stale(false, Some(29)));
    assert!(is_stale(false, Some(30)));
    assert!(is_stale(false, None));
    assert!(!is_stale(true, None));
}

#[test]
fn what_is_known_of_processes() {
    assert_eq!(pid_alive(0), Liveness::Dead);
    assert_eq!(pid_alive(1), Liveness::Ask(1));
    assert_eq!(pid_alive(i32::MAX as u32), Liveness::Ask(i32::MAX));
    assert_eq!(pid_alive(i32::MAX as u32 + 1), Liveness::Alive);
}

#[test]
fn clearing_counts_what_went() {
    assert!(is_cache_dir("scriptbox-cache.1.0", true));
    assert!(!is_cache_dir("scriptbox-cache.1.0", false));
    assert!(!is_cache_dir("scriptbox-cach", true));
    let gone = |p: &str| Swept {
        path: p.to_string(),
        error: None,
    };
    assert_eq!(
        gc(&vec![]),
        (vec!["removed 0 cache directories".to_string()], vec![])
    );
    let (lines, errors) = gc(&vec![
        gone("/t/a"),
        Swept {
            path: "/t/b".to_string(),
            error: Some("busy".to_string()),
        },
    ]);
    assert_eq!(lines, vec!["removed /t/a", "removed 1 cache directory"]);
    assert_eq!(errors, vec!["scriptbox: gc: could not remove /t/b: busy"]);
    let (lines, _) = gc(&vec![gone("x"), gone("y")]);
    assert_eq!(lines[2], "removed 2 cache directories");
}
