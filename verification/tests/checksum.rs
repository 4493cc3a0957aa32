use scriptbox::checksum::{digest_input, pin_of, pin_of_digest, pins_match, sha256_pin};

#[test]
fn pin_is_stable_and_prefixed() {
    assert_eq!(
        sha256_pin(b""),
        "sha256:e3b0c44298fc1c149afbf4c8996fb92427ae41e4649b934ca495991b7852b855"
    );
}

#[test]
fn a_single_byte_change_changes_the_pin() {
    assert_ne!(sha256_pin(b"echo hi\n"), sha256_pin(b"echo ho\n"));
}

#[test]
fn pin_is_invariant_to_the_whole_frontmatter_block() {
    let a = b"#!/bin/bash\n# /// scriptbox\n# checksum = \"sha256:aaaa\"\n# ///\necho hi\n";
    let b = b"#!/bin/bash\n# /// scriptbox\n# interpreter = \"zsh\"\n# argv0 = \"source\"\n# checksum = \"sha256:bbbb\"\n# ///\necho hi\n";
    assert_eq!(pin_of(a), pin_of(b));
    let none = b"#!/bin/bash\necho hi\n";
    assert_eq!(pin_of(a), pin_of(none));
}

#[test]
fn pin_still_changes_when_real_content_changes() {
    let a = b"#!/bin/bash\n# /// scriptbox\n# checksum = \"sha256:x\"\n# ///\necho hi\n";
    let b = b"#!/bin/bash\n# /// scriptbox\n# checksum = \"sha256:x\"\n# ///\necho HImodified\n";
    assert_ne!(pin_of(a), pin_of(b));
}

#[test]
fn matching_tolerates_prefix_and_case() {
    let pin = sha256_pin(b"deploy\n");
    let bare = pin.strip_prefix("sha256:").unwrap().to_uppercase();
    assert!(pins_match(&pin, &pin));
    assert!(pins_match(&bare, &pin));
    assert!(!pins_match("sha256:deadbeef", &pin));
}

#[test]
fn matching_ignores_white_space_around_a_pin() {
    let pin = sha256_pin(b"deploy\n");
    let wide = format!("  \t{pin}\n");
    assert!(pins_match(&wide, &pin));
    assert!(!pins_match("", &pin));
}

#[test]
fn a_pin_is_made_of_a_digest() {
    assert_eq!(pin_of_digest(&[]), "sha256:");
    assert_eq!(pin_of_digest(&[0x00, 0x0f, 0xa5, 0xff]), "sha256:000fa5ff");
}

#[test]
fn digest_input_drops_the_first_block_alone() {
    let src = b"a\n# /// scriptbox\n# x = 1\n# ///\nb\n# /// scriptbox\n# y = 2\n# ///\nc\n";
    assert_eq!(
        digest_input(src),
        b"a\nb\n# /// scriptbox\n# y = 2\n# ///\nc\n".to_vec()
    );
}

#[test]
fn a_block_that_is_never_closed_is_pinned_in_full() {
    let src = b"a\n  #/// scriptbox  \nrest\n";
    assert_eq!(digest_input(src), src.to_vec());
    assert_eq!(pin_of(src), sha256_pin(src));
    let a = b"#!/bin/sh\n# /// scriptbox\necho hi\n";
    let b = b"#!/bin/sh\n# /// scriptbox\necho tampered\n";
    assert_ne!(pin_of(a), pin_of(b));
}

#[test]
fn digest_input_keeps_what_is_not_text() {
    let blob = b"\xff\n# /// scriptbox\n# ///\n".to_vec();
    assert_eq!(digest_input(&blob), blob);
}

#[test]
fn digest_input_keeps_a_script_without_a_block() {
    let src = "#!/bin/sh\necho \u{e9}\r\n".as_bytes();
    assert_eq!(digest_input(src), src.to_vec());
}

#[test]
fn pins_depend_on_what_surrounds_the_block() {
    let one = b"a\n# /// scriptbox\n# x = 1\n# ///\nb\n";
    let other = b"a\n#/// scriptbox\n# y = 2\n# z = 3\n  # ///  \nb\n";
    assert_eq!(pin_of(one), pin_of(other));
    assert_eq!(pin_of(one), sha256_pin(b"a\nb\n"));
    let open = b"a\n# /// scriptbox\n# x = 1\nb\n";
    assert_ne!(pin_of(one), pin_of(open));
    let at_the_end = b"a\n# /// scriptbox\n# x = 1\n# ///";
    assert_eq!(pin_of(at_the_end), sha256_pin(b"a\n"));
}
