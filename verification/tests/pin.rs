use scriptbox::checksum::{pin_of, pins_match};
use scriptbox::frontmatter::parse;
use scriptbox::pin::{paste_for, pin_block};

#[test]
fn emits_a_full_block_when_none_exists() {
    let out = pin_block(b"#!/bin/bash\necho hi\n");
    assert!(out.starts_with("# /// scriptbox\n# checksum = \"sha256:"));
    assert!(out.ends_with("\"\n# ///\n"));
}

#[test]
fn emits_just_the_line_when_a_block_exists() {
    let out =
        pin_block(b"#!/bin/bash\n# /// scriptbox\n# interpreter = \"bash\"\n# ///\necho hi\n");
    assert!(out.starts_with("# checksum = \"sha256:"));
    assert!(!out.contains("/// scriptbox"));
}

#[test]
fn the_emitted_pin_is_a_fixpoint() {
    let src = "#!/bin/bash\n# /// scriptbox\n# checksum = \"PLACEHOLDER\"\n# ///\necho hi\n";
    let pin = pin_of(src.as_bytes());
    let pinned = src.replace("PLACEHOLDER", &pin);
    assert!(pin_block(pinned.as_bytes()).contains(&pin));
}

#[test]
fn a_block_without_an_interpreter_gets_just_the_line() {
    let out = pin_block(b"# /// scriptbox\n# argv0 = \"off\"\n# ///\n:\n");
    assert!(out.starts_with("# checksum = \"sha256:"));
}

#[test]
fn a_block_that_is_never_closed_is_none() {
    let bare = "#!/bin/sh\n# /// scriptbox\necho hi\n";
    let out = pin_block(bare.as_bytes());
    assert!(out.starts_with("# /// scriptbox\n# checksum = \"sha256:"));
    let pasted = bare.replace("#!/bin/sh\n", &format!("#!/bin/sh\n{out}"));
    assert_eq!(pin_of(pasted.as_bytes()), pin_of(bare.as_bytes()));
    assert!(pins_match(
        &parse(pasted.as_bytes()).checksum.unwrap(),
        &pin_of(pasted.as_bytes())
    ));
}

#[test]
fn the_texts_to_paste() {
    assert_eq!(paste_for(true, "P"), "# checksum = \"P\"\n");
    assert_eq!(
        paste_for(false, "P"),
        "# /// scriptbox\n# checksum = \"P\"\n# ///\n"
    );
}

#[test]
fn a_pasted_block_and_a_pasted_line_are_accepted() {
    let bare = "#!/bin/bash\necho hi\n";
    let pasted = bare.replace("echo", &format!("{}echo", pin_block(bare.as_bytes())));
    let fm = parse(pasted.as_bytes());
    assert!(pins_match(
        &fm.checksum.unwrap(),
        &pin_of(pasted.as_bytes())
    ));

    let blocked = "#!/bin/bash\n# /// scriptbox\n# interpreter = \"bash\"\n# ///\necho hi\n";
    let line = pin_block(blocked.as_bytes());
    let pasted = blocked.replace("# ///\n", &format!("{line}# ///\n"));
    let fm = parse(pasted.as_bytes());
    assert_eq!(fm.interpreter.as_deref(), Some("bash"));
    assert!(pins_match(
        &fm.checksum.unwrap(),
        &pin_of(pasted.as_bytes())
    ));
}
