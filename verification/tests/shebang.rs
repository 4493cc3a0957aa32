use scriptbox::shebang::{parse, Shebang};

fn sb(i: &str, a: &[&str]) -> Option<Shebang> {
    Some(Shebang {
        interpreter: i.into(),
        args: a.iter().map(|s| s.to_string()).collect(),
    })
}

#[test]
fn plain_absolute_interpreter() {
    assert_eq!(parse(b"#!/bin/bash\necho\n"), sb("/bin/bash", &[]));
}

#[test]
fn interpreter_with_flag() {
    assert_eq!(parse(b"#!/bin/bash -x\n"), sb("/bin/bash", &["-x"]));
}

#[test]
fn env_resolves_to_next_token() {
    assert_eq!(parse(b"#!/usr/bin/env bash\n"), sb("bash", &[]));
}

#[test]
fn env_dash_s_drops_options() {
    assert_eq!(parse(b"#!/usr/bin/env -S zsh -f\n"), sb("zsh", &["-f"]));
}

#[test]
fn scriptbox_shebang_does_not_recurse() {
    assert_eq!(parse(b"#!/usr/bin/env -S scriptbox bash\n"), None);
}

#[test]
fn no_shebang() {
    assert_eq!(parse(b"echo hi\n"), None);
}

#[test]
fn a_mark_before_and_a_return_after_the_line() {
    assert_eq!(
        parse("\u{feff}#!  /bin/dash\t-e \u{a0}-u\r\r\n".as_bytes()),
        sb("/bin/dash", &["-e", "-u"])
    );
}

#[test]
fn lines_that_name_nothing() {
    assert_eq!(parse(b"#!"), None);
    assert_eq!(parse(b"#!  \nx"), None);
    assert_eq!(parse(b"#!/usr/bin/env -S -i\n"), None);
    assert_eq!(parse(b"#!/opt/scriptbox\n"), None);
    assert_eq!(parse(b"#!/bin/\xff\n"), None);
    assert_eq!(parse(b""), None);
    assert_eq!(parse(b"\n#!/bin/sh\n"), None);
}

#[test]
fn only_the_first_line_has_to_be_text() {
    assert_eq!(parse(b"#!/bin/sh\n\xff\n"), sb("/bin/sh", &[]));
}
