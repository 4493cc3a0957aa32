use scriptbox::interpreter::{argv0_fix, first_line_end, prepare_bytes, shell_squote, Argv0Fix};

#[test]
fn no_rewrite_returns_verbatim() {
    let src = b"#!/bin/bash\necho hi\n";
    assert_eq!(prepare_bytes(src, "bash", "/real.sh", false), src);
}

#[test]
fn bash_rewrite_joins_onto_the_first_body_line() {
    let src = b"#!/usr/bin/env -S scriptbox bash\necho hi\nfalse\n";
    let out = prepare_bytes(src, "bash", "/home/j/deploy.sh", true);
    assert_eq!(
        String::from_utf8(out).unwrap(),
        "#!/usr/bin/env -S scriptbox bash\nBASH_ARGV0='/home/j/deploy.sh'; echo hi\nfalse\n"
    );
}

#[test]
fn zsh_uses_bare_zero_assignment() {
    let out = prepare_bytes(b"#!/bin/zsh\necho\n", "/bin/zsh", "/a b.sh", true);
    assert_eq!(
        String::from_utf8(out).unwrap(),
        "#!/bin/zsh\n0='/a b.sh'; echo\n"
    );
}

#[test]
fn dash_has_no_in_run_fix_so_bytes_are_verbatim() {
    let src = b"#!/bin/dash\necho\n";
    assert_eq!(prepare_bytes(src, "dash", "/real.sh", true), src);
}

#[test]
fn no_shebang_joins_onto_line_one() {
    let out = prepare_bytes(b"echo first\nfalse\n", "bash", "/real.sh", true);
    assert_eq!(
        String::from_utf8(out).unwrap(),
        "BASH_ARGV0='/real.sh'; echo first\nfalse\n"
    );
}

#[test]
fn no_shebang_zsh_joins_onto_line_one() {
    let out = prepare_bytes(b"print $0\n", "zsh", "/a b.sh", true);
    assert_eq!(String::from_utf8(out).unwrap(), "0='/a b.sh'; print $0\n");
}

#[test]
fn embedded_single_quote_is_escaped() {
    let out = prepare_bytes(b"#!/bin/bash\n:\n", "bash", "/o'brien/x.sh", true);
    assert_eq!(
        String::from_utf8(out).unwrap(),
        "#!/bin/bash\nBASH_ARGV0='/o'\\''brien/x.sh'; :\n"
    );
}

#[test]
fn shebang_with_no_body_appends_the_reset() {
    let out = prepare_bytes(b"#!/bin/bash", "bash", "/x.sh", true);
    assert_eq!(
        String::from_utf8(out).unwrap(),
        "#!/bin/bash\nBASH_ARGV0='/x.sh'\n"
    );
}

#[test]
fn a_shebang_line_and_nothing_more() {
    let out = prepare_bytes(b"#!/bin/bash\n", "bash", "/x.sh", true);
    assert_eq!(
        String::from_utf8(out).unwrap(),
        "#!/bin/bash\nBASH_ARGV0='/x.sh'; "
    );
    let out = prepare_bytes(b"", "bash", "/x.sh", true);
    assert_eq!(String::from_utf8(out).unwrap(), "BASH_ARGV0='/x.sh'; ");
}

#[test]
fn quoting() {
    assert_eq!(shell_squote(""), "''");
    assert_eq!(shell_squote("a b$c\"d\\"), "'a b$c\"d\\'");
    assert_eq!(shell_squote("''"), "''\\'''\\'''");
    assert_eq!(shell_squote("\u{e9}\n"), "'\u{e9}\n'");
}

#[test]
fn the_way_to_reset() {
    assert_eq!(argv0_fix("/usr/local/bin/bash"), Argv0Fix::BashArgv0);
    assert_eq!(argv0_fix("zsh"), Argv0Fix::ZshZero);
    for other in ["bash/", "bash5", "ksh", "sh", "", "/bin/bash/env"] {
        assert_eq!(argv0_fix(other), Argv0Fix::Unsupported);
    }
}

#[test]
fn lines_keep_their_numbers() {
    let src = "#!/bin/bash\none\ntwo\nthree";
    let out = prepare_bytes(src.as_bytes(), "bash", "/tmp/\u{e9} x.sh", true);
    let out = String::from_utf8(out).unwrap();
    let numbered: Vec<&str> = out.split('\n').collect();
    assert_eq!(numbered[0], "#!/bin/bash");
    assert!(numbered[1].ends_with("; one"));
    assert_eq!(&numbered[2..], &["two", "three"]);
}

#[test]
fn the_end_of_the_first_line() {
    assert_eq!(first_line_end(b""), 0);
    assert_eq!(first_line_end(b"abc"), 3);
    assert_eq!(first_line_end(b"ab\nc\n"), 2);
}

#[test]
fn quoted_text_reads_back() {
    for s in ["", "a b", "it's x", "/o brien/$x.sh", "`y`"] {
        assert_eq!(brush_parser::unquote_str(&shell_squote(s)), s);
    }
}
