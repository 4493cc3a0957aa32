use scriptbox::frontmatter::{comment_text, find_block, parse, parse_text, Frontmatter};

#[test]
fn parses_interpreter_and_checksum() {
    let src = b"#!/usr/bin/env scriptbox\n\
                # /// scriptbox\n\
                # interpreter = \"bash\"\n\
                # checksum = \"sha256:abc123\"\n\
                # ///\n\
                echo hi\n";
    let fm = parse(src);
    assert_eq!(fm.interpreter.as_deref(), Some("bash"));
    assert_eq!(fm.checksum.as_deref(), Some("sha256:abc123"));
}

#[test]
fn no_block_is_all_none() {
    assert_eq!(parse(b"#!/bin/bash\necho hi\n"), Frontmatter::default());
}

#[test]
fn stops_at_end_marker() {
    let src = b"# /// scriptbox\n# interpreter = \"zsh\"\n# ///\n# checksum = \"nope\"\n";
    let fm = parse(src);
    assert_eq!(fm.interpreter.as_deref(), Some("zsh"));
    assert_eq!(fm.checksum, None);
}

#[test]
fn every_field_is_read_and_the_last_setting_wins() {
    let fm = parse(
        b"# /// scriptbox\n#argv0 = off\n# argv0 = 'source'\n# subscripts=\"report\"\n# colour = red\nargv0 = x\n# ///\n",
    );
    assert_eq!(fm.argv0.as_deref(), Some("source"));
    assert_eq!(fm.subscripts.as_deref(), Some("report"));
    assert_eq!(fm.interpreter, None);
    assert_eq!(fm.checksum, None);
}

#[test]
fn values_lose_quotes_and_white_space_at_the_ends() {
    let fm = parse(b"   # /// scriptbox\r\n  #   interpreter   =   'my sh'  \r\n# ///\r\n");
    assert_eq!(fm.interpreter.as_deref(), Some("my sh"));
    let fm = parse(b"# /// scriptbox\n# interpreter = my sh\"'\n# checksum = \"x\n");
    assert_eq!(fm.interpreter.as_deref(), Some("my sh"));
    assert_eq!(fm.checksum.as_deref(), Some("x"));
    let fm = parse(b"# /// scriptbox\n# checksum = a = b\n");
    assert_eq!(fm.checksum.as_deref(), Some("a = b"));
    let fm = parse(b"# /// scriptbox\n# checksum =\n");
    assert_eq!(fm.checksum.as_deref(), Some(""));
}

#[test]
fn a_quoted_value_ends_at_its_closing_quote() {
    let fm = parse(
        b"#!/usr/bin/env scriptbox\n# /// scriptbox\n# interpreter = \"dash\"\n# argv0 = \"source\"       # real $0 on dash/ksh too (see Internal details)\n# checksum = \"sha256:1f0c...\"\n# ///\n",
    );
    assert_eq!(fm.interpreter.as_deref(), Some("dash"));
    assert_eq!(fm.argv0.as_deref(), Some("source"));
    assert_eq!(fm.checksum.as_deref(), Some("sha256:1f0c..."));
    assert_eq!(fm.subscripts, None);
    let value = |v: &str| {
        parse(format!("# /// scriptbox\n# interpreter = {v}\n# ///\n").as_bytes())
            .interpreter
            .unwrap()
    };
    assert_eq!(value("'a\"b'\t# c 'd'"), "a\"b");
    assert_eq!(value("\"\" # x"), "");
    assert_eq!(value("\"a # b\""), "a # b");
    assert_eq!(value("\"\"bash\"\""), "bash");
    assert_eq!(value("\"a\"b\""), "a\"b");
    assert_eq!(value("\"a\"# b"), "a\"# b");
    assert_eq!(value("\"a\" b"), "a\" b");
}

#[test]
fn bytes_that_are_no_text_do_not_hide_the_block() {
    let fm = parse(b"\xff\xfe\n# /// scriptbox\n# interpreter = \"\xff\"\n# ///\n");
    assert_eq!(fm.interpreter.as_deref(), Some("\u{fffd}"));
}

#[test]
fn comment_bodies() {
    let chars = |s: &str| s.chars().collect::<Vec<char>>();
    assert_eq!(comment_text(&chars("  #  x ")), Some(&chars("x")[..]));
    assert_eq!(comment_text(&chars("#")), Some(&chars("")[..]));
    assert_eq!(comment_text(&chars("x # y")), None);
}

#[test]
fn a_block_is_cut_out_where_its_lines_are() {
    let s: Vec<char> = "a\n# /// scriptbox\nb\n# ///\nc".chars().collect();
    let cuts = find_block(&s).unwrap();
    assert_eq!(s[..cuts.head].iter().collect::<String>(), "a\n");
    assert_eq!(
        s[cuts.body..cuts.body_end].iter().collect::<String>(),
        "b\n"
    );
    assert_eq!(s[cuts.tail..].iter().collect::<String>(), "c");
    assert!(cuts.closed);
    assert!(find_block(&s[..2]).is_none());
    let open = find_block(&s[..20]).unwrap();
    assert!(!open.closed);
    assert_eq!((open.head, open.body, open.body_end, open.tail), (2, 18, 20, 20));
    assert_eq!(parse_text(&s), Frontmatter::default());
}
