use std::sync::Arc;

use brush_parser::{SourcePosition, SourceSpan, Token};
use scriptbox::parser::{
    can_hold_here_document, cut_down_numbers, ease_out, has_big_index, keep_message, keep_own,
    parse_program, parse_tokens, script_of,
};

fn span(start: usize, end: usize) -> SourceSpan {
    let at = |index| {
        Arc::new(SourcePosition {
            index,
            line: 1,
            column: index + 1,
        })
    };
    SourceSpan {
        start: at(start),
        end: at(end),
    }
}

fn word(s: &str, start: usize) -> Token {
    Token::Word(s.to_string(), span(start, start + s.len()))
}

fn operator(s: &str, start: usize) -> Token {
    Token::Operator(s.to_string(), span(start, start + s.len()))
}

#[test]
fn only_numbers_before_a_redirection_are_cut_down() {
    let mut tokens = vec![
        word("99999999999", 0),
        operator(">", 11),
        word("2147483647", 13),
        operator("<", 23),
        word("2147483648", 25),
        operator("<<", 36),
        word("99999999999", 40),
        operator(";", 51),
        word("2147483648", 53),
    ];
    cut_down_numbers(&mut tokens);
    let texts: Vec<String> = tokens
        .iter()
        .map(|t| match t {
            Token::Word(s, _) | Token::Operator(s, _) => s.clone(),
        })
        .collect();
    assert_eq!(
        texts,
        vec![
            "2147483647",
            ">",
            "2147483647",
            "<",
            "2147483648",
            "<<",
            "99999999999",
            ";",
            "2147483648"
        ]
    );
    match &tokens[0] {
        Token::Word(_, l) => assert_eq!((l.start.index, l.end.index), (0, 11)),
        other => panic!("{other:?}"),
    }
}

#[test]
fn large_indices_are_seen_after_a_tilde() {
    let big = |s: &str| has_big_index(&s.chars().collect::<Vec<char>>());
    assert!(big("a[${b:-~99999999999999999999999}]"));
    assert!(big("a[${b:-~+18446744073709551616"));
    assert!(big("_a9[${b:-~-18446744073709551616/x}"));
    assert!(!big("a[${b:-~18446744073709551615}]"));
    assert!(!big("a[${b:-~18446744073709551616x}]"));
    assert!(!big("a[${b:-18446744073709551616}]"));
    assert!(!big("a[~18446744073709551616]"));
    assert!(!big("\"[~99999999999999999999]\""));
    assert!(!big("9a[${b:-~99999999999999999999999}]"));
    assert!(!big("[${b:-~99999999999999999999999}]"));
    assert!(!big("a${b:-~99999999999999999999999}["));
    assert!(!big("a[1]=${b:-~99999999999999999999999}"));
    assert!(!big("a[$i]={~99999999999999999999999}"));
    assert!(big("a[$i${b:-~99999999999999999999999}]"));
    assert!(big("a['1'${b:-~99999999999999999999999}]"));
    assert!(big("a[b[1]${b:-~99999999999999999999999}]"));
    assert!(big("a[b['x']${b:-~99999999999999999999999}]"));
    assert!(big("a[(])${b:-~99999999999999999999999}]"));
    assert!(big("a[\"'${b:-~99999999999999999999999}'\"]"));
    assert!(!big("a['${b:-~99999999999999999999999}']"));
    assert!(!big("a[1'${b:-~99999999999999999999999}'2]=${b:-~99999999999999999999999}"));
    assert!(!big("a[~"));
    assert!(!big("a["));
    assert!(!big(""));
    assert!(parse_program("echo \"[~99999999999999999999]\"\n").is_ok());
    assert!(parse_program("a[~99999999999999999999]=1\n").is_ok());
    assert!(parse_program("a[1]=${b:-~99999999999999999999}\n").is_ok());
    assert!(parse_program("a[$i-1]=${b:-~99999999999999999999}\n").is_ok());
    assert!(parse_program("a['${b:-~99999999999999999999}']=1\n").is_ok());
    assert!(parse_program("case a[${b:-~99999999999999999999}] in x) ;; esac\n").is_ok());
    assert!(parse_program("cat <<E\na[${b:-~99999999999999999999}]\nE\n").is_ok());
}

#[test]
fn words_with_a_large_index_lose_their_tildes() {
    let mut tokens = vec![
        word("a[${b:-~99999999999999999999}]=~", 0),
        word("~99999999999999999999", 40),
        operator("~", 70),
    ];
    cut_down_numbers(&mut tokens);
    let texts: Vec<&str> = tokens.iter().map(|t| t.to_str()).collect();
    assert_eq!(
        texts,
        ["a[${b:-_99999999999999999999}]=_", "~99999999999999999999", "~"]
    );
}

#[test]
fn tokens_make_commands() {
    let cmds = parse_tokens(vec![word("bash", 0), word("a.sh", 5)]).unwrap();
    assert_eq!(cmds.len(), 1);
    let name = cmds[0].name.as_ref().unwrap();
    assert_eq!(name.value, "bash");
    assert_eq!(cmds[0].args.len(), 1);
    assert_eq!(cmds[0].args[0].value, "a.sh");
    assert!(parse_tokens(vec![operator(")", 0)]).is_err());
}

#[test]
fn places_count_characters_and_lines() {
    let cmds = parse_program("x=\u{20ac}\necho \u{e9}; ls 'a b' >out\n").unwrap().commands;
    let ls = cmds.last().unwrap();
    let name = ls.name.as_ref().unwrap().span.unwrap();
    assert_eq!((name.start, name.end, name.line), (12, 14, 2));
    assert_eq!(ls.args.len(), 1);
    let arg = ls.args[0].span.unwrap();
    assert_eq!((arg.start, arg.end), (15, 20));
    assert_eq!(ls.args[0].value, "'a b'");
    assert!(parse_program("echo \"").is_err());
}

/// Numbers that look random, the same ones each time.
struct Numbers(u64);

impl Numbers {
    fn next(&mut self, n: usize) -> usize {
        self.0 ^= self.0 << 13;
        self.0 ^= self.0 >> 7;
        self.0 ^= self.0 << 17;
        (self.0 % n as u64) as usize
    }
}

fn parse_many(pieces: &[&str], rounds: usize, seed: u64) -> usize {
    let mut numbers = Numbers(seed);
    let mut parsed = 0;
    for _ in 0..rounds {
        let mut src = String::new();
        for _ in 0..numbers.next(24) {
            src.push_str(pieces[numbers.next(pieces.len())]);
            if numbers.next(3) == 0 {
                src.push(' ');
            }
        }
        if parse_program(&src).is_ok() {
            parsed += 1;
        }
    }
    parsed
}

#[test]
fn no_text_makes_the_parser_panic() {
    let pieces = [
        "a", "1", "99999999999", "<", ">", "<<", "<<-", "&", "|", ";", ";;", "(", ")", "((", "))",
        "{", "}", "[", "]", "[[", "]]", "$", "${", "$(", "$((", "`", "'", "\"", "\\", "\n", " ",
        "\t", "~", "+", "-", "=", "#", "!", "*", "?", "@", ":", "/", "EOF", "if", "then", "fi",
        "for", "in", "do", "done", "case", "esac", "while", "function", "coproc", "select",
        "\u{e9}", "~99999999999999999999999", "a[", "a=(", "$'", "$\"", "<(", ">(", "&>", "time",
    ];
    assert!(parse_many(&pieces, 6_000, 0x9e37_79b9_7f4a_7c15) > 0);
}

#[test]
fn no_here_document_makes_the_parser_panic() {
    let pieces = [
        "<<", "<<-", "<<''", "<<E", "E", "$(", "${", "$[", ")", "}", "]", "\n", "\n", " ", "x",
        "''", "\\", "\"", "#", "\t", "(", "\r", "((", "<<'\n\n'", "<<\"\n\n\n\"", "'\n", "y}",
    ];
    assert!(parse_many(&pieces, 10_000, 0x1234_5678_9abc_def1) > 0);
}

#[test]
fn here_documents_that_the_text_breaks_off() {
    for src in [
        "cat <<'' ",
        "cat <<'' \\\n",
        "<<-$( ; #x",
        "$( $(cat <<E x)\nE",
        "cat <<E x",
        "cat <<",
        "$(cat <<E)\nE\n",
        "echo $(foo ${x <<'\n\n\n\n\n\n' y}\n",
    ] {
        let _ = parse_program(src);
    }
    let cmds = parse_program("cat <<E\nbash no.sh\nE\nbash a.sh").unwrap().commands;
    assert_eq!(cmds.len(), 2);
    assert_eq!(cmds[1].args[0].value, "a.sh");
}

#[test]
fn texts_are_eased_out() {
    assert!(!can_hold_here_document("a < b)\n"));
    assert!(!can_hold_here_document("< <"));
    assert!(!can_hold_here_document("<"));
    assert!(!can_hold_here_document(""));
    assert!(can_hold_here_document("a <<b)"));
    assert!(can_hold_here_document("<<"));
    assert_eq!(ease_out("<<b)"), "<<b)\n\n\n\n\n\n\n\n\n\n\n");
    assert_eq!(ease_out(""), "\n\n\n");
}

#[test]
fn only_the_tokens_of_the_text_are_kept() {
    let tokens = || {
        vec![
            word("a", 0),
            operator("\n", 1),
            word("b", 2),
            operator("\n", 3),
            operator("\n", 4),
        ]
    };
    assert_eq!(keep_own(tokens(), "a\nb").unwrap().len(), 3);
    assert_eq!(keep_own(tokens(), "a\nb\n").unwrap().len(), 4);
    assert_eq!(keep_own(tokens(), "a\n\\").unwrap().len(), 3);
    assert_eq!(
        keep_own(tokens(), "a").unwrap_err(),
        "unterminated here document sequence; tag(s) [] found at: []"
    );
    assert_eq!(
        keep_own(tokens(), "ab\nab\\").unwrap_err(),
        "unterminated escape sequence"
    );
}

#[test]
fn places_are_kept_in_the_text() {
    let kept = keep_own(vec![word("a", 0), word("b", 2), word("", 3)], "a\n").unwrap();
    let at = |p: &SourcePosition| (p.index, p.line, p.column);
    match &kept[1] {
        Token::Word(s, l) => {
            assert_eq!(s, "b");
            assert_eq!(at(&l.start), (2, 1, 3));
            assert_eq!(at(&l.end), (2, 2, 1));
        }
        other => panic!("{other:?}"),
    }
    match &kept[2] {
        Token::Word(_, l) => assert_eq!(at(&l.start), (2, 2, 1)),
        other => panic!("{other:?}"),
    }
    let keep = |e: &str, s: &str| keep_message(e.to_string(), s);
    assert_eq!(
        keep("unterminated extglob near 9,1", "a\n<<b"),
        "unterminated extglob near 2,4"
    );
    let open = "unterminated here document sequence; tag(s) [E] found at: [2,1]";
    assert_eq!(keep(open, "<<E\\"), "unterminated escape sequence");
    assert_eq!(keep(open, "<<E"), open);
    assert_eq!(keep("missing here tag 'x'", "<<\\"), "missing here tag 'x'");
}

#[test]
fn a_text_with_here_documents_ends_where_it_ends() {
    let count = |src: &str| parse_program(src).map(|p| (p.commands.len(), p.words.len()));
    assert_eq!(count("cat <<E\nE"), Ok((1, 3)));
    assert_eq!(count("cat <<E\nx\nE\necho a\\\\"), Ok((2, 5)));
    assert_eq!(count("cat <<E\nx\nE\necho a # \\"), Ok((2, 5)));
    assert_eq!(count("cat <<''\nfoo\n"), Ok((1, 3)));
    assert_eq!(count("cat <<A <<''\nA"), Ok((1, 5)));
    assert_eq!(count("cat <<'' <<''\n"), Ok((1, 5)));
    assert_eq!(
        count("cat <<'' x"),
        Err("unterminated here document sequence; tag(s) [''] found at: [1,9]".to_string())
    );
    assert_eq!(
        count("cat <<A <<'' <<'\n'\nA"),
        Err("unterminated here document sequence; tag(s) ['\n'] found at: [2,2]".to_string())
    );
    assert_eq!(
        count("cat <<E\nE\necho \\"),
        Err("unterminated escape sequence".to_string())
    );
    assert_eq!(
        count("cat <<E\nE\necho a\\"),
        Err("unterminated escape sequence".to_string())
    );
    assert_eq!(
        count("cat <<E\\"),
        Err("unterminated escape sequence".to_string())
    );
    assert_eq!(
        count("cat <<''\\"),
        Err("unterminated escape sequence".to_string())
    );
    assert_eq!(
        count("cat <<''\nfoo"),
        Err("unterminated here document sequence; tag(s) [''] found at: [1,9]".to_string())
    );
    assert_eq!(
        count("cat <<'' <<-\"\"\nfoo\\"),
        Err(
            "unterminated here document sequence; tag(s) ['', \"\"] found at: [1,9, 1,15]"
                .to_string()
        )
    );
    assert_eq!(
        count("cat <<E\nE\necho *(a"),
        Err("unterminated extglob near 3,9".to_string())
    );
    let unclosed = count("cat <<E\nfoo\n").unwrap_err();
    assert!(unclosed.starts_with("unterminated here document sequence"));
    let last = parse_program("cat <<E\nE\nfi\n").unwrap_err();
    assert_eq!(last, parse_program("\n\nfi\n").unwrap_err());
}

#[test]
fn words_and_here_documents_are_told_apart() {
    let script = parse_program("a=$(b) cat <<E <<'F' x\n$(c)\nE\n$(d)\nF\n").unwrap();
    let texts = |v: &Vec<scriptbox::shell::ShellWord>| {
        v.iter().map(|w| w.value.clone()).collect::<Vec<_>>()
    };
    assert_eq!(texts(&script.words), ["a=$(b)", "cat", "E", "E", "'F'", "F", "x"]);
    assert_eq!(texts(&script.bodies), ["$(c)\n"]);
    let span = script.words[1].span.unwrap();
    assert_eq!((span.start, span.end, span.line), (7, 10, 1));
    let script = script_of(vec![
        word("x", 0),
        operator("<<-", 1),
        word("E", 4),
        word("y", 5),
        word("E", 6),
    ])
    .unwrap();
    assert_eq!(texts(&script.words), ["x", "E", "E"]);
    assert_eq!(texts(&script.bodies), ["y"]);
    assert_eq!(script.commands.len(), 1);
    assert!(script_of(vec![operator(")", 0)]).is_err());
}
