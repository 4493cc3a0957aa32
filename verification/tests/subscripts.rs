use scriptbox::rewrite::{apply_edits, plan_edits, rewrite_sites, wrap_prefix, Edit, Outcome};
use scriptbox::shell::{Invocation, ShellWord, Span};
use scriptbox::sites::{classify, find_sites, is_literal, parse_sites, Category, Site};
use scriptbox::subscripts::{
    analyse, child_scripts, child_sites, enabled, report_detection, report_outcomes, resolve,
    Analysis, Child,
};

fn chars(s: &str) -> Vec<char> {
    s.chars().collect()
}

fn word(value: &str, start: usize, line: usize) -> ShellWord {
    ShellWord {
        value: value.to_string(),
        span: Some(Span {
            start,
            end: start + value.chars().count(),
            line,
        }),
    }
}

fn call(name: &str, args: &[&str]) -> Invocation {
    let mut at = 5 + name.len() + 1;
    let mut list = vec![];
    for a in args {
        list.push(word(a, at, 3));
        at += a.len() + 1;
    }
    Invocation {
        name: Some(word(name, 5, 3)),
        args: list,
    }
}

fn kind(c: &Invocation) -> Option<(&'static str, Category, String, bool)> {
    classify(c).map(|s| (s.label, s.category, s.target, s.resolvable))
}

#[test]
fn dequotes_and_classifies() {
    let src = "#!/bin/bash\n\
               source \"./lib.sh\"\n\
               source \"$D/y\"\n\
               case $1 in a) source ./inner.sh ;; esac\n";
    let sites = parse_sites(src).unwrap();
    let srcs: Vec<_> = sites
        .iter()
        .filter(|s| s.category == Category::Source)
        .collect();
    assert_eq!(srcs.len(), 3, "case-branch source must be seen");
    assert_eq!(srcs[0].target, "./lib.sh");
    assert!(srcs[0].resolvable);
    assert!(!srcs[1].resolvable);
    assert!(srcs[2].resolvable && srcs[2].target == "./inner.sh");
}

#[test]
fn inclusions() {
    let site = classify(&call("source", &["'a b'", "x"])).unwrap();
    assert_eq!(
        site,
        Site {
            label: "source",
            category: Category::Source,
            line: 3,
            cmd_offset: 5,
            arg_span: Some((12, 17)),
            target: "a b".to_string(),
            resolvable: true,
        }
    );
    assert_eq!(
        kind(&call(".", &["`x`"])),
        Some(("source", Category::Source, "`x`".to_string(), false))
    );
    assert_eq!(kind(&call(".", &[])), None);
    assert_eq!(kind(&call("sourced", &["x"])), None);
}

#[test]
fn interpreters() {
    for (name, label) in [
        ("bash", "bash"),
        ("/bin/sh", "sh"),
        ("dash", "dash"),
        ("zsh", "zsh"),
        ("ksh", "ksh"),
        ("x/mksh", "ksh"),
    ] {
        assert_eq!(
            kind(&call(name, &["-x", "a.sh", "b"])),
            Some((label, Category::ShellChild, "a.sh".to_string(), true))
        );
    }
    for (name, label) in [
        ("perl", "perl"),
        ("ruby", "ruby"),
        ("node", "node"),
        ("php", "php"),
        ("lua", "lua"),
        ("/usr/bin/python3.12", "python"),
        ("python", "python"),
    ] {
        assert_eq!(
            kind(&call(name, &["$f"])),
            Some((label, Category::OtherChild, "$f".to_string(), false))
        );
    }
    assert_eq!(kind(&call("bash", &["-c", "a.sh"])), None);
    assert_eq!(kind(&call("bash", &["a.sh", "-c"])), None);
    assert_eq!(kind(&call("bash", &["-x"])), None);
    assert_eq!(kind(&call("bash", &[])), None);
    assert_eq!(kind(&call("fish", &["a.fish"])), None);
}

#[test]
fn programs_that_are_scripts() {
    for name in ["./a.sh", "../a.bash", "/a.zsh", "./x/a.ksh"] {
        let site = classify(&call(name, &["y"])).unwrap();
        assert_eq!(site.label, "exec");
        assert_eq!(site.category, Category::ShellChild);
        assert_eq!(site.target, name);
        assert_eq!(site.arg_span, None);
    }
    for name in ["./a.py", "../a.pl", "/a.rb", "./$x.js"] {
        assert_eq!(
            classify(&call(name, &[])).unwrap().category,
            Category::OtherChild
        );
    }
    assert_eq!(kind(&call("a.sh", &[])), None);
    assert_eq!(kind(&call("./a.exe", &[])), None);
    assert_eq!(
        kind(&Invocation {
            name: None,
            args: vec![]
        }),
        None
    );
}

#[test]
fn words_without_a_place() {
    let site = classify(&Invocation {
        name: Some(ShellWord {
            value: "bash".to_string(),
            span: None,
        }),
        args: vec![ShellWord {
            value: "\"a\\\\b\"".to_string(),
            span: None,
        }],
    })
    .unwrap();
    assert_eq!((site.line, site.cmd_offset, site.arg_span), (0, 0, None));
    assert_eq!(site.target, "a\\b");
}

#[test]
fn literals() {
    assert!(is_literal("a b'c"));
    assert!(!is_literal("a$b"));
    assert!(!is_literal("`a`"));
    assert!(!is_literal("~/lib.sh"));
    assert!(!is_literal("*.sh"));
    assert!(!is_literal("lib?.sh"));
    assert!(!is_literal("lib[12].sh"));
    assert!(!is_literal("{a,b}.sh"));
    assert!(is_literal("a~b"));
    assert!(is_literal(""));
    let resolvable = |src: &str| parse_sites(src).unwrap()[0].resolvable;
    assert!(!resolvable("source ~/lib.sh\n"));
    assert!(!resolvable("source ./lib*.sh\n"));
    assert!(!resolvable("./{a,b}.sh\n"));
    assert!(!resolvable("bash \"$x\"\n"));
    assert!(resolvable("./a{b.sh\n"));
    assert!(resolvable("./a[b.sh\n"));
    assert!(resolvable("source \"./lib[1].sh\"\n"));
    assert!(resolvable("source './~*?{a,b}.sh'\n"));
    assert!(resolvable("source \\~/lib\\*.sh\n"));
}

#[test]
fn every_nest_is_looked_into() {
    let src = "f() { bash a.sh; }\n\
               (bash b.sh)\n\
               for i in 1 2; do bash c.sh; done\n\
               for ((i=0; i<2; i++)); do bash d.sh; done\n\
               while bash e.sh; do bash f.sh; done\n\
               until bash g.sh; do bash h.sh; done\n\
               if bash i.sh; then bash j.sh; elif bash k.sh; then bash l.sh; else bash m.sh; fi\n\
               case x in y) bash n.sh;; z) ;; esac\n\
               bash o.sh | bash p.sh && bash q.sh || bash r.sh\n\
               [[ -f bash ]]\n\
               X=$(bash s.sh)\n";
    let sites = parse_sites(src).unwrap();
    let targets: String = sites.iter().map(|s| s.target.replace(".sh", "")).collect();
    assert_eq!(targets, "abcdefghijklmnopqrs");
    assert_eq!(sites[0].line, 1);
    assert_eq!(sites[17].line, 9);
    assert_eq!(sites[18].line, 11);
    assert!(sites[17].resolvable);
    assert!(!sites[18].resolvable);
}

#[test]
fn a_call_in_a_substitution_is_reported() {
    let sites = parse_sites("ls\nx=$(bash ./child.sh)\n").unwrap();
    assert_eq!(
        sites,
        vec![Site {
            label: "bash",
            category: Category::ShellChild,
            line: 2,
            cmd_offset: 3,
            arg_span: None,
            target: "./child.sh".to_string(),
            resolvable: false,
        }]
    );
}

#[test]
fn substitutions_are_found_wherever_they_are_expanded() {
    let found = |src: &str| {
        let sites = parse_sites(src).unwrap();
        assert!(sites.iter().all(|s| !s.resolvable && s.arg_span.is_none()), "{src}");
        sites.into_iter().map(|s| s.target).collect::<Vec<_>>()
    };
    assert_eq!(found("echo \"$(bash a)\" $(. b)"), ["a", "b"]);
    assert_eq!(found("echo `bash a` \"`sh \\`bash b\\``\""), ["a", "`bash b`", "b"]);
    assert_eq!(found("echo $(echo \"$(bash a)\")"), ["a"]);
    assert_eq!(found("f() { local y=$(source a; bash b); }"), ["a", "b"]);
    assert_eq!(found("echo ${x:-$(bash a)} ${#x}"), ["a"]);
    assert_eq!(found("echo $(( $(bash a) + 1 )) $(( (2 + $(bash b)) * 3 ))"), ["a", "b"]);
    assert_eq!(found("a=(1 $(bash a) 2); [[ $(bash b) == 1 ]]"), ["a", "b"]);
    assert_eq!(found("for i in $(bash a); do :; done >$(bash b)"), ["a", "b"]);
    assert_eq!(found("x=$(case a in (a) bash y.sh;; esac)"), ["y.sh"]);
    assert_eq!(found("x=$(echo ')' '('; bash a \\) )"), ["a"]);
    assert_eq!(found("cat <<E\nit's $(bash a)\nE\ncat <<'E'\n$(bash no)\nE\n"), ["a"]);
    assert_eq!(found("cat <<E\n\"a'\\$(bash no)`bash a`\nE\n"), ["a"]);
    assert_eq!(found("x=$(cat <<E\nx\nE\nbash a\n)\n"), ["a"]);
    assert_eq!(found("echo '$(bash no)' \\$x $'it\\'s $(bash no)' # $(bash no)").len(), 0);
    assert_eq!(found("echo \"\\$(bash no)\" \"'$(bash a)'\""), ["a"]);
    assert_eq!(found("echo \"\\\\$(bash a)\" \\\\$(bash b)"), ["a", "b"]);
}

#[test]
fn substitutions_come_in_their_places_and_are_left_alone() {
    let src = "x=$(bash a.sh; bash d.sh)\nbash b.sh\nsource \"$(bash c.sh)\"\n\
               cat <<E; bash f.sh\n$(bash g.sh)\nE\nbash h.sh\n";
    let sites = parse_sites(src).unwrap();
    let targets: Vec<&str> = sites.iter().map(|s| s.target.as_str()).collect();
    assert_eq!(
        targets,
        ["a.sh", "d.sh", "b.sh", "$(bash c.sh)", "c.sh", "f.sh", "g.sh", "h.sh"]
    );
    let lines: Vec<usize> = sites.iter().map(|s| s.line).collect();
    assert_eq!(lines, [1, 1, 2, 3, 3, 4, 5, 7]);
    let answers = vec![None; 8];
    let (out, outcomes) = rewrite_sites(&chars(src), &sites, &answers, "BOX ");
    assert_eq!(
        out.iter().collect::<String>(),
        "x=$(bash a.sh; bash d.sh)\nBOX bash b.sh\nsource \"$(bash c.sh)\"\n\
         cat <<E; BOX bash f.sh\n$(bash g.sh)\nE\nBOX bash h.sh\n"
    );
    assert_eq!(outcomes[0], Outcome::Dynamic);
    assert_eq!(outcomes[2], Outcome::Wrapped);
    assert_eq!(outcomes[6], Outcome::Dynamic);
}

#[test]
fn a_program_that_does_not_parse() {
    assert!(parse_sites("if then").is_err());
    assert!(parse_sites("echo 'open").is_err());
}

#[test]
fn numbers_that_are_no_descriptors() {
    let sites = parse_sites("echo 99999999999>x\nbash a.sh\n").unwrap();
    assert_eq!(sites.len(), 1);
    let sites = parse_sites("((99999999999>2)); bash a.sh 2>y\n").unwrap();
    assert_eq!(sites.len(), 1);
}

#[test]
fn indices_that_are_too_large() {
    let sites = parse_sites("a[${b:-~99999999999999999999999}]=1\nbash a.sh\n").unwrap();
    assert_eq!(sites.len(), 1);
    assert_eq!(sites[0].target, "a.sh");
    assert!(parse_sites("a[${b:-~9}]=1\n").is_ok());
}

#[test]
fn sites_keep_the_order_of_commands() {
    let cmds = vec![call("bash", &["a"]), call("ls", &["b"]), call(".", &["c"])];
    let sites = find_sites(&cmds);
    assert_eq!(sites.len(), 2);
    assert_eq!(sites[0].target, "a");
    assert_eq!(sites[1].target, "c");
}

#[test]
fn edits_are_made_from_the_end() {
    let text = chars("0123456789");
    let edit = |start, end, text: &str| Edit {
        start,
        end,
        text: text.to_string(),
    };
    let out = apply_edits(
        &text,
        &vec![edit(2, 4, "AB-"), edit(8, 8, "!"), edit(5, 6, "")],
    );
    assert_eq!(out.iter().collect::<String>(), "01AB-467!89");
    let out = apply_edits(&text, &vec![edit(9, 11, "x"), edit(4, 3, "y")]);
    assert_eq!(out, text);
}

#[test]
fn children_are_wrapped_and_inclusions_replaced() {
    let src = "echo \u{e9}\u{20ac}; bash a.sh\nsource './b.sh' 1\npython c.py\nsource $d\nsource e\n";
    let sites = parse_sites(src).unwrap();
    let answers = vec![
        None,
        Some("/dev/fd/7".to_string()),
        None,
        None,
        None,
    ];
    let (out, outcomes) = rewrite_sites(&chars(src), &sites, &answers, "BOX ");
    assert_eq!(
        out.iter().collect::<String>(),
        "echo \u{e9}\u{20ac}; BOX bash a.sh\nsource /dev/fd/7 1\npython c.py\nsource $d\nsource e\n"
    );
    assert_eq!(
        outcomes,
        vec![
            Outcome::Wrapped,
            Outcome::Frozen,
            Outcome::Immune,
            Outcome::Dynamic,
            Outcome::Unresolved
        ]
    );
}

#[test]
fn a_site_outside_the_text_is_not_said_to_be_edited() {
    let sites = find_sites(&vec![call("bash", &["a"]), call("source", &["b"])]);
    let answers = vec![None, Some("/dev/fd/7".to_string())];
    let (edits, outcomes) = plan_edits(&sites, &answers, "P", 4);
    assert!(edits.is_empty());
    assert_eq!(outcomes, vec![Outcome::Left, Outcome::Unresolved]);
    assert_eq!(Outcome::Left.text(), "left");
    assert_eq!(Outcome::Dynamic.text(), "left - dynamic");
    assert_eq!(Outcome::Immune.text(), "left - immune");
}

#[test]
fn the_command_to_wrap_with() {
    assert_eq!(
        wrap_prefix("/o'x/scriptbox"),
        "'/o'\\''x/scriptbox' --subscripts=freeze "
    );
}

#[test]
fn names_resolve_only_where_places_agree() {
    let a = || Some(b"/a".to_vec());
    let b = || Some(b"/b".to_vec());
    assert_eq!(resolve("/x", a(), None, b()), a());
    assert_eq!(resolve("/x", None, a(), a()), None);
    assert_eq!(resolve("x", b(), a(), None), a());
    assert_eq!(resolve("x", b(), None, a()), a());
    assert_eq!(resolve("./x", None, a(), a()), a());
    assert_eq!(resolve("x", None, a(), b()), None);
    assert_eq!(resolve("x", a(), None, None), None);
    assert_eq!(resolve("", a(), None, None), None);
}

#[test]
fn children_in_the_order_of_their_sites() {
    let src = b"source ./a\nbash $x\npython p.py\n./gone.sh\n";
    let sites = child_sites(src);
    assert_eq!(sites.len(), 4);
    let found = vec![
        Some(b"/d/a".to_vec()),
        Some(b"/never".to_vec()),
        Some(b"/never".to_vec()),
        None,
    ];
    assert_eq!(
        child_scripts(&sites, &found),
        vec![
            Child::Resolved(b"/d/a".to_vec()),
            Child::Note("line 2: bash $x - dynamic / unresolvable path".to_string()),
            Child::Note("line 3: python p.py - immune interpreter".to_string()),
            Child::Note("line 4: exec ./gone.sh - dynamic / unresolvable path".to_string()),
        ]
    );
    assert!(child_sites(b"\xff").is_empty());
    assert!(child_sites(b"if then").is_empty());
    assert!(enabled());
}

#[test]
fn what_scripts_are_found_to_be() {
    assert_eq!(analyse(b"\xff"), Analysis::NotText);
    assert!(matches!(analyse(b"if then"), Analysis::Unparsable(_)));
    assert_eq!(analyse(b"ls\n"), Analysis::Found(chars("ls\n"), vec![]));
}

#[test]
fn reports() {
    let sites = parse_sites("source ./a\nbash $x\n").unwrap();
    assert_eq!(
        report_detection(b"/s.sh", &sites),
        "scriptbox: subscripts in /s.sh (detection only):\n  \
         [source] line 1    ./a  (resolvable)\n  \
         [bash  ] line 2    $x  (dynamic)"
    );
    assert_eq!(
        report_outcomes(
            b"/\xff.sh",
            &sites,
            &vec![Outcome::Frozen, Outcome::Unresolved]
        ),
        "scriptbox: subscripts in /\u{fffd}.sh (wrapping):\n  \
         [source] line 1    ./a  (frozen)\n  \
         [bash  ] line 2    $x  (left - unresolved/ambiguous)"
    );
}

#[test]
fn rewriting_keeps_lines_on_their_numbers() {
    let src = "a\nbash x.sh\nb\nsource y\nc\n";
    let sites = parse_sites(src).unwrap();
    let answers = vec![None, Some("/proc/self/fd/12".to_string())];
    let (out, _) = rewrite_sites(&chars(src), &sites, &answers, "'/b' --subscripts=freeze ");
    let out: String = out.iter().collect();
    let lines: Vec<&str> = out.lines().collect();
    assert_eq!(lines.len(), 5);
    assert_eq!((lines[0], lines[2], lines[4]), ("a", "b", "c"));
}
