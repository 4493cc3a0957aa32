use scriptbox::cli::{
    dispatch_run, is_program_binary, no_path_message, parse_command, parse_flags, script_arg,
    CliError, Flags, Probe, Request,
};
use scriptbox::config::{Argv0, Subscripts, Switch};
use scriptbox::rewrite::wrap_prefix;

fn words(s: &[&str]) -> Vec<String> {
    s.iter().map(|w| w.to_string()).collect()
}

fn absent() -> Probe {
    Probe {
        is_file: false,
        start: vec![],
    }
}

fn file(start: &[u8]) -> Probe {
    Probe {
        is_file: true,
        start: start.to_vec(),
    }
}

#[test]
fn commands() {
    assert_eq!(parse_command(&words(&[])), Err(CliError::Empty));
    for w in ["--version", "-V"] {
        assert_eq!(parse_command(&words(&[w, "x"])), Ok(Request::Version));
    }
    for w in ["--help", "-h"] {
        assert_eq!(parse_command(&words(&[w])), Ok(Request::Help));
    }
    assert_eq!(
        parse_command(&words(&["hash", "a", "b"])),
        Ok(Request::Hash("a".to_string()))
    );
    assert_eq!(
        parse_command(&words(&["pin", "a"])),
        Ok(Request::Pin("a".to_string()))
    );
    assert_eq!(
        parse_command(&words(&["hash"])),
        Err(CliError::NoPath("hash"))
    );
    assert_eq!(parse_command(&words(&["pin"])), Err(CliError::NoPath("pin")));
    assert_eq!(parse_command(&words(&["gc"])), Ok(Request::Gc));
    assert_eq!(parse_command(&words(&["bash", "x"])), Ok(Request::Run));
    assert_eq!(
        script_arg(&words(&["pin", "p q"]), "pin"),
        Ok("p q".to_string())
    );
    assert_eq!(
        no_path_message("pin"),
        "`pin` needs a script path: `scriptbox pin <script>`"
    );
}

#[test]
fn flags_are_read_up_to_the_first_other_word() {
    let flags = |w: &[&str]| parse_flags(&words(w)).unwrap();
    assert_eq!(
        flags(&[]),
        Flags {
            argv0: None,
            subscripts: None,
            words: 0
        }
    );
    assert_eq!(
        flags(&["--argv0", "Source", "--subscripts", "bash", "--argv0-rewrite"]),
        Flags {
            argv0: Some(Argv0::Source),
            subscripts: Some(Subscripts::Freeze),
            words: 3
        }
    );
    assert_eq!(flags(&["--no-argv0-rewrite"]).argv0, Some(Argv0::Off));
    let later = flags(&["--no-argv0-rewrite", "--argv0-rewrite", "--subscripts=report"]);
    assert_eq!(later.argv0, Some(Argv0::Rewrite));
    assert_eq!(later.subscripts, Some(Subscripts::Report));
    assert_eq!(later.words, 3);
    assert_eq!(flags(&["--other", "--subscripts"]).words, 0);
}

#[test]
fn flags_without_a_mode_are_refused() {
    assert_eq!(parse_flags(&words(&["--argv0"])), Err(CliError::NoMode));
    match parse_flags(&words(&["--subscripts=Wat"])) {
        Err(CliError::Mode(e)) => {
            assert_eq!(e.switch, Switch::Subscripts);
            assert_eq!(e.mode, "wat");
        }
        other => panic!("{other:?}"),
    }
    match parse_flags(&words(&["--subscripts", "--argv0", "x.sh"])) {
        Err(CliError::Mode(e)) => {
            assert_eq!(e.switch, Switch::Argv0);
            assert_eq!(e.mode, "x.sh");
        }
        other => panic!("{other:?}"),
    }
}

#[test]
fn compiled_programs_are_known_by_their_start() {
    assert!(is_program_binary(b"\x7fELF\x02"));
    for magic in [
        [0xfe, 0xed, 0xfa, 0xce],
        [0xfe, 0xed, 0xfa, 0xcf],
        [0xce, 0xfa, 0xed, 0xfe],
        [0xcf, 0xfa, 0xed, 0xfe],
        [0xca, 0xfe, 0xba, 0xbe],
        [0xbe, 0xba, 0xfe, 0xca],
    ] {
        assert!(is_program_binary(&magic));
    }
    assert!(!is_program_binary(b"#!/bin/sh\n"));
    assert!(!is_program_binary(b"\x7fEL"));
    assert!(!is_program_binary(b""));
}

#[test]
fn the_script_is_the_first_file_that_is_no_program() {
    let args = words(&["--subscripts", "/bin/bash", "-x", "job.sh", "other.sh", "c"]);
    let flags = parse_flags(&args).unwrap();
    let probes = vec![
        absent(),
        file(b"\x7fELF"),
        absent(),
        file(b"echo"),
        file(b""),
        absent(),
    ];
    let spec = dispatch_run(&args, &flags, &probes).unwrap();
    assert_eq!(spec.interp_override, words(&["/bin/bash", "-x"]));
    assert_eq!(spec.script, "job.sh");
    assert_eq!(spec.script_args, words(&["other.sh", "c"]));
    assert_eq!(spec.argv0, None);
    assert_eq!(spec.subscripts, Some(Subscripts::Freeze));
}

#[test]
fn without_a_script_the_words_are_reported() {
    let args = words(&["--argv0-rewrite", "bash", "nothing"]);
    let flags = parse_flags(&args).unwrap();
    let probes = vec![file(b"x"), file(b"\x7fELF"), absent()];
    assert_eq!(
        dispatch_run(&args, &flags, &probes),
        Err(CliError::NoScript(words(&["bash", "nothing"])))
    );
}

#[test]
fn the_words_that_wrap_a_child_ask_for_freezing() {
    let prefix = wrap_prefix("/opt/scriptbox");
    let line = format!("{prefix}bash child.sh");
    let args = words(&line.split(' ').skip(1).collect::<Vec<&str>>());
    let flags = parse_flags(&args).unwrap();
    assert_eq!(flags.subscripts, Some(Subscripts::Freeze));
    assert_eq!(args[flags.words..], words(&["bash", "child.sh"]));
}

#[test]
fn no_word_of_a_request_is_lost() {
    let args = words(&["--argv0", "off", "zsh", "-f", "s", "x", "--subscripts"]);
    let flags = parse_flags(&args).unwrap();
    let probes = args
        .iter()
        .map(|a| if a == "s" { file(b"echo hi") } else { absent() })
        .collect();
    let spec = dispatch_run(&args, &flags, &probes).unwrap();
    let mut all = args[..flags.words].to_vec();
    all.extend(spec.interp_override);
    all.push(spec.script);
    all.extend(spec.script_args);
    assert_eq!(all, args);
    assert_eq!(spec.argv0, Some(Argv0::Off));
    assert_eq!(spec.subscripts, None);
}
