use scriptbox::checksum::pin_of;
use scriptbox::config::{Argv0, Subscripts, Switch};
use scriptbox::frontmatter::Frontmatter;
use scriptbox::run::{
    build_argv, decide, plan, resolve_argv0, resolve_interpreter, resolve_subscripts, serve,
    Decision, RunError, RunSpec,
};

fn spec(interp_override: &[&str], bytes_interp: Option<&str>) -> (RunSpec, Frontmatter) {
    (
        RunSpec {
            interp_override: interp_override.iter().map(|s| s.to_string()).collect(),
            script: "x.sh".to_string(),
            script_args: vec![],
            argv0: None,
            subscripts: None,
        },
        Frontmatter {
            interpreter: bytes_interp.map(String::from),
            ..Default::default()
        },
    )
}

#[test]
fn argv_override_wins_over_frontmatter_and_shebang() {
    let (s, fm) = spec(&["bash", "-x"], Some("zsh"));
    let (i, a) = resolve_interpreter(&s, &fm, b"#!/bin/dash\n");
    assert_eq!(i, "bash");
    assert_eq!(a, vec!["-x"]);
}

#[test]
fn frontmatter_wins_over_shebang() {
    let (s, fm) = spec(&[], Some("zsh"));
    let (i, _) = resolve_interpreter(&s, &fm, b"#!/bin/dash\n");
    assert_eq!(i, "zsh");
}

#[test]
fn falls_back_to_script_shebang_then_sh() {
    let (s, fm) = spec(&[], None);
    assert_eq!(resolve_interpreter(&s, &fm, b"#!/bin/ksh\n").0, "/bin/ksh");
    assert_eq!(resolve_interpreter(&s, &fm, b"echo hi\n").0, "/bin/sh");
}

fn run_spec(interp: &[&str], argv0: Option<Argv0>) -> RunSpec {
    RunSpec {
        interp_override: interp.iter().map(|s| s.to_string()).collect(),
        script: "/tmp/x.sh".to_string(),
        script_args: vec!["A".into(), "B".into()],
        argv0,
        subscripts: None,
    }
}

#[test]
fn plan_builds_argv_and_freezes_the_bytes() {
    let script = b"#!/bin/bash\necho hi\n";
    let s = run_spec(&["bash"], Some(Argv0::Off));
    let d = plan(&s, script).unwrap();
    assert_eq!(d.interp, "bash");
    let argv = build_argv(&d, "/dev/fd/9", "/tmp/x.sh", &s.script_args);
    assert_eq!(argv, vec!["/dev/fd/9", "A", "B"]);
    assert_eq!(serve(&d, script, "/tmp/x.sh"), script);
}

#[test]
fn plan_refuses_on_checksum_mismatch() {
    let script = b"#!/bin/bash\n# /// scriptbox\n# checksum = \"sha256:deadbeef\"\n# ///\necho hi\n";
    let err = plan(&run_spec(&["bash"], Some(Argv0::Off)), script).unwrap_err();
    assert!(err.message().contains("checksum mismatch"));
    assert_eq!(
        err.message(),
        format!(
            "checksum mismatch for `/tmp/x.sh`\n  expected: sha256:deadbeef\n  actual:   {}\n\
             the script on disk does not match its pinned checksum; refusing to run.\n\
             if this change is intended, update the pin with `scriptbox pin /tmp/x.sh`.",
            pin_of(script)
        )
    );
}

#[test]
fn plan_runs_when_the_pin_matches() {
    let template = "#!/bin/bash\n# /// scriptbox\n# checksum = \"PLACEHOLDER\"\n# ///\necho hi\n";
    let pin = pin_of(template.as_bytes());
    let pinned = template.replace("PLACEHOLDER", &pin);
    assert!(plan(&run_spec(&["bash"], Some(Argv0::Off)), pinned.as_bytes()).is_ok());
    let drifted = format!("{pinned}echo tampered\n");
    assert!(plan(&run_spec(&["bash"], Some(Argv0::Off)), drifted.as_bytes()).is_err());
}

#[test]
fn plan_resolves_interpreter_from_frontmatter_without_argv() {
    let script =
        b"#!/usr/bin/env scriptbox\n# /// scriptbox\n# interpreter = \"zsh\"\n# ///\necho hi\n";
    let d = plan(&run_spec(&[], Some(Argv0::Off)), script).unwrap();
    assert_eq!(d.interp, "zsh");
    assert!(d.interp_args.is_empty());
}

#[test]
fn plan_source_mode_builds_a_dot_source_invocation() {
    let script = b"#!/usr/bin/env -S scriptbox dash\necho hi\n";
    let s = run_spec(&["dash", "-e"], Some(Argv0::Source));
    let d = plan(&s, script).unwrap();
    let argv = build_argv(&d, "/proc/self/fd/3", "/tmp/it's.sh", &s.script_args);
    assert_eq!(
        argv,
        vec![
            "-e",
            "-c",
            ". '/proc/self/fd/3' \"$@\"",
            "/tmp/it's.sh",
            "A",
            "B"
        ]
    );
    assert_eq!(serve(&d, script, "/tmp/it's.sh"), script);
}

#[test]
fn the_default_resets_zero_where_the_shell_can() {
    let script = b"#!/bin/bash\necho hi\n";
    let d = plan(&run_spec(&[], None), script).unwrap();
    assert_eq!(
        d,
        Decision {
            interp: "/bin/bash".to_string(),
            interp_args: vec![],
            argv0: Argv0::Rewrite,
            subscripts: Subscripts::Off,
        }
    );
    assert_eq!(
        String::from_utf8(serve(&d, script, "/r.sh")).unwrap(),
        "#!/bin/bash\nBASH_ARGV0='/r.sh'; echo hi\n"
    );
}

#[test]
fn a_flag_beats_the_block_and_the_block_beats_the_default() {
    let (mut s, mut fm) = spec(&[], None);
    assert_eq!(resolve_argv0(&s, &fm), Ok(Argv0::Rewrite));
    assert_eq!(resolve_subscripts(&s, &fm), Ok(Subscripts::Off));
    fm.argv0 = Some("source".to_string());
    fm.subscripts = Some("report".to_string());
    assert_eq!(resolve_argv0(&s, &fm), Ok(Argv0::Source));
    assert_eq!(resolve_subscripts(&s, &fm), Ok(Subscripts::Report));
    fm.argv0 = Some("bogus".to_string());
    fm.subscripts = Some("bogus".to_string());
    assert!(resolve_argv0(&s, &fm).is_err());
    assert!(resolve_subscripts(&s, &fm).is_err());
    s.argv0 = Some(Argv0::Off);
    s.subscripts = Some(Subscripts::Freeze);
    assert_eq!(resolve_argv0(&s, &fm), Ok(Argv0::Off));
    assert_eq!(resolve_subscripts(&s, &fm), Ok(Subscripts::Freeze));
}

#[test]
fn the_checksum_is_tested_before_the_settings() {
    let (s, _) = spec(&[], None);
    let bad = Frontmatter {
        interpreter: None,
        checksum: Some(" sha256:AB ".to_string()),
        argv0: Some("Wat".to_string()),
        subscripts: Some("what".to_string()),
    };
    assert_eq!(
        decide(&s, &bad, "sha256:cd", b""),
        Err(RunError::ChecksumMismatch {
            script: "x.sh".to_string(),
            expected: " sha256:AB ".to_string(),
            actual: "sha256:cd".to_string(),
        })
    );
    match decide(&s, &bad, "sha256:ab", b"") {
        Err(RunError::Setting(e)) => {
            assert_eq!(e.switch, Switch::Argv0);
            assert_eq!(
                RunError::Setting(e).message(),
                "frontmatter `argv0`: unknown argv0 mode `wat` (want: rewrite | source | off)"
            );
        }
        other => panic!("{other:?}"),
    }
    let worse = Frontmatter {
        argv0: None,
        checksum: None,
        ..bad
    };
    match decide(&s, &worse, "sha256:ab", b"") {
        Err(e) => assert_eq!(
            e.message(),
            "frontmatter `subscripts`: unknown subscripts mode `what` (want: off | report | freeze)"
        ),
        other => panic!("{other:?}"),
    }
}

#[test]
fn the_shebang_gives_its_flags_too() {
    let d = plan(&run_spec(&[], None), b"#!/usr/bin/env -S ksh -u\n").unwrap();
    assert_eq!(d.interp, "ksh");
    assert_eq!(d.interp_args, vec!["-u"]);
    let argv = build_argv(&d, "F", "S", &vec![]);
    assert_eq!(argv, vec!["-u", "F"]);
}
