use scriptbox::config::Subscripts;
use scriptbox::freezer::{apply, Action, Event, Freezer, SOURCE_DEPTH_CAP};
use scriptbox::sites::parse_sites;
use scriptbox::subscripts::Analysis;

/// Walk a tree of files that include one another by name, and return the bytes
/// to run, the copies in the order they were made, the files in the order they
/// were loaded, and the messages.
fn walk(
    mode: Subscripts,
    top: &str,
    bytes: &[u8],
    files: &[(&str, &str)],
) -> (String, Vec<String>, Vec<String>, Vec<String>) {
    let mut machine = apply(mode, bytes.to_vec(), top.as_bytes().to_vec(), "/box");
    let mut copies: Vec<String> = vec![];
    let mut loaded: Vec<String> = vec![];
    let mut notes: Vec<String> = vec![];
    loop {
        notes.append(&mut machine.take_notes());
        let event = match machine.action() {
            Action::Resolve { target, .. } => {
                let known = target == top || files.iter().any(|f| f.0 == target);
                Event::Resolved(if known {
                    Some(target.as_bytes().to_vec())
                } else {
                    None
                })
            }
            Action::Load { path } => {
                let name = String::from_utf8(path.clone()).unwrap();
                let file = files.iter().find(|f| f.0 == name).unwrap();
                loaded.push(name);
                Event::Loaded(file.1.as_bytes().to_vec())
            }
            Action::Seal { bytes } => {
                copies.push(String::from_utf8_lossy(bytes).into_owned());
                Event::Sealed(format!("/dev/fd/{}", 9 + copies.len()))
            }
            Action::Done { bytes } => {
                return (
                    String::from_utf8_lossy(bytes).into_owned(),
                    copies,
                    loaded,
                    notes,
                );
            }
        };
        machine.step(event);
    }
}

#[test]
fn what_stands_in_a_substitution_is_reported_and_left() {
    let src = "x=$(source /a; bash b.sh)\nsource ~/c\n";
    let (out, copies, loaded, notes) =
        walk(Subscripts::Freeze, "/top", src.as_bytes(), &[("/a", ":\n")]);
    assert_eq!(out, src);
    assert!(copies.is_empty());
    assert!(loaded.is_empty());
    assert_eq!(
        notes,
        vec![
            "scriptbox: subscripts in /top (wrapping):\n  \
             [source] line 1    /a  (left - dynamic)\n  \
             [bash  ] line 1    b.sh  (left - dynamic)\n  \
             [source] line 2    ~/c  (left - dynamic)"
        ]
    );
}

#[test]
fn a_tree_is_frozen_from_the_leaves_up() {
    let (out, copies, loaded, notes) = walk(
        Subscripts::Freeze,
        "/top",
        b"source /a\nbash x.sh\nsource /b\n. /a\n",
        &[("/a", "source /b\n:\n"), ("/b", "echo b\n")],
    );
    assert_eq!(
        out,
        "source /dev/fd/11\n'/box' --subscripts=freeze bash x.sh\nsource /dev/fd/10\n. /dev/fd/11\n"
    );
    assert_eq!(copies, vec!["echo b\n", "source /dev/fd/10\n:\n"]);
    assert_eq!(loaded, vec!["/a", "/b"]);
    assert_eq!(
        notes,
        vec![
            "scriptbox: subscripts in /a (wrapping):\n  [source] line 1    /b  (frozen)",
            "scriptbox: subscripts in /top (wrapping):\n  \
             [source] line 1    /a  (frozen)\n  \
             [bash  ] line 2    x.sh  (wrapped)\n  \
             [source] line 3    /b  (frozen)\n  \
             [source] line 4    /a  (frozen)",
        ]
    );
}

#[test]
fn cycles_and_unknown_names_are_left() {
    let (out, copies, loaded, _) = walk(
        Subscripts::Freeze,
        "/top",
        b"source /a\nsource /nowhere\nsource /top\n",
        &[("/a", "source /top\nsource /a\nsource /b\n"), ("/b", "source /a\n")],
    );
    assert_eq!(out, "source /dev/fd/11\nsource /nowhere\nsource /top\n");
    assert_eq!(
        copies,
        vec!["source /a\n", "source /top\nsource /a\nsource /dev/fd/10\n"]
    );
    assert_eq!(loaded, vec!["/a", "/b"]);
}

#[test]
fn reporting_changes_nothing() {
    let src = b"source /a\nbash x.sh\n";
    let (out, copies, loaded, notes) = walk(Subscripts::Report, "/top", src, &[("/a", ":")]);
    assert_eq!(out.as_bytes(), src);
    assert!(copies.is_empty() && loaded.is_empty());
    assert_eq!(
        notes,
        vec![
            "scriptbox: subscripts in /top (detection only):\n  \
             [source] line 1    /a  (resolvable)\n  \
             [bash  ] line 2    x.sh  (resolvable)"
        ]
    );
    let (_, _, _, notes) = walk(Subscripts::Report, "/top", b"ls\n", &[]);
    assert!(notes.is_empty());
}

#[test]
fn off_says_and_does_nothing() {
    let (out, _, loaded, notes) =
        walk(Subscripts::Off, "/top", b"source /a\n", &[("/a", ":")]);
    assert_eq!(out, "source /a\n");
    assert!(loaded.is_empty() && notes.is_empty());
}

#[test]
fn scripts_that_cannot_be_read_run_as_they_are() {
    let (out, _, _, notes) = walk(Subscripts::Freeze, "/top", b"source /a\n", &[("/a", "if then")]);
    assert_eq!(out, "source /dev/fd/10\n");
    assert!(notes[0].starts_with("scriptbox: subscripts: could not parse /a: "));

    let mut machine = apply(Subscripts::Freeze, b"\xff".to_vec(), b"/t".to_vec(), "/box");
    assert_eq!(
        machine.take_notes(),
        vec!["scriptbox: subscripts: /t is not UTF-8; skipping"]
    );
    assert_eq!(
        machine.action(),
        &Action::Done {
            bytes: b"\xff".to_vec()
        }
    );
}

#[test]
fn the_depth_is_capped() {
    let names: Vec<(String, String)> = (0..100)
        .map(|n| (format!("/f{n}"), format!("source /f{}\n", n + 1)))
        .collect();
    let files: Vec<(&str, &str)> = names
        .iter()
        .map(|f| (f.0.as_str(), f.1.as_str()))
        .collect();
    let (_, copies, loaded, notes) = walk(Subscripts::Freeze, "/top", b"source /f0\n", &files);
    assert_eq!(loaded.len(), SOURCE_DEPTH_CAP);
    assert_eq!(copies.len(), 64);
    assert_eq!(copies[0], "source /f64\n");
    assert_eq!(
        notes[0],
        "scriptbox: subscripts: source depth cap (64) hit at /f64; leaving it"
    );
}

#[test]
fn events_that_answer_nothing_change_nothing() {
    let mut machine = apply(
        Subscripts::Freeze,
        b"source /a\n".to_vec(),
        b"/t".to_vec(),
        "/box",
    );
    machine.step(Event::Sealed("/dev/fd/3".to_string()));
    machine.step(Event::Loaded(b"x".to_vec()));
    assert_eq!(
        machine.action(),
        &Action::Resolve {
            target: "/a".to_string(),
            from: b"/t".to_vec()
        }
    );
    machine.step(Event::Resolved(None));
    machine.step(Event::Resolved(Some(b"/a".to_vec())));
    assert_eq!(
        machine.action(),
        &Action::Done {
            bytes: b"source /a\n".to_vec()
        }
    );
}

#[test]
fn a_walk_takes_an_analysis_as_it_is_given() {
    let found = |src: &str| Analysis::Found(src.chars().collect(), parse_sites(src).unwrap());
    let mut machine = Freezer::begin(
        Subscripts::Freeze,
        "P ".to_string(),
        b"/t".to_vec(),
        b"source a\n".to_vec(),
        found("source a\n"),
    );
    machine.step(Event::Resolved(Some(b"/a".to_vec())));
    assert_eq!(
        machine.action(),
        &Action::Load {
            path: b"/a".to_vec()
        }
    );
    machine.load(b"sh z\n".to_vec(), found("sh z\n"));
    assert_eq!(
        machine.action(),
        &Action::Seal {
            bytes: b"P sh z\n".to_vec()
        }
    );
}
