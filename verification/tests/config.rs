use scriptbox::config::{Argv0, Subscripts, Switch, UnknownMode};

#[test]
fn argv0_parsing() {
    assert_eq!(Argv0::parse("source").unwrap(), Argv0::Source);
    assert_eq!(Argv0::parse("REWRITE").unwrap(), Argv0::Rewrite);
    assert_eq!(Argv0::parse("off").unwrap(), Argv0::Off);
    assert!(Argv0::parse("wat").is_err());
}

#[test]
fn subscripts_parsing() {
    assert_eq!(Subscripts::parse("report").unwrap(), Subscripts::Report);
    assert_eq!(Subscripts::parse("off").unwrap(), Subscripts::Off);
    assert_eq!(Subscripts::parse("freeze").unwrap(), Subscripts::Freeze);
    assert_eq!(Subscripts::parse("wrap").unwrap(), Subscripts::Freeze);
    assert_eq!(
        Subscripts::parse("freeze-tree").unwrap(),
        Subscripts::Freeze
    );
    assert!(Subscripts::parse("nonsense").is_err());
    assert!(!Subscripts::Off.needs_parser() && Subscripts::Freeze.needs_parser());
}

#[test]
fn every_name_of_a_mode_is_known() {
    for name in ["off", "none", "false", " Off\n"] {
        assert_eq!(Argv0::parse(name), Ok(Argv0::Off));
        assert_eq!(Subscripts::parse(name), Ok(Subscripts::Off));
    }
    for name in ["on", "true", "tree", "FREEZE"] {
        assert_eq!(Subscripts::parse(name), Ok(Subscripts::Freeze));
    }
    assert!(Subscripts::Report.needs_parser());
}

#[test]
fn the_defaults() {
    assert_eq!(Argv0::DEFAULT, Argv0::Rewrite);
    assert_eq!(Subscripts::DEFAULT, Subscripts::Off);
}

#[test]
fn unknown_modes_are_named() {
    let e = Argv0::parse("  WAT ").unwrap_err();
    assert_eq!(
        e,
        UnknownMode {
            switch: Switch::Argv0,
            mode: "wat".to_string()
        }
    );
    assert_eq!(
        e.message(),
        "unknown argv0 mode `wat` (want: rewrite | source | off)"
    );
    let e = Subscripts::parse("").unwrap_err();
    assert_eq!(e.switch, Switch::Subscripts);
    assert_eq!(
        e.message(),
        "unknown subscripts mode `` (want: off | report | freeze)"
    );
}
