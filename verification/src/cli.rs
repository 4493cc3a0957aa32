//! The command line.

use vstd::prelude::*;
use vstd::string::*;

use crate::config::{Argv0, Subscripts, Switch, UnknownMode};
use crate::run::RunSpec;
use crate::text;

verus! {

/// What the command line asks for.
#[derive(Debug, PartialEq, Eq)]
pub enum Request {
    /// The version.
    Version,
    /// The help text.
    Help,
    /// The pin of the script at a path.
    Hash(String),
    /// A pin of the script at a path, to be pasted.
    Pin(String),
    /// Clear all caches away.
    Gc,
    /// Run a script.
    Run,
}

/// What is wrong with the command line.
#[derive(Debug, PartialEq, Eq)]
pub enum CliError {
    /// It is empty.
    Empty,
    /// A subcommand has no script.
    NoPath(&'static str),
    /// A flag has no mode.
    NoMode,
    /// A flag has something that is no mode.
    Mode(UnknownMode),
    /// Nothing on it is a script; what was looked at.
    NoScript(Vec<String>),
}

/// The message for a subcommand without a script.
pub open spec fn no_path(sub: Seq<char>) -> Seq<char> {
    "`"@ + sub + "` needs a script path: `scriptbox "@ + sub + " <script>`"@
}

/// The message for a subcommand without a script.
pub fn no_path_message(sub: &str) -> (r: String)
    ensures
        r@ == no_path(sub@),
{
    let mut out = "`".to_owned();
    out.append(sub);
    out.append("` needs a script path: `scriptbox ");
    out.append(sub);
    out.append(" <script>`");
    out
}

/// The path after a subcommand.
pub fn script_arg(args: &Vec<String>, sub: &'static str) -> (r: Result<String, CliError>)
    ensures
        match r {
            Ok(p) => args@.len() > 1 && p@ == args@[1]@,
            Err(e) => args@.len() <= 1 && e == CliError::NoPath(sub),
        },
{
    if args.len() > 1 {
        Ok(args[1].clone())
    } else {
        Err(CliError::NoPath(sub))
    }
}

/// Whether a command is what the words ask for.
pub open spec fn asked(words: Seq<Seq<char>>, r: Result<Request, CliError>) -> bool {
    if words.len() == 0 {
        r matches Err(e) && e == CliError::Empty
    } else if words[0] == "--version"@ || words[0] == "-V"@ {
        r matches Ok(c) && c == Request::Version
    } else if words[0] == "--help"@ || words[0] == "-h"@ {
        r matches Ok(c) && c == Request::Help
    } else if words[0] == "hash"@ {
        if words.len() > 1 {
            r matches Ok(Request::Hash(p)) && p@ == words[1]
        } else {
            r matches Err(CliError::NoPath(s)) && s@ == "hash"@
        }
    } else if words[0] == "pin"@ {
        if words.len() > 1 {
            r matches Ok(Request::Pin(p)) && p@ == words[1]
        } else {
            r matches Err(CliError::NoPath(s)) && s@ == "pin"@
        }
    } else if words[0] == "gc"@ {
        r matches Ok(c) && c == Request::Gc
    } else {
        r matches Ok(c) && c == Request::Run
    }
}

/// What the words after the program's name ask for.
pub fn parse_command(args: &Vec<String>) -> (r: Result<Request, CliError>)
    ensures
        asked(text::texts(args@), r),
{
    if args.len() == 0 {
        return Err(CliError::Empty);
    }
    let first = text::chars_of(args[0].as_str());
    assert(text::texts(args@)[0] == first@);
    assert(args@.len() > 1 ==> text::texts(args@)[1] == args@[1]@);
    if text::reads(&first, "--version") || text::reads(&first, "-V") {
        Ok(Request::Version)
    } else if text::reads(&first, "--help") || text::reads(&first, "-h") {
        Ok(Request::Help)
    } else if text::reads(&first, "hash") {
        match script_arg(args, "hash") {
            Ok(path) => Ok(Request::Hash(path)),
            Err(e) => Err(e),
        }
    } else if text::reads(&first, "pin") {
        match script_arg(args, "pin") {
            Ok(path) => Ok(Request::Pin(path)),
            Err(e) => Err(e),
        }
    } else if text::reads(&first, "gc") {
        Ok(Request::Gc)
    } else {
        Ok(Request::Run)
    }
}

// ---------------------------------------------------------------------------
// Flags

/// The flags at the start of a command line, and how many words they are.
#[derive(Debug, PartialEq, Eq)]
pub struct Flags {
    /// The mode for `$0`, if a flag names one.
    pub argv0: Option<Argv0>,
    /// The mode for subscripts, if a flag names one.
    pub subscripts: Option<Subscripts>,
    /// The number of words.
    pub words: usize,
}

/// What one flag at the start of `words` does.
pub enum FlagModel {
    /// There is none.
    Absent,
    /// It sets the mode for `$0`, with so many words.
    Argv0(Argv0, int),
    /// It sets the mode for subscripts, with one word.
    Subscripts(Subscripts),
    /// It has no mode.
    NoMode,
    /// It has something that is no mode of its switch.
    NoSuchMode(Switch, Seq<char>),
}

/// The flag at the start of `words`, if there is one.
pub open spec fn flag_in(words: Seq<Seq<char>>) -> FlagModel {
    if words.len() == 0 {
        FlagModel::Absent
    } else if words[0] == "--argv0-rewrite"@ {
        FlagModel::Argv0(Argv0::Rewrite, 1)
    } else if words[0] == "--no-argv0-rewrite"@ {
        FlagModel::Argv0(Argv0::Off, 1)
    } else if words[0] == "--argv0"@ {
        if words.len() == 1 {
            FlagModel::NoMode
        } else {
            match Argv0::named(words[1]) {
                Some(m) => FlagModel::Argv0(m, 2),
                None => FlagModel::NoSuchMode(Switch::Argv0, words[1]),
            }
        }
    } else if words[0] == "--subscripts"@ {
        FlagModel::Subscripts(Subscripts::Freeze)
    } else {
        match text::without_prefix(words[0], "--subscripts="@) {
            Some(mode) => match Subscripts::named(mode) {
                Some(m) => FlagModel::Subscripts(m),
                None => FlagModel::NoSuchMode(Switch::Subscripts, mode),
            },
            None => FlagModel::Absent,
        }
    }
}

/// What the flags at the start of a command line come to.
pub enum FlagsModel {
    /// The modes that they name, if they do, and how many words they are.
    Modes(Option<Argv0>, Option<Subscripts>, int),
    /// One has no mode.
    NoMode,
    /// One has something that is no mode of its switch.
    NoSuchMode(Switch, Seq<char>),
}

/// What the flags from `at` on come to, after flags that named these modes. A
/// later flag overrules an earlier one.
pub open spec fn flags_in(
    words: Seq<Seq<char>>,
    at: int,
    argv0: Option<Argv0>,
    subscripts: Option<Subscripts>,
) -> FlagsModel
    decreases words.len() - at,
{
    if at < 0 || at >= words.len() {
        FlagsModel::Modes(argv0, subscripts, at)
    } else {
        match flag_in(words.skip(at)) {
            FlagModel::Absent => FlagsModel::Modes(argv0, subscripts, at),
            FlagModel::Argv0(m, n) => if n > 0 {
                flags_in(words, at + n, Some(m), subscripts)
            } else {
                FlagsModel::NoMode
            },
            FlagModel::Subscripts(m) => flags_in(words, at + 1, argv0, Some(m)),
            FlagModel::NoMode => FlagsModel::NoMode,
            FlagModel::NoSuchMode(w, s) => FlagsModel::NoSuchMode(w, s),
        }
    }
}

/// The flags at the start of a command line.
pub fn parse_flags(args: &Vec<String>) -> (r: Result<Flags, CliError>)
    ensures
        match flags_in(text::texts(args@), 0, None, None) {
            FlagsModel::Modes(a, s, n) => match r {
                Ok(f) => f.argv0 == a && f.subscripts == s && f.words == n && n <= args@.len(),
                Err(_) => false,
            },
            FlagsModel::NoMode => r matches Err(e) && e == CliError::NoMode,
            FlagsModel::NoSuchMode(switch, mode) => r matches Err(CliError::Mode(e)) && e.switch
                == switch && e.mode@ == crate::config::plain(mode),
        },
{
    let ghost words = text::texts(args@);
    let mut flags = Flags { argv0: None, subscripts: None, words: 0 };
    while flags.words < args.len()
        invariant_except_break
            flags.words <= args@.len(),
            words == text::texts(args@),
            flags_in(words, 0, None, None) == flags_in(
                words,
                flags.words as int,
                flags.argv0,
                flags.subscripts,
            ),
        ensures
            flags.words <= args@.len(),
            flags_in(words, 0, None, None) == FlagsModel::Modes(
                flags.argv0,
                flags.subscripts,
                flags.words as int,
            ),
        decreases args@.len() - flags.words,
    {
        let ghost rest = words.skip(flags.words as int);
        let word = text::chars_of(args[flags.words].as_str());
        assert(rest[0] == word@);
        if text::reads(&word, "--argv0-rewrite") {
            flags.argv0 = Some(Argv0::Rewrite);
        } else if text::reads(&word, "--no-argv0-rewrite") {
            flags.argv0 = Some(Argv0::Off);
        } else if text::reads(&word, "--argv0") {
            if flags.words == args.len() - 1 {
                return Err(CliError::NoMode);
            }
            flags.words = flags.words + 1;
            assert(rest[1] == args@[flags.words as int]@);
            match Argv0::parse(args[flags.words].as_str()) {
                Ok(m) => {
                    flags.argv0 = Some(m);
                },
                Err(e) => {
                    return Err(CliError::Mode(e));
                },
            }
        } else if text::reads(&word, "--subscripts") {
            flags.subscripts = Some(Subscripts::Freeze);
        } else {
            match text::strip_prefix(&word, "--subscripts=") {
                Some(mode) => {
                    let mode = text::string_of(mode);
                    match Subscripts::parse(mode.as_str()) {
                        Ok(m) => {
                            flags.subscripts = Some(m);
                        },
                        Err(e) => {
                            return Err(CliError::Mode(e));
                        },
                    }
                },
                None => {
                    break;
                },
            }
        }
        flags.words = flags.words + 1;
    }
    Ok(flags)
}

// ---------------------------------------------------------------------------
// The script

/// What a word of the command line is found to be.
#[derive(Debug, PartialEq, Eq)]
pub struct Probe {
    /// Whether it is the path of a file.
    pub is_file: bool,
    /// The first bytes of the file, at least four where it has so many.
    pub start: Vec<u8>,
}

/// Whether a file starts as a compiled program does: ELF or Mach-O.
pub open spec fn program_magic(start: Seq<u8>) -> bool {
    let m = start.take(4);
    &&& start.len() >= 4
    &&& {
        ||| m == seq![0x7fu8, 0x45, 0x4c, 0x46]
        ||| m == seq![0xfeu8, 0xed, 0xfa, 0xce]
        ||| m == seq![0xfeu8, 0xed, 0xfa, 0xcf]
        ||| m == seq![0xceu8, 0xfa, 0xed, 0xfe]
        ||| m == seq![0xcfu8, 0xfa, 0xed, 0xfe]
        ||| m == seq![0xcau8, 0xfe, 0xba, 0xbe]
        ||| m == seq![0xbeu8, 0xba, 0xfe, 0xca]
    }
}

/// Whether a file starts with four given bytes.
fn starts_as(start: &[u8], a: u8, b: u8, c: u8, d: u8) -> (r: bool)
    requires
        start@.len() >= 4,
    ensures
        r == (start@.take(4) == seq![a, b, c, d]),
{
    let r = start[0] == a && start[1] == b && start[2] == c && start[3] == d;
    let ghost m = start@.take(4);
    assert(m[0] == start@[0] && m[1] == start@[1] && m[2] == start@[2] && m[3] == start@[3]);
    assert(r ==> m =~= seq![a, b, c, d]);
    assert(m == seq![a, b, c, d] ==> m[0] == a && m[1] == b && m[2] == c && m[3] == d);
    r
}

/// Whether a file starts as a compiled program does: ELF or Mach-O.
pub fn is_program_binary(start: &[u8]) -> (r: bool)
    ensures
        r == program_magic(start@),
{
    start.len() >= 4 && (starts_as(start, 0x7f, 0x45, 0x4c, 0x46) || starts_as(
        start,
        0xfe,
        0xed,
        0xfa,
        0xce,
    ) || starts_as(start, 0xfe, 0xed, 0xfa, 0xcf) || starts_as(start, 0xce, 0xfa, 0xed, 0xfe)
        || starts_as(start, 0xcf, 0xfa, 0xed, 0xfe) || starts_as(start, 0xca, 0xfe, 0xba, 0xbe)
        || starts_as(start, 0xbe, 0xba, 0xfe, 0xca))
}

/// Whether a word of the command line is a script: the path of a file that is no
/// compiled program.
pub open spec fn is_script(p: Probe) -> bool {
    p.is_file && !program_magic(p.start@)
}

/// The index of the first script from `at` on, or the number of words where there
/// is none.
pub open spec fn first_script(probes: Seq<Probe>, at: int) -> int
    decreases probes.len() - at,
{
    if 0 <= at < probes.len() && !is_script(probes[at]) {
        first_script(probes, at + 1)
    } else {
        at
    }
}

/// Copies of the strings from `from` up to `to`.
fn copy_range(v: &Vec<String>, from: usize, to: usize) -> (r: Vec<String>)
    requires
        from <= to <= v@.len(),
    ensures
        text::texts(r@) == text::texts(v@).subrange(from as int, to as int),
{
    let mut out: Vec<String> = Vec::new();
    let mut i: usize = from;
    while i < to
        invariant
            from <= i <= to <= v@.len(),
            out@.len() == i - from,
            forall|k: int| 0 <= k < out@.len() ==> (#[trigger] out@[k])@ == v@[from + k]@,
        decreases to - i,
    {
        out.push(v[i].clone());
        i = i + 1;
    }
    assert(text::texts(out@) =~= text::texts(v@).subrange(from as int, to as int));
    out
}

/// Whether a request is what the words and what they were found to be ask for,
/// after `from` words of flags.
pub open spec fn request(
    words: Seq<Seq<char>>,
    probes: Seq<Probe>,
    flags: Flags,
    r: Result<RunSpec, CliError>,
) -> bool {
    let from = flags.words as int;
    let at = first_script(probes, from);
    if at < words.len() {
        match r {
            Ok(spec) => {
                &&& text::texts(spec.interp_override@) == words.subrange(from, at)
                &&& spec.script@ == words[at]
                &&& text::texts(spec.script_args@) == words.skip(at + 1)
                &&& spec.argv0 == flags.argv0
                &&& spec.subscripts == flags.subscripts
            },
            Err(_) => false,
        }
    } else {
        r matches Err(CliError::NoScript(rest)) && text::texts(rest@) == words.skip(from)
    }
}

/// The request to run a script: after the flags, the first word that is a script
/// is the one, what stands before it is the interpreter with its own flags, and
/// what stands after it is for the script. An interpreter that is named by its
/// path is a compiled program, and is not taken for the script.
pub fn dispatch_run(args: &Vec<String>, flags: &Flags, probes: &Vec<Probe>) -> (r: Result<
    RunSpec,
    CliError,
>)
    requires
        probes@.len() == args@.len(),
        flags.words <= args@.len(),
    ensures
        request(text::texts(args@), probes@, *flags, r),
{
    let ghost words = text::texts(args@);
    let mut at: usize = flags.words;
    while at < args.len() && !(probes[at].is_file && !is_program_binary(&probes[at].start))
        invariant
            flags.words <= at <= args@.len(),
            probes@.len() == args@.len(),
            first_script(probes@, flags.words as int) == first_script(probes@, at as int),
        decreases args@.len() - at,
    {
        at = at + 1;
    }
    if at == args.len() {
        let rest = copy_range(args, flags.words, args.len());
        assert(words.subrange(flags.words as int, args@.len() as int) =~= words.skip(
            flags.words as int,
        ));
        return Err(CliError::NoScript(rest));
    }
    let script_args = copy_range(args, at + 1, args.len());
    assert(words.subrange(at + 1, args@.len() as int) =~= words.skip(at + 1));
    Ok(
        RunSpec {
            interp_override: copy_range(args, flags.words, at),
            script: args[at].clone(),
            script_args,
            argv0: flags.argv0,
            subscripts: flags.subscripts,
        },
    )
}

/// Every word of a request to run a script is kept, in order: the flags, the
/// interpreter, the script, its arguments.
pub proof fn law_no_word_is_lost(
    words: Seq<Seq<char>>,
    probes: Seq<Probe>,
    flags: Flags,
    spec: RunSpec,
)
    requires
        probes.len() == words.len(),
        flags.words <= words.len(),
        request(words, probes, flags, Ok(spec)),
    ensures
        words.skip(flags.words as int) == text::texts(spec.interp_override@).push(spec.script@)
            + text::texts(spec.script_args@),
{
    let from = flags.words as int;
    let at = first_script(probes, from);
    lemma_first_script(probes, from);
    assert(words.skip(from) =~= words.subrange(from, at).push(words[at]) + words.skip(at + 1));
}

proof fn lemma_first_script(probes: Seq<Probe>, at: int)
    requires
        0 <= at <= probes.len(),
    ensures
        at <= first_script(probes, at) <= probes.len(),
        forall|k: int| at <= k < first_script(probes, at) ==> !is_script(#[trigger] probes[k]),
        first_script(probes, at) < probes.len() ==> is_script(probes[first_script(probes, at)]),
    decreases probes.len() - at,
{
    if at < probes.len() && !is_script(probes[at]) {
        lemma_first_script(probes, at + 1);
    }
}

/// Nothing before the script is one, compiled programs included: an interpreter
/// may be given by its path.
pub proof fn law_the_first_script_is_taken(probes: Seq<Probe>, from: int)
    requires
        0 <= from <= probes.len(),
    ensures
        from <= first_script(probes, from) <= probes.len(),
        forall|k: int|
            from <= k < first_script(probes, from) ==> !(#[trigger] probes[k]).is_file
                || program_magic(probes[k].start@),
        first_script(probes, from) < probes.len() ==> is_script(
            probes[first_script(probes, from)],
        ),
{
    lemma_first_script(probes, from);
}

/// The flag that rewriting puts before a command asks for freezing, so children
/// of a frozen script freeze their own.
pub proof fn law_children_are_frozen_too(rest: Seq<Seq<char>>)
    ensures
        flag_in(seq!["--subscripts=freeze"@] + rest) == FlagModel::Subscripts(Subscripts::Freeze),
        forall|exe: Seq<char>|
            (#[trigger] crate::rewrite::prefix_for(exe)) == crate::interpreter::squoted(exe) + seq![
                ' ',
            ] + "--subscripts=freeze"@ + seq![' '],
{
    reveal_strlit("--subscripts=freeze");
    reveal_strlit("--subscripts=");
    reveal_strlit("--subscripts");
    reveal_strlit("--argv0-rewrite");
    reveal_strlit("--no-argv0-rewrite");
    reveal_strlit("--argv0");
    reveal_strlit("freeze");
    reveal_strlit("off");
    reveal_strlit("none");
    reveal_strlit("false");
    reveal_strlit("report");
    reveal_strlit(" --subscripts=freeze ");
    let words = seq!["--subscripts=freeze"@] + rest;
    let word = "--subscripts=freeze"@;
    assert(words[0] == word);
    assert(word.len() == 19);
    assert("--argv0-rewrite"@.len() == 15 && "--no-argv0-rewrite"@.len() == 18);
    assert("--argv0"@.len() == 7 && "--subscripts"@.len() == 12);
    assert(word.subrange(0, 13) =~= "--subscripts="@);
    let mode = word.skip(13);
    assert(mode =~= "freeze"@);
    text::lemma_trim_both(mode, text::CharClass::White, 0, 6);
    assert(mode.subrange(0, 6) =~= mode);
    assert(text::lower(mode) =~= mode);
    assert("report"@[0] == 'r' && "freeze"@[0] == 'f');
    assert("off"@.len() == 3 && "none"@.len() == 4 && "false"@.len() == 5);
    assert(Subscripts::named(mode) == Some(Subscripts::Freeze));
    assert forall|exe: Seq<char>| (#[trigger] crate::rewrite::prefix_for(exe))
        == crate::interpreter::squoted(exe) + seq![' '] + "--subscripts=freeze"@ + seq![' '] by {
        assert(crate::rewrite::prefix_for(exe) =~= crate::interpreter::squoted(exe) + seq![' ']
            + "--subscripts=freeze"@ + seq![' ']);
    }
}

// ---------------------------------------------------------------------------
// What flags come to

/// The first mode, or the second where there is none.
pub open spec fn first_of<T>(a: Option<T>, b: Option<T>) -> Option<T> {
    if a is Some {
        a
    } else {
        b
    }
}

/// Flags and words before others: how the flags at the start of `after` change
/// where flags that come to these modes and are `n` words stand before them.
pub open spec fn preceded(
    after: FlagsModel,
    argv0: Option<Argv0>,
    subscripts: Option<Subscripts>,
    n: int,
) -> FlagsModel {
    match after {
        FlagsModel::Modes(a, s, m) => FlagsModel::Modes(
            first_of(a, argv0),
            first_of(s, subscripts),
            m + n,
        ),
        e => e,
    }
}

proof fn lemma_flags_shift(
    words: Seq<Seq<char>>,
    at: int,
    argv0: Option<Argv0>,
    subscripts: Option<Subscripts>,
)
    requires
        0 <= at <= words.len(),
    ensures
        flags_in(words, at, argv0, subscripts) == preceded(
            flags_in(words.skip(at), 0, None, None),
            argv0,
            subscripts,
            at,
        ),
    decreases words.len() - at,
{
    let rest = words.skip(at);
    assert(rest.skip(0) =~= rest);
    if at < words.len() {
        match flag_in(rest) {
            FlagModel::Argv0(m, n) => {
                if 0 < n <= rest.len() {
                    assert(words.skip(at + n) =~= rest.skip(n));
                    lemma_flags_shift(words, at + n, Some(m), subscripts);
                    lemma_flags_shift(rest, n, Some(m), None);
                }
            },
            FlagModel::Subscripts(m) => {
                assert(words.skip(at + 1) =~= rest.skip(1));
                lemma_flags_shift(words, at + 1, argv0, Some(m));
                lemma_flags_shift(rest, 1, None, Some(m));
            },
            _ => {},
        }
    }
}

/// A command line is read flag by flag, from the left. A later flag for a switch
/// beats an earlier one; a mode counts, whichever it is. The first word that is no
/// flag ends the flags.
pub proof fn law_flags_are_read_one_by_one(mode: Seq<char>, rest: Seq<Seq<char>>)
    ensures
        ({
            let after = flags_in(rest, 0, None, None);
            &&& flags_in(seq!["--argv0-rewrite"@] + rest, 0, None, None) == preceded(
                after,
                Some(Argv0::Rewrite),
                None,
                1,
            )
            &&& flags_in(seq!["--no-argv0-rewrite"@] + rest, 0, None, None) == preceded(
                after,
                Some(Argv0::Off),
                None,
                1,
            )
            &&& flags_in(seq!["--argv0"@, mode] + rest, 0, None, None) == match Argv0::named(
                mode,
            ) {
                Some(m) => preceded(after, Some(m), None, 2),
                None => FlagsModel::NoSuchMode(Switch::Argv0, mode),
            }
            &&& flags_in(seq!["--argv0"@], 0, None, None) == FlagsModel::NoMode
            &&& flags_in(seq!["--subscripts"@] + rest, 0, None, None) == preceded(
                after,
                None,
                Some(Subscripts::Freeze),
                1,
            )
            &&& flags_in(seq!["--subscripts="@ + mode] + rest, 0, None, None)
                == match Subscripts::named(mode) {
                Some(m) => preceded(after, None, Some(m), 1),
                None => FlagsModel::NoSuchMode(Switch::Subscripts, mode),
            }
            &&& rest.len() == 0 || (rest[0] != "--argv0-rewrite"@ && rest[0]
                != "--no-argv0-rewrite"@ && rest[0] != "--argv0"@ && rest[0] != "--subscripts"@
                && !"--subscripts="@.is_prefix_of(rest[0])) ==> after == FlagsModel::Modes(
                None,
                None,
                0,
            )
        }),
{
    reveal_strlit("--argv0-rewrite");
    reveal_strlit("--no-argv0-rewrite");
    reveal_strlit("--argv0");
    reveal_strlit("--subscripts");
    reveal_strlit("--subscripts=");
    assert("--argv0-rewrite"@.len() == 15 && "--no-argv0-rewrite"@.len() == 18);
    assert("--argv0"@.len() == 7 && "--subscripts"@.len() == 12);
    assert("--subscripts="@.len() == 13);
    assert(rest.skip(0) =~= rest);

    let rewrite = seq!["--argv0-rewrite"@] + rest;
    assert(rewrite.skip(0) =~= rewrite && rewrite.skip(1) =~= rest);
    lemma_flags_shift(rewrite, 1, Some(Argv0::Rewrite), None);

    let off = seq!["--no-argv0-rewrite"@] + rest;
    assert(off.skip(0) =~= off && off.skip(1) =~= rest);
    lemma_flags_shift(off, 1, Some(Argv0::Off), None);

    let named = seq!["--argv0"@, mode] + rest;
    assert(named.skip(0) =~= named && named.skip(2) =~= rest);
    assert(named[1] == mode);
    if let Some(m) = Argv0::named(mode) {
        lemma_flags_shift(named, 2, Some(m), None);
    }
    let alone = seq!["--argv0"@];
    assert(alone.skip(0) =~= alone);

    let bare = seq!["--subscripts"@] + rest;
    assert(bare.skip(0) =~= bare && bare.skip(1) =~= rest);
    lemma_flags_shift(bare, 1, None, Some(Subscripts::Freeze));

    let word = "--subscripts="@ + mode;
    let with = seq![word] + rest;
    assert(with.skip(0) =~= with && with.skip(1) =~= rest);
    assert(word.subrange(0, 13) =~= "--subscripts="@);
    assert(word.skip(13) =~= mode);
    assert(word[12] == '=' && "--no-argv0-rewrite"@[12] != '=' && "--argv0-rewrite"@[12] != '=');
    assert(word.len() >= 13);
    if let Some(m) = Subscripts::named(mode) {
        lemma_flags_shift(with, 1, None, Some(m));
    }
}

/// Whether a word is a flag for subscripts.
pub open spec fn is_subscripts_flag(word: Seq<char>) -> bool {
    word == "--subscripts"@ || "--subscripts="@.is_prefix_of(word)
}

/// The last flag for subscripts decides, whatever its mode; there is no mode just
/// where there is no such flag.
pub proof fn law_the_last_subscripts_flag_decides(
    words: Seq<Seq<char>>,
    argv0: Option<Argv0>,
    subscripts: Option<Subscripts>,
    n: int,
)
    requires
        flags_in(words, 0, None, None) == FlagsModel::Modes(argv0, subscripts, n),
    ensures
        0 <= n <= words.len(),
        subscripts is None <==> forall|k: int| 0 <= k < n ==> !is_subscripts_flag(#[trigger] words[k]),
        forall|j: int|
            #![trigger words[j]]
            0 <= j < n && is_subscripts_flag(words[j]) && (forall|k: int|
                j < k < n ==> !is_subscripts_flag(#[trigger] words[k])) ==> subscripts == (
            if words[j] == "--subscripts"@ {
                Some(Subscripts::Freeze)
            } else {
                Subscripts::named(words[j].skip(13))
            }),
{
    lemma_last_subscripts_flag(words, 0, None, None);
}

proof fn lemma_last_subscripts_flag(
    words: Seq<Seq<char>>,
    at: int,
    argv0: Option<Argv0>,
    given: Option<Subscripts>,
)
    requires
        0 <= at <= words.len(),
    ensures
        flags_in(words, at, argv0, given) matches FlagsModel::Modes(_, s, n) ==> {
            &&& at <= n <= words.len()
            &&& (forall|k: int| at <= k < n ==> !is_subscripts_flag(#[trigger] words[k])) ==> s
                == given
            &&& (exists|k: int| at <= k < n && is_subscripts_flag(#[trigger] words[k])) ==> s
                is Some
            &&& forall|j: int|
                #![trigger words[j]]
                at <= j < n && is_subscripts_flag(words[j]) && (forall|k: int|
                    j < k < n ==> !is_subscripts_flag(#[trigger] words[k])) ==> s == (
                if words[j] == "--subscripts"@ {
                    Some(Subscripts::Freeze)
                } else {
                    Subscripts::named(words[j].skip(13))
                })
        },
    decreases words.len() - at,
{
    if at < words.len() {
        let rest = words.skip(at);
        assert(rest[0] == words[at]);
        lemma_flag_words(rest);
        match flag_in(rest) {
            FlagModel::Argv0(m, n) => {
                lemma_last_subscripts_flag(words, at + n, Some(m), given);
                if n == 2 {
                    assert(rest[1] == words[at + 1]);
                }
            },
            FlagModel::Subscripts(m) => {
                lemma_last_subscripts_flag(words, at + 1, argv0, Some(m));
                match flags_in(words, at, argv0, given) {
                    FlagsModel::Modes(_, s, n) => {
                        assert(is_subscripts_flag(words[at]));
                        assert forall|j: int|
                            #![trigger words[j]]
                            at <= j < n && is_subscripts_flag(words[j]) && (forall|k: int|
                                j < k < n ==> !is_subscripts_flag(
                                    #[trigger] words[k],
                                )) implies s == (if words[j] == "--subscripts"@ {
                            Some(Subscripts::Freeze)
                        } else {
                            Subscripts::named(words[j].skip(13))
                        }) by {
                            if j == at {
                                assert(forall|k: int|
                                    at + 1 <= k < n ==> !is_subscripts_flag(#[trigger] words[k]));
                            }
                        }
                        if exists|k: int| at + 1 <= k < n && is_subscripts_flag(#[trigger] words[k]) {
                        } else {
                            assert(s == Some(m));
                        }
                    },
                    _ => {},
                }
            },
            _ => {},
        }
    }
}

/// What the words of a flag are.
proof fn lemma_flag_words(rest: Seq<Seq<char>>)
    requires
        rest.len() > 0,
    ensures
        match flag_in(rest) {
            FlagModel::Absent => true,
            FlagModel::Argv0(m, n) => !is_subscripts_flag(rest[0]) && (n == 1 || (n == 2
                && rest.len() >= 2 && !is_subscripts_flag(rest[1]))),
            FlagModel::Subscripts(m) => is_subscripts_flag(rest[0]) && Some(m) == (if rest[0]
                == "--subscripts"@ {
                Some(Subscripts::Freeze)
            } else {
                Subscripts::named(rest[0].skip(13))
            }),
            _ => true,
        },
{
    reveal_strlit("--argv0-rewrite");
    reveal_strlit("--no-argv0-rewrite");
    reveal_strlit("--argv0");
    reveal_strlit("--subscripts");
    reveal_strlit("--subscripts=");
    let w = rest[0];
    assert("--argv0-rewrite"@.len() == 15 && "--no-argv0-rewrite"@.len() == 18);
    assert("--argv0"@.len() == 7 && "--subscripts"@.len() == 12);
    assert("--subscripts="@.len() == 13);
    assert("--argv0-rewrite"@[2] == 'a' && "--no-argv0-rewrite"@[2] == 'n');
    assert("--subscripts="@[2] == 's');
    if "--subscripts="@.is_prefix_of(w) {
        assert(w.subrange(0, 13)[2] == w[2]);
    }
    if rest.len() >= 2 && Argv0::named(rest[1]) is Some && is_subscripts_flag(rest[1]) {
        let v = rest[1];
        assert(v[0] == '-') by {
            if "--subscripts="@.is_prefix_of(v) {
                assert(v.subrange(0, 13)[0] == v[0]);
            }
        }
        assert(v[2] == 's') by {
            if "--subscripts="@.is_prefix_of(v) {
                assert(v.subrange(0, 13)[2] == v[2]);
            }
        }
        lemma_no_mode_is_a_flag(v);
    }
}

proof fn lemma_no_mode_is_a_flag(v: Seq<char>)
    requires
        v.len() > 0,
        v[0] == '-',
    ensures
        Argv0::named(v) is None,
{
    reveal_strlit("rewrite");
    reveal_strlit("source");
    reveal_strlit("off");
    reveal_strlit("none");
    reveal_strlit("false");
    let i = text::lemma_trim_parts(v, text::CharClass::White);
    let t = text::trim(v);
    assert(!text::is_white(v[0]));
    assert(i == 0 || t.len() == 0);
    if t.len() > 0 {
        assert(t[0] == '-');
        assert(text::lower(t)[0] == '-');
    }
    assert("rewrite"@[0] == 'r' && "source"@[0] == 's' && "off"@[0] == 'o');
    assert("none"@[0] == 'n' && "false"@[0] == 'f');
}

/// The flags of a request go into it as they are.
pub proof fn law_flags_reach_the_request(
    words: Seq<Seq<char>>,
    probes: Seq<Probe>,
    flags: Flags,
    spec: RunSpec,
)
    requires
        request(words, probes, flags, Ok(spec)),
    ensures
        spec.argv0 == flags.argv0,
        spec.subscripts == flags.subscripts,
{
}

} // verus!
