//! Running a script: what is decided before the interpreter starts.
//!
//! The checksum is tested first, over the script as it is on disk; then the
//! switches and the interpreter are settled. The interpreter is given an
//! immutable copy of the script, never the file itself.

use vstd::prelude::*;
use vstd::string::*;

use crate::checksum;
use crate::config::{Argv0, Subscripts, Switch, UnknownMode};
use crate::frontmatter;
use crate::frontmatter::{Frontmatter, Settings};
use crate::interpreter;
use crate::shebang;
use crate::text;

verus! {

/// A request to run a script.
#[derive(Debug, PartialEq, Eq)]
pub struct RunSpec {
    /// What stands before the script on the command line: an interpreter and its
    /// flags. Empty where the script is to name its interpreter.
    pub interp_override: Vec<String>,
    /// The path of the script.
    pub script: String,
    /// What stands after it.
    pub script_args: Vec<String>,
    /// The flag for `$0`, if there is one.
    pub argv0: Option<Argv0>,
    /// The flag for subscripts, if there is one.
    pub subscripts: Option<Subscripts>,
}

/// Why a script is not run.
#[derive(Debug, PartialEq, Eq)]
pub enum RunError {
    /// It does not match its checksum.
    ChecksumMismatch {
        /// The path of the script.
        script: String,
        /// The checksum that its block names.
        expected: String,
        /// Its checksum.
        actual: String,
    },
    /// Its block sets a switch to something that is no mode.
    Setting(UnknownMode),
}

/// How a script is run.
#[derive(Debug, PartialEq, Eq)]
pub struct Decision {
    /// The interpreter.
    pub interp: String,
    /// What it is given before the script.
    pub interp_args: Vec<String>,
    /// What is done about `$0`.
    pub argv0: Argv0,
    /// What is done about subscripts.
    pub subscripts: Subscripts,
}

impl RunError {
    /// The message.
    pub open spec fn says(self) -> Seq<char> {
        match self {
            RunError::ChecksumMismatch { script, expected, actual } => "checksum mismatch for `"@
                + script@ + "`\n  expected: "@ + text::trim(expected@) + "\n  actual:   "@ + actual@
                + "\nthe script on disk does not match its pinned checksum; refusing to run.\nif this change is intended, update the pin with `scriptbox pin "@
                + script@ + "`."@,
            RunError::Setting(e) => match e.switch {
                Switch::Argv0 => "frontmatter `argv0`: "@ + e.says(),
                Switch::Subscripts => "frontmatter `subscripts`: "@ + e.says(),
            },
        }
    }

    /// The message.
    pub fn message(&self) -> (r: String)
        ensures
            r@ == self.says(),
    {
        match self {
            RunError::ChecksumMismatch { script, expected, actual } => {
                let mut out = "checksum mismatch for `".to_owned();
                out.append(script.as_str());
                out.append("`\n  expected: ");
                let chars = text::chars_of(expected.as_str());
                let trimmed = text::string_of(text::strip(&chars));
                out.append(trimmed.as_str());
                out.append("\n  actual:   ");
                out.append(actual.as_str());
                out.append(
                    "\nthe script on disk does not match its pinned checksum; refusing to run.\nif this change is intended, update the pin with `scriptbox pin ",
                );
                out.append(script.as_str());
                out.append("`.");
                out
            },
            RunError::Setting(e) => {
                let mut out = match e.switch {
                    Switch::Argv0 => "frontmatter `argv0`: ".to_owned(),
                    Switch::Subscripts => "frontmatter `subscripts`: ".to_owned(),
                };
                let why = e.message();
                out.append(why.as_str());
                out
            },
        }
    }
}

// ---------------------------------------------------------------------------
// The switches and the interpreter

/// The mode for `$0`: the flag, else the block, else the default. `None` where
/// the block counts and names no mode.
pub open spec fn argv0_for(flag: Option<Argv0>, setting: Option<Seq<char>>) -> Option<Argv0> {
    match (flag, setting) {
        (Some(m), _) => Some(m),
        (None, Some(s)) => Argv0::named(s),
        (None, None) => Some(Argv0::DEFAULT),
    }
}

/// The mode for subscripts: the flag, else the block, else the default. `None`
/// where the block counts and names no mode.
pub open spec fn subscripts_for(flag: Option<Subscripts>, setting: Option<Seq<char>>) -> Option<
    Subscripts,
> {
    match (flag, setting) {
        (Some(m), _) => Some(m),
        (None, Some(s)) => Subscripts::named(s),
        (None, None) => Some(Subscripts::DEFAULT),
    }
}

/// What is wrong with a setting.
pub open spec fn bad_setting(
    e: UnknownMode,
    switch: Switch,
    setting: Option<Seq<char>>,
) -> bool {
    &&& setting is Some
    &&& e.switch == switch
    &&& e.mode@ == crate::config::plain(setting->0)
}

/// The mode for `$0`: the flag, else the block, else the default.
pub fn resolve_argv0(spec: &RunSpec, fm: &Frontmatter) -> (r: Result<Argv0, UnknownMode>)
    ensures
        match r {
            Ok(m) => argv0_for(spec.argv0, fm@.argv0) == Some(m),
            Err(e) => argv0_for(spec.argv0, fm@.argv0) is None && bad_setting(
                e,
                Switch::Argv0,
                fm@.argv0,
            ),
        },
{
    if let Some(m) = spec.argv0 {
        return Ok(m);
    }
    match &fm.argv0 {
        Some(s) => Argv0::parse(s.as_str()),
        None => Ok(Argv0::DEFAULT),
    }
}

/// The mode for subscripts: the flag, else the block, else the default.
pub fn resolve_subscripts(spec: &RunSpec, fm: &Frontmatter) -> (r: Result<
    Subscripts,
    UnknownMode,
>)
    ensures
        match r {
            Ok(m) => subscripts_for(spec.subscripts, fm@.subscripts) == Some(m),
            Err(e) => subscripts_for(spec.subscripts, fm@.subscripts) is None
                && bad_setting(e, Switch::Subscripts, fm@.subscripts),
        },
{
    if let Some(m) = spec.subscripts {
        return Ok(m);
    }
    match &fm.subscripts {
        Some(s) => Subscripts::parse(s.as_str()),
        None => Ok(Subscripts::DEFAULT),
    }
}

/// The interpreter and its flags: those on the command line, else the one that
/// the block names, else those of the `#!` line, else `/bin/sh`.
pub open spec fn command_for(
    given: Seq<Seq<char>>,
    setting: Option<Seq<char>>,
    bytes: Seq<u8>,
) -> Seq<Seq<char>> {
    if given.len() > 0 {
        given
    } else {
        match setting {
            Some(i) => seq![i],
            None => if shebang::named(bytes).len() > 0 {
                shebang::named(bytes)
            } else {
                seq!["/bin/sh"@]
            },
        }
    }
}

/// Copies of the strings from `from` on.
fn copy_from(v: &Vec<String>, from: usize) -> (r: Vec<String>)
    requires
        from <= v@.len(),
    ensures
        text::texts(r@) == text::texts(v@).skip(from as int),
{
    let mut out: Vec<String> = Vec::new();
    let mut i: usize = from;
    while i < v.len()
        invariant
            from <= i <= v@.len(),
            out@.len() == i - from,
            forall|k: int| 0 <= k < out@.len() ==> (#[trigger] out@[k])@ == v@[from + k]@,
        decreases v@.len() - i,
    {
        out.push(v[i].clone());
        i = i + 1;
    }
    assert(text::texts(out@) =~= text::texts(v@).skip(from as int));
    out
}

/// The interpreter and its flags: those on the command line, else the one that
/// the block names, else those of the `#!` line, else `/bin/sh`.
pub fn resolve_interpreter(spec: &RunSpec, fm: &Frontmatter, bytes: &[u8]) -> (r: (
    String,
    Vec<String>,
))
    ensures
        seq![r.0@] + text::texts(r.1@) == command_for(
            text::texts(spec.interp_override@),
            fm@.interpreter,
            bytes@,
        ),
{
    let ghost given = text::texts(spec.interp_override@);
    if spec.interp_override.len() > 0 {
        let first = spec.interp_override[0].clone();
        let rest = copy_from(&spec.interp_override, 1);
        assert(seq![first@] + text::texts(rest@) =~= given);
        return (first, rest);
    }
    let none: Vec<String> = Vec::new();
    assert(text::texts(none@) =~= seq![]);
    if let Some(i) = &fm.interpreter {
        let r = i.clone();
        assert(seq![r@] + text::texts(none@) =~= seq![i@]);
        return (r, none);
    }
    if let Some(s) = shebang::parse(bytes) {
        return (s.interpreter, s.args);
    }
    assert(seq!["/bin/sh"@] + text::texts(none@) =~= seq!["/bin/sh"@]);
    ("/bin/sh".to_owned(), none)
}

// ---------------------------------------------------------------------------
// The decision

/// Whether a checksum that a block names lets the script run, whose checksum is
/// `actual`.
pub open spec fn passes(expected: Option<Seq<char>>, actual: Seq<char>) -> bool {
    match expected {
        Some(e) => checksum::pin_core(e) == checksum::pin_core(actual),
        None => true,
    }
}

/// What a decision owes to the request, to the settings of the block, to the
/// script and to its checksum. The checksum comes first, then the setting for
/// `$0`, then that for subscripts.
pub open spec fn decided(
    r: Result<Decision, RunError>,
    spec: RunSpec,
    fm: Settings,
    actual: Seq<char>,
    bytes: Seq<u8>,
) -> bool {
    let argv0 = argv0_for(spec.argv0, fm.argv0);
    let subscripts = subscripts_for(spec.subscripts, fm.subscripts);
    match r {
        Err(RunError::ChecksumMismatch { script, expected, actual: found }) => {
            &&& !passes(fm.checksum, actual)
            &&& script@ == spec.script@
            &&& fm.checksum == Some(expected@)
            &&& found@ == actual
        },
        Err(RunError::Setting(e)) => {
            &&& passes(fm.checksum, actual)
            &&& if argv0 is None {
                bad_setting(e, Switch::Argv0, fm.argv0)
            } else {
                subscripts is None && bad_setting(
                    e,
                    Switch::Subscripts,
                    fm.subscripts,
                )
            }
        },
        Ok(d) => {
            &&& passes(fm.checksum, actual)
            &&& argv0 == Some(d.argv0)
            &&& subscripts == Some(d.subscripts)
            &&& seq![d.interp@] + text::texts(d.interp_args@) == command_for(
                text::texts(spec.interp_override@),
                fm.interpreter,
                bytes,
            )
        },
    }
}

/// Decide how the script `bytes` is run, whose block is `fm` and whose checksum
/// is `actual`.
pub fn decide(spec: &RunSpec, fm: &Frontmatter, actual: &str, bytes: &[u8]) -> (r: Result<
    Decision,
    RunError,
>)
    ensures
        decided(r, *spec, fm@, actual@, bytes@),
{
    if let Some(expected) = &fm.checksum {
        if !checksum::pins_match(expected.as_str(), actual) {
            return Err(
                RunError::ChecksumMismatch {
                    script: spec.script.clone(),
                    expected: expected.clone(),
                    actual: actual.to_owned(),
                },
            );
        }
    }
    let argv0 = match resolve_argv0(spec, fm) {
        Ok(m) => m,
        Err(e) => {
            return Err(RunError::Setting(e));
        },
    };
    let subscripts = match resolve_subscripts(spec, fm) {
        Ok(m) => m,
        Err(e) => {
            return Err(RunError::Setting(e));
        },
    };
    let (interp, interp_args) = resolve_interpreter(spec, fm, bytes);
    Ok(Decision { interp, interp_args, argv0, subscripts })
}

/// Decide how the script `bytes` is run.
pub fn plan(spec: &RunSpec, bytes: &[u8]) -> (r: Result<Decision, RunError>)
    ensures
        decided(
            r,
            *spec,
            frontmatter::settings(text::utf8_lossy(bytes@)),
            checksum::script_pin(bytes@),
            bytes@,
        ),
{
    let fm = frontmatter::parse(bytes);
    let actual = checksum::pin_of(bytes);
    decide(spec, &fm, actual.as_str(), bytes)
}

/// The words that the interpreter is given: its own flags, then what makes it
/// read the copy at `copy`, then the arguments of the script. With
/// [`Argv0::Source`] it reads the copy by the dot command, under the name
/// `source`; else it runs the copy.
pub open spec fn argv(
    argv0: Argv0,
    flags: Seq<Seq<char>>,
    copy: Seq<char>,
    source: Seq<char>,
    args: Seq<Seq<char>>,
) -> Seq<Seq<char>> {
    flags + (if argv0 == Argv0::Source {
        seq!["-c"@, ". "@ + interpreter::squoted(copy) + " \"$@\""@, source]
    } else {
        seq![copy]
    }) + args
}

/// The words that the interpreter is given.
pub fn build_argv(d: &Decision, copy: &str, source: &str, args: &Vec<String>) -> (r: Vec<String>)
    ensures
        text::texts(r@) == argv(
            d.argv0,
            text::texts(d.interp_args@),
            copy@,
            source@,
            text::texts(args@),
        ),
{
    let mut out = copy_from(&d.interp_args, 0);
    let ghost flags = text::texts(d.interp_args@);
    assert(flags.skip(0) =~= flags);
    if d.argv0 == Argv0::Source {
        out.push("-c".to_owned());
        let mut command = ". ".to_owned();
        let quoted = interpreter::shell_squote(copy);
        command.append(quoted.as_str());
        command.append(" \"$@\"");
        out.push(command);
        out.push(source.to_owned());
    } else {
        out.push(copy.to_owned());
    }
    let ghost start = text::texts(out@);
    assert(start =~= argv(d.argv0, flags, copy@, source@, seq![]));
    let mut i: usize = 0;
    assert(text::texts(out@) =~= start + text::texts(args@).take(0));
    while i < args.len()
        invariant
            i <= args@.len(),
            text::texts(out@) == start + text::texts(args@).take(i as int),
        decreases args@.len() - i,
    {
        let ghost before = out@;
        let arg = args[i].clone();
        out.push(arg);
        assert(text::texts(out@) =~= text::texts(before).push(arg@));
        i = i + 1;
        assert(text::texts(out@) =~= start + text::texts(args@).take(i as int));
    }
    assert(text::texts(out@) =~= argv(d.argv0, flags, copy@, source@, text::texts(args@)));
    out
}

/// The bytes of the copy that the interpreter reads: the script, with `$0` reset
/// where that was decided.
pub fn serve(d: &Decision, bytes: &[u8], source: &str) -> (r: Vec<u8>)
    ensures
        r@ == interpreter::prepared(bytes@, d.interp@, source@, d.argv0 == Argv0::Rewrite),
{
    interpreter::prepare_bytes(bytes, d.interp.as_str(), source, d.argv0 == Argv0::Rewrite)
}

// ---------------------------------------------------------------------------
// Laws

/// A flag beats the block, whatever the block says, and the block beats the
/// default.
pub proof fn law_flag_beats_block_beats_default(
    argv0: Argv0,
    subscripts: Subscripts,
    setting: Option<Seq<char>>,
    value: Seq<char>,
)
    ensures
        argv0_for(Some(argv0), setting) == Some(argv0),
        argv0_for(None, Some(value)) == Argv0::named(value),
        argv0_for(None, None) == Some(Argv0::Rewrite),
        subscripts_for(Some(subscripts), setting) == Some(subscripts),
        subscripts_for(None, Some(value)) == Subscripts::named(value),
        subscripts_for(None, None) == Some(Subscripts::Off),
{
}

/// The interpreter on the command line beats the one of the block, which beats
/// that of the `#!` line, which beats `/bin/sh`.
pub proof fn law_interpreter_precedence(
    given: Seq<Seq<char>>,
    setting: Option<Seq<char>>,
    bytes: Seq<u8>,
)
    ensures
        given.len() > 0 ==> command_for(given, setting, bytes) == given,
        given.len() == 0 && setting is Some ==> command_for(given, setting, bytes)
            == seq![setting->0],
        given.len() == 0 && setting is None && shebang::named(bytes).len() > 0 ==> command_for(
            given,
            setting,
            bytes,
        ) == shebang::named(bytes),
        given.len() == 0 && setting is None && shebang::named(bytes).len() == 0 ==> command_for(
            given,
            setting,
            bytes,
        ) == seq!["/bin/sh"@],
{
}

/// A script whose block names another checksum is refused, whatever else is
/// asked for, and one that is run has no checksum or matches it.
pub proof fn law_a_script_that_drifted_is_refused(
    r: Result<Decision, RunError>,
    spec: RunSpec,
    fm: Settings,
    actual: Seq<char>,
    bytes: Seq<u8>,
)
    requires
        decided(r, spec, fm, actual, bytes),
    ensures
        !passes(fm.checksum, actual) <==> r is Err && r->Err_0 is ChecksumMismatch,
        r is Ok ==> passes(fm.checksum, actual),
{
}

/// A script that was pinned and then changed outside its block does not pass,
/// unless the change keeps the digest; one that was changed inside its block, or
/// not at all, passes.
pub proof fn law_pins_guard_what_is_outside_the_block(
    pinned: Seq<u8>,
    now: Seq<u8>,
    expected: Seq<char>,
)
    requires
        checksum::pin_core(expected) == checksum::pin_core(checksum::script_pin(pinned)),
    ensures
        passes(Some(expected), checksum::script_pin(now)) <==> checksum::sha256(
            checksum::pinned_bytes(now),
        ) == checksum::sha256(checksum::pinned_bytes(pinned)),
        checksum::pinned_bytes(now) == checksum::pinned_bytes(pinned) ==> passes(
            Some(expected),
            checksum::script_pin(now),
        ),
{
    let a = checksum::sha256(checksum::pinned_bytes(pinned));
    let b = checksum::sha256(checksum::pinned_bytes(now));
    if a != b {
        checksum::law_pins_of_other_digests_do_not_match(a, b);
    }
}

/// The arguments of the script come last, as they were given.
pub proof fn law_arguments_pass_through(
    argv0: Argv0,
    flags: Seq<Seq<char>>,
    copy: Seq<char>,
    source: Seq<char>,
    args: Seq<Seq<char>>,
)
    ensures
        args.is_suffix_of(argv(argv0, flags, copy, source, args)),
        flags.is_prefix_of(argv(argv0, flags, copy, source, args)),
{
    let all = argv(argv0, flags, copy, source, args);
    assert(all.subrange(all.len() - args.len(), all.len() as int) =~= args);
    assert(all.subrange(0, flags.len() as int) =~= flags);
}

/// With the dot command, `$0` is the real path, and the word after the dot is the
/// path of the copy.
pub proof fn law_dot_command_names_the_script(
    flags: Seq<Seq<char>>,
    copy: Seq<char>,
    source: Seq<char>,
    args: Seq<Seq<char>>,
)
    ensures
        ({
            let all = argv(Argv0::Source, flags, copy, source, args);
            let n = flags.len() as int;
            &&& all[n] == "-c"@
            &&& all[n + 1] == ". "@ + interpreter::squoted(copy) + " \"$@\""@
            &&& interpreter::shell_reading(interpreter::squoted(copy), false) == Some(copy)
            &&& all[n + 2] == source
        }),
{
    interpreter::law_quoted_text_reads_back(copy);
}

/// A flag on the command line decides how a script is run, whatever its block
/// says; without one the block does, and without that the default.
pub proof fn law_the_flag_decides_the_run(
    words: Seq<Seq<char>>,
    probes: Seq<crate::cli::Probe>,
    flags: crate::cli::Flags,
    spec: RunSpec,
    d: Decision,
    fm: Settings,
    actual: Seq<char>,
    bytes: Seq<u8>,
)
    requires
        crate::cli::request(words, probes, flags, Ok(spec)),
        decided(Ok(d), spec, fm, actual, bytes),
    ensures
        flags.subscripts matches Some(m) ==> d.subscripts == m,
        flags.argv0 matches Some(m) ==> d.argv0 == m,
        flags.subscripts is None && fm.subscripts is Some ==> Subscripts::named(fm.subscripts->0)
            == Some(d.subscripts),
        flags.argv0 is None && fm.argv0 is Some ==> Argv0::named(fm.argv0->0) == Some(d.argv0),
        flags.subscripts is None && fm.subscripts is None ==> d.subscripts == Subscripts::Off,
        flags.argv0 is None && fm.argv0 is None ==> d.argv0 == Argv0::Rewrite,
        text::texts(spec.interp_override@).len() > 0 ==> seq![d.interp@] + text::texts(
            d.interp_args@,
        ) == text::texts(spec.interp_override@),
        text::texts(spec.interp_override@).len() == 0 && fm.interpreter is Some ==> d.interp@
            == fm.interpreter->0 && d.interp_args@.len() == 0,
{
    let given = text::texts(spec.interp_override@);
    if given.len() == 0 && fm.interpreter is Some {
        let all = seq![d.interp@] + text::texts(d.interp_args@);
        assert(all[0] == d.interp@);
        assert(all.len() == 1 + d.interp_args@.len());
    }
}

/// A script without a checksum passes, one with a checksum passes just where it
/// names the digits of the pin, with or without the `sha256:` before them.
pub proof fn law_what_passes(digest: Seq<u8>, other: Seq<u8>)
    ensures
        passes(None, checksum::pin_text(digest)),
        passes(Some(checksum::pin_text(other)), checksum::pin_text(digest)) <==> other == digest,
        passes(Some(text::hex(other)), checksum::pin_text(digest)) <==> other == digest,
{
    if other != digest {
        checksum::law_pins_of_other_digests_do_not_match(other, digest);
    }
    checksum::lemma_lower_hex(other);
    checksum::law_matching_tolerates_prefix_and_case(other, text::hex(other));
}

/// Where `$0` is not made by the dot command, the interpreter is given its own
/// flags, the copy and the arguments of the script, and nothing else.
pub proof fn law_the_copy_is_run(
    argv0: Argv0,
    flags: Seq<Seq<char>>,
    copy: Seq<char>,
    source: Seq<char>,
    args: Seq<Seq<char>>,
)
    requires
        argv0 != Argv0::Source,
    ensures
        argv(argv0, flags, copy, source, args) == flags.push(copy) + args,
        argv(Argv0::Source, flags, copy, source, args).len() == flags.len() + 3 + args.len(),
{
    assert(argv(argv0, flags, copy, source, args) =~= flags.push(copy) + args);
}

/// A checksum lets a script run just where it is the digits of the script's digest,
/// with or without `sha256:` before them, whatever the case of the letters and with
/// white space around it. Nothing else does, an empty checksum included.
pub proof fn law_which_checksums_let_a_script_run(expected: Seq<char>, digest: Seq<u8>)
    requires
        digest.len() > 0,
    ensures
        passes(Some(expected), checksum::pin_text(digest)) <==> crate::config::says(
            expected,
            text::hex(digest),
        ) || crate::config::says(expected, "sha256:"@ + text::hex(digest)),
{
    reveal_strlit("sha256:");
    let digits = text::hex(digest);
    let long = "sha256:"@ + digits;
    checksum::lemma_hex_chars(digest);
    checksum::lemma_lower_hex(digest);
    checksum::law_matching_tolerates_prefix_and_case(digest, digits);
    assert forall|k: int| 0 <= k < digits.len() implies !text::is_white(#[trigger] digits[k])
        && !('A' <= digits[k] <= 'Z') by {
        assert('0' <= digits[k] <= '9' || 'a' <= digits[k] <= 'f');
    }
    assert forall|k: int| 0 <= k < long.len() implies !text::is_white(#[trigger] long[k]) && !('A'
        <= long[k] <= 'Z') by {
        if k >= 7 {
            assert(long[k] == digits[k - 7]);
        }
    }
    crate::config::lemma_plain(expected, digits);
    crate::config::lemma_plain(expected, long);
    let p = crate::config::plain(expected);
    assert(long.subrange(0, 7) =~= "sha256:"@);
    assert(long.skip(7) =~= digits);
    if "sha256:"@.is_prefix_of(digits) {
        assert(digits.subrange(0, 7)[0] == digits[0]);
        assert('0' <= digits[0] <= '9' || 'a' <= digits[0] <= 'f');
    }
    if "sha256:"@.is_prefix_of(p) && p.skip(7) == digits {
        assert(p =~= long);
    }
}

} // verus!
