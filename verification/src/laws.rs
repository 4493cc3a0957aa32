//! What the operations of the library do, stated of what they are given and what
//! they return.
//!
//! The laws of the single modules say what the notions mean in which the contracts
//! are written; those here say that the operations go by them.

use vstd::prelude::*;
use vstd::utf8::*;

use crate::cache;
use crate::checksum;
use crate::cli;
use crate::config::{Argv0, Subscripts, Switch, UnknownMode};
use crate::expansions;
use crate::freezer;
use crate::frontmatter;
use crate::interpreter;
use crate::loader;
use crate::parser;
use crate::pin;
use crate::rewrite;
use crate::run;
use crate::shebang;
use crate::shell;
use crate::sites;
use crate::subscripts;
use crate::substitutions;
use crate::text;

verus! {

// ---------------------------------------------------------------------------
// The command line

/// The first word says what is asked for; without a word that is a subcommand or
/// asks for help or the version, a script is to be run.
pub proof fn law_what_is_asked_for(
    args: &Vec<String>,
    r: Result<cli::Request, cli::CliError>,
)
    requires
        call_ensures(cli::parse_command, (args,), r),
    ensures
        args@.len() == 0 <==> r == Err::<cli::Request, cli::CliError>(cli::CliError::Empty),
        args@.len() > 0 ==> ({
            let first = args@[0]@;
            &&& first == "--version"@ || first == "-V"@ ==> r == Ok::<cli::Request, cli::CliError>(
                cli::Request::Version,
            )
            &&& first == "--help"@ || first == "-h"@ ==> r == Ok::<cli::Request, cli::CliError>(
                cli::Request::Help,
            )
            &&& first == "gc"@ ==> r == Ok::<cli::Request, cli::CliError>(cli::Request::Gc)
            &&& first == "hash"@ && args@.len() > 1 ==> (r matches Ok(cli::Request::Hash(p))
                && p@ == args@[1]@)
            &&& first == "pin"@ && args@.len() > 1 ==> (r matches Ok(cli::Request::Pin(p))
                && p@ == args@[1]@)
            &&& first == "hash"@ && args@.len() == 1 ==> (r matches Err(cli::CliError::NoPath(s))
                && s@ == "hash"@)
            &&& first == "pin"@ && args@.len() == 1 ==> (r matches Err(cli::CliError::NoPath(s))
                && s@ == "pin"@)
            &&& first != "--version"@ && first != "-V"@ && first != "--help"@ && first != "-h"@
                && first != "gc"@ && first != "hash"@ && first != "pin"@ ==> r == Ok::<
                cli::Request,
                cli::CliError,
            >(cli::Request::Run)
        }),
{
    reveal_strlit("--version");
    reveal_strlit("-V");
    reveal_strlit("--help");
    reveal_strlit("-h");
    reveal_strlit("gc");
    reveal_strlit("hash");
    reveal_strlit("pin");
    assert("--version"@.len() == 9 && "-V"@.len() == 2 && "--help"@.len() == 6 && "-h"@.len() == 2);
    assert("gc"@.len() == 2 && "hash"@.len() == 4 && "pin"@.len() == 3);
    assert("-V"@[0] == '-' && "-h"@[0] == '-' && "gc"@[0] == 'g' && "-V"@[1] == 'V' && "-h"@[1]
        == 'h');
    if args@.len() > 0 {
        assert(text::texts(args@)[0] == args@[0]@);
    }
    if args@.len() > 1 {
        assert(text::texts(args@)[1] == args@[1]@);
    }
}

/// The flags that are read are those that the words come to, and what is wrong with
/// them is said.
pub proof fn law_what_the_flags_are(
    args: &Vec<String>,
    r: Result<cli::Flags, cli::CliError>,
)
    requires
        call_ensures(cli::parse_flags, (args,), r),
    ensures
        match cli::flags_in(text::texts(args@), 0, None, None) {
            cli::FlagsModel::Modes(a, s, n) => r is Ok && (r->Ok_0).argv0 == a && (
            r->Ok_0).subscripts == s && (r->Ok_0).words == n && n <= args@.len(),
            cli::FlagsModel::NoMode => r == Err::<cli::Flags, cli::CliError>(cli::CliError::NoMode),
            cli::FlagsModel::NoSuchMode(switch, mode) => r matches Err(cli::CliError::Mode(e))
                && e.switch == switch && e.mode@ == text::lower(text::trim(mode)),
        },
{
}

/// After the flags, the first word that is a file and no compiled program is the
/// script; the words before it are the interpreter, those after it are for the
/// script, and the flags are kept.
pub proof fn law_what_is_run(
    args: &Vec<String>,
    flags: &cli::Flags,
    probes: &Vec<cli::Probe>,
    r: Result<run::RunSpec, cli::CliError>,
)
    requires
        probes@.len() == args@.len(),
        flags.words <= args@.len(),
        call_ensures(cli::dispatch_run, (args, flags, probes), r),
    ensures
        (forall|k: int|
            flags.words <= k < args@.len() ==> !(#[trigger] probes@[k]).is_file
                || cli::program_magic(probes@[k].start@)) ==> (r matches Err(
            cli::CliError::NoScript(rest),
        ) && text::texts(rest@) == text::texts(args@).skip(flags.words as int)),
        forall|at: int|
            #![trigger probes@[at]]
            flags.words <= at < args@.len() && probes@[at].is_file && !cli::program_magic(
                probes@[at].start@,
            ) && (forall|k: int|
                flags.words <= k < at ==> !(#[trigger] probes@[k]).is_file || cli::program_magic(
                    probes@[k].start@,
                )) ==> r is Ok && (r->Ok_0).script@ == args@[at]@ && text::texts(
                (r->Ok_0).interp_override@,
            ) == text::texts(args@).subrange(flags.words as int, at) && text::texts(
                (r->Ok_0).script_args@,
            ) == text::texts(args@).skip(at + 1) && (r->Ok_0).argv0 == flags.argv0 && (
            r->Ok_0).subscripts == flags.subscripts,
{
    cli::law_the_first_script_is_taken(probes@, flags.words as int);
    let first = cli::first_script(probes@, flags.words as int);
    assert forall|at: int|
        #![trigger probes@[at]]
        flags.words <= at < args@.len() && probes@[at].is_file && !cli::program_magic(
            probes@[at].start@,
        ) && (forall|k: int|
            flags.words <= k < at ==> !(#[trigger] probes@[k]).is_file || cli::program_magic(
                probes@[k].start@,
            )) implies at == first && text::texts(args@)[at] == args@[at]@ by {
        if first < at {
            assert(cli::is_script(probes@[first]));
        } else if at < first {
            assert(!probes@[at].is_file || cli::program_magic(probes@[at].start@));
        }
    }
    if forall|k: int|
        flags.words <= k < args@.len() ==> !(#[trigger] probes@[k]).is_file || cli::program_magic(
            probes@[k].start@,
        ) {
        if first < args@.len() {
            assert(cli::is_script(probes@[first]));
        }
    }
}

/// A file is a compiled program just where it starts with one of the magic numbers
/// of ELF and Mach-O.
pub proof fn law_what_a_compiled_program_is(start: &[u8], r: bool)
    requires
        call_ensures(cli::is_program_binary, (start,), r),
    ensures
        r == cli::program_magic(start@),
        r ==> start@.len() >= 4,
        start@.len() >= 4 ==> (r <==> seq![
            seq![0x7fu8, 0x45, 0x4c, 0x46],
            seq![0xfeu8, 0xed, 0xfa, 0xce],
            seq![0xfeu8, 0xed, 0xfa, 0xcf],
            seq![0xceu8, 0xfa, 0xed, 0xfe],
            seq![0xcfu8, 0xfa, 0xed, 0xfe],
            seq![0xcau8, 0xfe, 0xba, 0xbe],
            seq![0xbeu8, 0xba, 0xfe, 0xca],
        ].contains(start@.take(4))),
{
    let all = seq![
        seq![0x7fu8, 0x45, 0x4c, 0x46],
        seq![0xfeu8, 0xed, 0xfa, 0xce],
        seq![0xfeu8, 0xed, 0xfa, 0xcf],
        seq![0xceu8, 0xfa, 0xed, 0xfe],
        seq![0xcfu8, 0xfa, 0xed, 0xfe],
        seq![0xcau8, 0xfe, 0xba, 0xbe],
        seq![0xbeu8, 0xba, 0xfe, 0xca],
    ];
    assert(all[0] == seq![0x7fu8, 0x45, 0x4c, 0x46]);
    assert(all[1] == seq![0xfeu8, 0xed, 0xfa, 0xce]);
    assert(all[2] == seq![0xfeu8, 0xed, 0xfa, 0xcf]);
    assert(all[3] == seq![0xceu8, 0xfa, 0xed, 0xfe]);
    assert(all[4] == seq![0xcfu8, 0xfa, 0xed, 0xfe]);
    assert(all[5] == seq![0xcau8, 0xfe, 0xba, 0xbe]);
    assert(all[6] == seq![0xbeu8, 0xba, 0xfe, 0xca]);
}

// ---------------------------------------------------------------------------
// Switches, blocks and interpreters

/// A mode is read by its name, and what is no mode is given back.
pub proof fn law_modes_are_read(
    s: &str,
    a: Result<Argv0, UnknownMode>,
    b: Result<Subscripts, UnknownMode>,
    m: Subscripts,
    needs: bool,
)
    requires
        call_ensures(Argv0::parse, (s,), a),
        call_ensures(Subscripts::parse, (s,), b),
        call_ensures(Subscripts::needs_parser, (m,), needs),
    ensures
        Argv0::named(s@) matches Some(x) ==> a == Ok::<Argv0, UnknownMode>(x),
        Argv0::named(s@) is None ==> a is Err && (a->Err_0).switch == Switch::Argv0 && (
        a->Err_0).mode@ == text::lower(text::trim(s@)),
        Subscripts::named(s@) matches Some(x) ==> b == Ok::<Subscripts, UnknownMode>(x),
        Subscripts::named(s@) is None ==> b is Err && (b->Err_0).switch == Switch::Subscripts && (
        b->Err_0).mode@ == text::lower(text::trim(s@)),
        needs <==> m == Subscripts::Report || m == Subscripts::Freeze,
{
}

/// The block of a script that is text is read from that text.
pub proof fn law_the_block_is_read(bytes: &[u8], s: Seq<char>, r: frontmatter::Frontmatter)
    requires
        bytes@ == encode_utf8(s),
        call_ensures(frontmatter::parse, (bytes,), r),
    ensures
        frontmatter::opt(r.interpreter) == frontmatter::setting(s, "interpreter"@),
        frontmatter::opt(r.checksum) == frontmatter::setting(s, "checksum"@),
        frontmatter::opt(r.argv0) == frontmatter::setting(s, "argv0"@),
        frontmatter::opt(r.subscripts) == frontmatter::setting(s, "subscripts"@),
{
    encode_utf8_valid_utf8(s);
    encode_utf8_decode_utf8(s);
}

/// The interpreter of the `#!` line and its arguments are the words that it names.
pub proof fn law_the_shebang_is_read(bytes: &[u8], r: Option<shebang::Shebang>)
    requires
        call_ensures(shebang::parse, (bytes,), r),
    ensures
        r is None <==> shebang::named(bytes@).len() == 0,
        r matches Some(s) ==> s.interpreter@ == shebang::named(bytes@)[0] && text::texts(s.args@)
            == shebang::named(bytes@).skip(1),
{
    if let Some(s) = r {
        let all = seq![s.interpreter@] + text::texts(s.args@);
        assert(all[0] == s.interpreter@);
        assert(all.skip(1) =~= text::texts(s.args@));
    }
}

/// What is decided is decided by the request, the block, the pin and the script.
pub proof fn law_what_is_decided(
    spec: &run::RunSpec,
    fm: &frontmatter::Frontmatter,
    actual: &str,
    bytes: &[u8],
    s: Seq<char>,
    r: Result<run::Decision, run::RunError>,
    planned: Result<run::Decision, run::RunError>,
)
    requires
        call_ensures(run::decide, (spec, fm, actual, bytes), r),
        call_ensures(run::plan, (spec, bytes), planned),
    ensures
        run::decided(r, *spec, fm@, actual@, bytes@),
        run::decided(
            planned,
            *spec,
            frontmatter::settings(text::utf8_lossy(bytes@)),
            checksum::script_pin(bytes@),
            bytes@,
        ),
{
}

/// A script that may run and has no setting that is no mode is run; one that may
/// not run is refused, with its path and both pins.
pub proof fn law_who_is_run_and_who_is_refused(
    r: Result<run::Decision, run::RunError>,
    spec: run::RunSpec,
    fm: frontmatter::Settings,
    digest: Seq<u8>,
    bytes: Seq<u8>,
)
    requires
        run::decided(r, spec, fm, checksum::pin_text(digest), bytes),
    ensures
        (fm.checksum is None || fm.checksum == Some(checksum::pin_text(digest)) || fm.checksum
            == Some(text::hex(digest))) && (spec.argv0 is Some || fm.argv0 is None || Argv0::named(
            fm.argv0->0,
        ) is Some) && (spec.subscripts is Some || fm.subscripts is None || Subscripts::named(
            fm.subscripts->0,
        ) is Some) ==> r is Ok,
        forall|other: Seq<u8>|
            other != digest && fm.checksum == Some(#[trigger] checksum::pin_text(other)) ==> (
            r matches Err(run::RunError::ChecksumMismatch { script, expected, actual }) && script@
                == spec.script@ && expected@ == checksum::pin_text(other) && actual@
                == checksum::pin_text(digest)),
        spec.argv0 is None && fm.checksum is None && fm.argv0 is Some && Argv0::named(fm.argv0->0)
            is None ==> (r matches Err(run::RunError::Setting(e)) && e.switch == Switch::Argv0),
{
    run::law_what_passes(digest, digest);
    assert forall|other: Seq<u8>|
        other != digest && fm.checksum == Some(#[trigger] checksum::pin_text(other)) implies (
    r matches Err(run::RunError::ChecksumMismatch { script, expected, actual }) && script@
        == spec.script@ && expected@ == checksum::pin_text(other) && actual@ == checksum::pin_text(
        digest,
    )) by {
        run::law_what_passes(digest, other);
    }
}

/// The interpreter is given its flags, the copy and the arguments, and the copy
/// holds the script with `$0` reset just where that was decided.
pub proof fn law_what_the_interpreter_is_given(
    d: &run::Decision,
    copy: &str,
    source: &str,
    args: &Vec<String>,
    bytes: &[u8],
    words: Vec<String>,
    served: Vec<u8>,
)
    requires
        call_ensures(run::build_argv, (d, copy, source, args), words),
        call_ensures(run::serve, (d, bytes, source), served),
    ensures
        d.argv0 != Argv0::Source ==> text::texts(words@) == text::texts(d.interp_args@).push(copy@)
            + text::texts(args@),
        d.argv0 == Argv0::Source ==> exists|word: Seq<char>|
            interpreter::shell_reading(word, false) == Some(copy@) && text::texts(words@)
                == text::texts(d.interp_args@) + seq![
                "-c"@,
                #[trigger] (". "@ + word + " \"$@\""@),
                source@,
            ] + text::texts(args@),
        d.argv0 != Argv0::Rewrite ==> served@ == bytes@,
        d.argv0 == Argv0::Rewrite ==> served@ == interpreter::prepared(
            bytes@,
            d.interp@,
            source@,
            true,
        ),
{
    if d.argv0 != Argv0::Source {
        run::law_the_copy_is_run(
            d.argv0,
            text::texts(d.interp_args@),
            copy@,
            source@,
            text::texts(args@),
        );
    } else {
        let word = interpreter::squoted(copy@);
        interpreter::law_quoted_text_reads_back(copy@);
        assert(text::texts(words@) == text::texts(d.interp_args@) + seq![
            "-c"@,
            ". "@ + word + " \"$@\""@,
            source@,
        ] + text::texts(args@));
    }
    if d.argv0 != Argv0::Rewrite {
        interpreter::law_other_scripts_are_served_verbatim(bytes@, d.interp@, source@, false);
    }
}

/// A shell reads a quoted text as the text, and bytes are prepared as stated.
pub proof fn law_quoting_and_preparing(
    s: &str,
    quoted: String,
    original: &[u8],
    interp: &str,
    path: &str,
    rewrite: bool,
    r: Vec<u8>,
)
    requires
        call_ensures(interpreter::shell_squote, (s,), quoted),
        call_ensures(interpreter::prepare_bytes, (original, interp, path, rewrite), r),
    ensures
        interpreter::shell_reading(quoted@, false) == Some(s@),
        r@ == interpreter::prepared(original@, interp@, path@, rewrite),
        !rewrite ==> r@ == original@,
{
    interpreter::law_quoted_text_reads_back(s@);
}

// ---------------------------------------------------------------------------
// Pins

/// A pin covers the script without its block, or exactly the bytes; pins match
/// where their digits do.
pub proof fn law_what_pins_say(
    bytes: &[u8],
    whole: String,
    script: String,
    covered: Vec<u8>,
    expected: &str,
    actual: &str,
    same: bool,
)
    requires
        call_ensures(checksum::sha256_pin, (bytes,), whole),
        call_ensures(checksum::pin_of, (bytes,), script),
        call_ensures(checksum::digest_input, (bytes,), covered),
        call_ensures(checksum::pins_match, (expected, actual), same),
    ensures
        whole@ == "sha256:"@ + text::hex(checksum::sha256(bytes@)),
        script@ == "sha256:"@ + text::hex(checksum::sha256(covered@)),
        !valid_utf8(bytes@) ==> covered@ == bytes@,
        forall|s: Seq<char>|
            bytes@ == #[trigger] encode_utf8(s) ==> covered@ == encode_utf8(
                checksum::without_block(s),
            ),
        forall|a: Seq<u8>, b: Seq<u8>|
            expected@ == #[trigger] checksum::pin_text(a) && actual@ == #[trigger]
            checksum::pin_text(b) ==> (same <==> a == b),
        expected@ == actual@ ==> same,
{
    assert forall|s: Seq<char>| bytes@ == #[trigger] encode_utf8(s) implies covered@
        == encode_utf8(checksum::without_block(s)) by {
        checksum::lemma_pinned_text(s);
    }
    assert forall|a: Seq<u8>, b: Seq<u8>|
        expected@ == #[trigger] checksum::pin_text(a) && actual@ == #[trigger] checksum::pin_text(
            b,
        ) implies (same <==> a == b) by {
        if a != b {
            checksum::law_pins_of_other_digests_do_not_match(a, b);
        }
    }
}

/// What is printed for a script that is text is a whole block with its pin where no
/// line opens a block or none closes one, and just the line with its pin where one
/// does.
pub proof fn law_what_is_printed(bytes: &[u8], s: Seq<char>, r: String, p: String)
    requires
        bytes@ == encode_utf8(s),
        call_ensures(pin::pin_block, (bytes,), r),
        call_ensures(checksum::pin_of, (bytes,), p),
    ensures
        (forall|i: int|
            0 <= i < text::lines(s).len() ==> frontmatter::comment_body(
                #[trigger] text::lines(s)[i],
            ) != Some("/// scriptbox"@)) ==> r@ == "# /// scriptbox\n# checksum = \""@ + p@
            + "\"\n# ///\n"@,
        (forall|i: int|
            0 <= i < text::lines(s).len() ==> frontmatter::comment_body(
                #[trigger] text::lines(s)[i],
            ) != Some("///"@)) ==> r@ == "# /// scriptbox\n# checksum = \""@ + p@
            + "\"\n# ///\n"@,
        forall|i: int, j: int|
            0 <= i < j < text::lines(s).len() && frontmatter::comment_body(
                #[trigger] text::lines(s)[i],
            ) == Some("/// scriptbox"@) && frontmatter::comment_body(#[trigger] text::lines(s)[j])
                == Some("///"@) ==> r@ == "# checksum = \""@ + p@ + "\"\n"@,
{
    encode_utf8_valid_utf8(s);
    encode_utf8_decode_utf8(s);
    pin::law_only_a_block_gets_just_the_line(s, p@);
}

// ---------------------------------------------------------------------------
// Snapshots and caches

/// A script that is not in the cache runs as it is on disk, and is recorded with
/// its pin; one that is there runs as it is there, whatever is on disk, if it
/// matches its pin, and not at all if it does not.
pub proof fn law_what_a_script_runs_as(
    path: &[u8],
    snapshot: Option<Vec<u8>>,
    recorded: &str,
    disk: &[u8],
    r: Result<cache::Snapshot, cache::Tampered>,
)
    requires
        call_ensures(cache::frozen_bytes, (path, snapshot, recorded, disk), r),
    ensures
        snapshot is None ==> r is Ok && (r->Ok_0).bytes@ == disk@ && (r->Ok_0).record is Some && (
        r->Ok_0).record->0@ == "sha256:"@ + text::hex(checksum::sha256(disk@)),
        snapshot is Some && cache::intact(snapshot->0@, recorded@) ==> r is Ok && (r->Ok_0).bytes@
            == snapshot->0@ && (r->Ok_0).record is None,
        snapshot is Some && !cache::intact(snapshot->0@, recorded@) ==> r is Err && (
        r->Err_0).path@ == path@ && (r->Err_0).actual@ == "sha256:"@ + text::hex(
            checksum::sha256(snapshot->0@),
        ),
{
}

/// What was recorded when a script was first met is what later meetings run,
/// whatever is on disk by then.
pub proof fn law_a_tree_runs_on_one_set_of_bytes(
    path: &[u8],
    recorded: &str,
    disk: &[u8],
    first: Result<cache::Snapshot, cache::Tampered>,
    stored: Option<Vec<u8>>,
    kept: &str,
    later: &[u8],
    second: Result<cache::Snapshot, cache::Tampered>,
)
    requires
        call_ensures(cache::frozen_bytes, (path, None::<Vec<u8>>, recorded, disk), first),
        first is Ok,
        stored is Some && stored->0@ == (first->Ok_0).bytes@,
        (first->Ok_0).record is Some && kept@ == (first->Ok_0).record->0@,
        call_ensures(cache::frozen_bytes, (path, stored, kept, later), second),
    ensures
        second is Ok,
        (second->Ok_0).bytes@ == disk@,
{
    cache::law_snapshots_read_back(disk@);
}

/// A directory is cleared away when its process is gone and it has not changed for
/// a while, or nobody knows for how long.
pub proof fn law_what_is_stale(alive: bool, age: Option<u64>, r: bool)
    requires
        call_ensures(cache::is_stale, (alive, age), r),
    ensures
        alive ==> !r,
        !alive && age is None ==> r,
        !alive && age is Some ==> (r <==> age->0 >= 30),
{
}

/// What is known of a process without asking.
pub proof fn law_what_is_known_of_a_process(pid: u32, r: cache::Liveness)
    requires
        call_ensures(cache::pid_alive, (pid,), r),
    ensures
        pid == 0 <==> r == cache::Liveness::Dead,
        0 < pid <= 0x7fff_ffff ==> r == cache::Liveness::Ask(pid as i32),
        pid > 0x7fff_ffff ==> r == cache::Liveness::Alive,
{
}

/// A cache directory is told by its name and by being a directory, and its name
/// tells the process it belongs to.
pub proof fn law_what_a_cache_directory_is(
    name: &str,
    is_dir: bool,
    r: bool,
    pid: u32,
    n: u32,
    made: String,
    owner: Option<u32>,
)
    requires
        call_ensures(cache::is_cache_dir, (name, is_dir), r),
        call_ensures(cache::cache_dir_name, (pid, n), made),
        call_ensures(cache::owner_of, (name,), owner),
    ensures
        r <==> is_dir && "scriptbox-cache."@.is_prefix_of(name@),
        made@ == "scriptbox-cache."@ + text::decimal(pid as nat) + "."@ + text::decimal(n as nat),
        name@ == made@ ==> owner == Some(pid) && r == is_dir,
        !"scriptbox-cache."@.is_prefix_of(name@) ==> owner is None,
{
    cache::law_owner_reads_back(pid as nat, n as nat);
    cache::law_other_names_have_no_owner(name@, name@);
    if name@ == made@ {
        reveal_strlit("scriptbox-cache.");
        let rest = text::decimal(pid as nat) + "."@ + text::decimal(n as nat);
        assert(made@ =~= "scriptbox-cache."@ + rest);
        assert(made@.subrange(0, "scriptbox-cache."@.len() as int) =~= "scriptbox-cache."@);
    }
}

/// Names are tried one after the other until one is free, and only so many.
pub proof fn law_which_name_is_tried_next(n: u32, made: cache::Made, r: cache::NextDir)
    requires
        call_ensures(cache::after_attempt, (n, made), r),
    ensures
        made == cache::Made::Created <==> r == cache::NextDir::Use,
        made == cache::Made::Failed <==> r == cache::NextDir::Failed,
        made == cache::Made::Taken && n < 127 ==> r == cache::NextDir::Try((n + 1) as u32),
        made == cache::Made::Taken && n >= 127 ==> r == cache::NextDir::Exhausted,
{
}

/// The files of a cache are named after the key of the path.
pub proof fn law_how_files_of_a_cache_are_named(
    path: &[u8],
    key: String,
    name: &str,
    snapshot: String,
    pin: String,
    pid: u32,
    n: u32,
    temp: String,
)
    requires
        call_ensures(cache::cache_key, (path,), key),
        call_ensures(cache::snapshot_name, (name,), snapshot),
        call_ensures(cache::pin_name, (name,), pin),
        call_ensures(cache::temp_name, (pid, n), temp),
    ensures
        key@ == text::hex(checksum::sha256(encode_utf8(text::utf8_lossy(path@)))),
        snapshot@ == name@ + ".snap"@,
        pin@ == name@ + ".pin"@,
        temp@ == ".tmp."@ + text::decimal(pid as nat) + "."@ + text::decimal(n as nat),
{
}

/// The report on clearing caches says what was cleared away and what was not.
pub proof fn law_what_clearing_reports(swept: &Vec<cache::Swept>, r: (Vec<String>, Vec<String>))
    requires
        call_ensures(cache::gc, (swept,), r),
    ensures
        text::texts(r.0@).len() > 0,
        text::texts(r.0@).drop_last() == cache::removed_lines(swept@),
        text::texts(r.0@).last() == cache::summary(cache::removed_lines(swept@).len()),
        text::texts(r.1@) == cache::failed_lines(swept@),
{
    cache::law_every_directory_is_reported(swept@);
    assert(text::texts(r.0@).drop_last() =~= cache::removed_lines(swept@));
}

/// The immutable copy is read under the number of its descriptor, and is written
/// until all of it is there.
pub proof fn law_how_copies_are_made(
    fd: u32,
    linux: String,
    other: String,
    pid: u32,
    attempt: u32,
    temp: String,
    len: usize,
    at: usize,
    n: usize,
    next: Option<usize>,
    flags: u32,
    dataless: bool,
)
    requires
        at <= len,
        call_ensures(loader::fd_path, (true, fd), linux),
        call_ensures(loader::fd_path, (false, fd), other),
        call_ensures(loader::temp_copy_name, (pid, attempt), temp),
        call_ensures(loader::after_write, (len, at, n), next),
        call_ensures(loader::is_dataless, (flags,), dataless),
    ensures
        linux@ == "/proc/self/fd/"@ + text::decimal(fd as nat),
        other@ == "/dev/fd/"@ + text::decimal(fd as nat),
        temp@ == ".scriptbox."@ + text::decimal(pid as nat) + "."@ + text::decimal(attempt as nat),
        next is Some <==> 0 < n <= len - at,
        next is Some ==> next->0 == at + n,
        dataless <==> flags & 0x4000_0000 != 0,
{
}

// ---------------------------------------------------------------------------
// Subscripts

/// The program that is parsed, its commands and its sites are those that are
/// stated.
pub proof fn law_programs_are_parsed(
    src: &str,
    p: Result<parser::Script, String>,
    s: Result<Vec<sites::Site>, String>,
)
    requires
        call_ensures(parser::parse_program, (src,), p),
        call_ensures(sites::parse_sites, (src,), s),
    ensures
        p is Ok <==> parser::parsed(src@) is Ok,
        p is Ok ==> (p->Ok_0)@ == parser::parsed(src@)->Ok_0,
        p is Err ==> (p->Err_0)@ == parser::parsed(src@)->Err_0,
        s is Ok <==> p is Ok,
        s is Ok ==> sites::views((s->Ok_0)@) == sites::sites_in(src@)->Ok_0,
        s is Err ==> (s->Err_0)@ == (p->Err_0)@,
{
}

/// Commands are collected and classified, and words are told to be literal, as is
/// stated.
pub proof fn law_commands_are_classified(
    program: &brush_parser::ast::Program,
    collected: Vec<shell::Invocation>,
    cmds: &Vec<shell::Invocation>,
    found: Vec<sites::Site>,
    cmd: &shell::Invocation,
    site: Option<sites::Site>,
    w: &str,
    literal: bool,
)
    requires
        call_ensures(shell::commands_of, (program,), collected),
        call_ensures(sites::find_sites, (cmds,), found),
        call_ensures(sites::classify, (cmd,), site),
        call_ensures(sites::is_literal, (w,), literal),
    ensures
        shell::views(collected@) == shell::in_program(*program),
        sites::views(found@) == shell::views(cmds@).filter_map(
            |c: shell::InvocationModel| sites::site_of(c),
        ),
        site is Some <==> sites::site_of(cmd@) is Some,
        site is Some ==> (site->0)@ == sites::site_of(cmd@)->0,
        literal <==> !w@.contains('$') && !w@.contains('`') && !expansions::expands(w@),
{
    sites::law_each_command_is_looked_at(shell::views(cmds@));
}

/// A script is looked into as text, its children are told in the order of its
/// sites, and a name stands for one file or none.
pub proof fn law_children_are_told(
    bytes: &[u8],
    analysis: subscripts::Analysis,
    found: Vec<sites::Site>,
    all: &Vec<sites::Site>,
    files: &Vec<Option<Vec<u8>>>,
    children: Vec<subscripts::Child>,
    literal: &str,
    direct: Option<Vec<u8>>,
    beside: Option<Vec<u8>>,
    here: Option<Vec<u8>>,
    file: Option<Vec<u8>>,
)
    requires
        all@.len() == files@.len(),
        call_ensures(subscripts::analyse, (bytes,), analysis),
        call_ensures(subscripts::child_sites, (bytes,), found),
        call_ensures(subscripts::child_scripts, (all, files), children),
        call_ensures(subscripts::resolve, (literal, direct, beside, here), file),
    ensures
        analysis@ == subscripts::analysed(bytes@),
        sites::views(found@) == subscripts::sites_of(bytes@),
        children@.len() == all@.len(),
        forall|i: int|
            0 <= i < all@.len() ==> (#[trigger] children@[i])@ == subscripts::child_of(
                all@[i]@,
                subscripts::path_view(files@[i]),
            ),
        literal@.len() > 0 && literal@[0] == '/' ==> subscripts::path_view(file)
            == subscripts::path_view(direct),
        !(literal@.len() > 0 && literal@[0] == '/') ==> subscripts::path_view(file)
            == subscripts::agreed(subscripts::path_view(beside), subscripts::path_view(here)),
{
    assert(children@.len() == subscripts::child_views(children@).len());
    assert forall|i: int| 0 <= i < all@.len() implies (#[trigger] children@[i])@
        == subscripts::child_of(all@[i]@, subscripts::path_view(files@[i])) by {
        assert(subscripts::child_views(children@)[i] == children@[i]@);
    }
    reveal_strlit("/");
    assert("/"@.is_prefix_of(literal@) <==> literal@.len() > 0 && literal@[0] == '/') by {
        if literal@.len() > 0 && literal@[0] == '/' {
            assert(literal@.subrange(0, 1) =~= "/"@);
        }
        if "/"@.is_prefix_of(literal@) {
            assert(literal@.subrange(0, 1)[0] == literal@[0]);
        }
    }
}

/// A script is rewritten as its sites and their answers say, and each site is
/// reported; what is put before a command names the scriptbox and asks it to freeze.
pub proof fn law_scripts_are_rewritten(
    s: &[char],
    all: &Vec<sites::Site>,
    answers: &Vec<Option<String>>,
    prefix: &str,
    r: (Vec<char>, Vec<rewrite::Outcome>),
    exe: &str,
    wrap: String,
)
    requires
        all@.len() == answers@.len(),
        call_ensures(rewrite::rewrite_sites, (s, all, answers, prefix), r),
        call_ensures(rewrite::wrap_prefix, (exe,), wrap),
    ensures
        r.0@ == rewrite::rewritten(
            s@,
            sites::views(all@),
            rewrite::answer_texts(answers@),
            prefix@,
        ),
        r.1@ == rewrite::outcomes_for(
            sites::views(all@),
            rewrite::answer_texts(answers@),
            prefix@,
            s@.len(),
        ),
        exists|word: Seq<char>|
            interpreter::shell_reading(word, false) == Some(exe@) && wrap@ == #[trigger] (word
                + " --subscripts=freeze "@),
{
    interpreter::law_quoted_text_reads_back(exe@);
    assert(wrap@ == interpreter::squoted(exe@) + " --subscripts=freeze "@);
}

/// A walk starts at the script that it is given, with what its sites are found to
/// be, and its children will run under the scriptbox that it is given.
pub proof fn law_walks_start_where_they_should(
    mode: Subscripts,
    bytes: Vec<u8>,
    path: Vec<u8>,
    exe: &str,
    r: freezer::Freezer,
    prefix: String,
    analysis: subscripts::Analysis,
    begun: freezer::Freezer,
)
    requires
        call_ensures(freezer::apply, (mode, bytes, path, exe), r),
        call_ensures(freezer::Freezer::begin, (mode, prefix, path, bytes, analysis), begun),
    ensures
        r@ == freezer::started(
            mode,
            rewrite::prefix_for(exe@),
            path@,
            bytes@,
            subscripts::analysed(bytes@),
        ),
        begun@ == freezer::started(mode, prefix@, path@, bytes@, analysis@),
{
}

// ---------------------------------------------------------------------------
// Messages and smaller steps

/// Whether `part` stands somewhere in `s`.
pub open spec fn mentions(s: Seq<char>, part: Seq<char>) -> bool {
    exists|a: Seq<char>, b: Seq<char>| s == #[trigger] (a + part + b)
}

/// A script that is refused is named, with the pin that it should have and the one
/// that it has; a setting that is no mode is named too.
pub proof fn law_messages_name_what_is_wrong(
    mismatch: run::RunError,
    message: String,
    setting: run::RunError,
    other: String,
)
    requires
        mismatch is ChecksumMismatch,
        setting is Setting,
        call_ensures(run::RunError::message, (&mismatch,), message),
        call_ensures(run::RunError::message, (&setting,), other),
    ensures
        mismatch matches run::RunError::ChecksumMismatch { script, expected, actual } ==> {
            &&& mentions(message@, script@)
            &&& mentions(message@, "expected: "@ + text::trim(expected@) + "\n"@)
            &&& mentions(message@, "actual:   "@ + actual@ + "\n"@)
        },
        setting matches run::RunError::Setting(e) ==> mentions(other@, "`"@ + e.mode@ + "`"@),
        setting matches run::RunError::Setting(e) ==> mentions(
            other@,
            if e.switch == Switch::Argv0 {
                "`argv0`"@
            } else {
                "`subscripts`"@
            },
        ),
{
    reveal_strlit("checksum mismatch for `");
    reveal_strlit("`\n  expected: ");
    reveal_strlit("\n  actual:   ");
    reveal_strlit("expected: ");
    reveal_strlit("actual:   ");
    reveal_strlit("\n");
    reveal_strlit("`");
    reveal_strlit("`argv0`");
    reveal_strlit("`subscripts`");
    reveal_strlit("frontmatter `argv0`: ");
    reveal_strlit("frontmatter `subscripts`: ");
    reveal_strlit("unknown argv0 mode `");
    reveal_strlit("` (want: rewrite | source | off)");
    reveal_strlit("unknown subscripts mode `");
    reveal_strlit("` (want: off | report | freeze)");
    match mismatch {
        run::RunError::ChecksumMismatch { script, expected, actual } => {
            let tail = "\nthe script on disk does not match its pinned checksum; refusing to run.\nif this change is intended, update the pin with `scriptbox pin "@;
            reveal_strlit(
                "\nthe script on disk does not match its pinned checksum; refusing to run.\nif this change is intended, update the pin with `scriptbox pin ",
            );
            let want = text::trim(expected@);
            let end = "`."@;
            let a = "checksum mismatch for `"@;
            let b = "`\n  expected: "@ + want + "\n  actual:   "@ + actual@ + tail + script@ + end;
            assert(message@ =~= a + script@ + b);
            let c = a + script@ + "`\n  "@;
            reveal_strlit("`\n  ");
            reveal_strlit("  actual:   ");
            let d = "  actual:   "@ + actual@ + tail + script@ + end;
            assert(message@ =~= c + ("expected: "@ + want + "\n"@) + d);
            reveal_strlit("\n  ");
            let e = a + script@ + "`\n  expected: "@ + want + "\n  "@;
            let f = tail.skip(1) + script@ + end;
            assert(message@ =~= e + ("actual:   "@ + actual@ + "\n"@) + f);
        },
        _ => {},
    }
    match setting {
        run::RunError::Setting(e) => {
            reveal_strlit("unknown argv0 mode ");
            reveal_strlit(" (want: rewrite | source | off)");
            reveal_strlit("unknown subscripts mode ");
            reveal_strlit(" (want: off | report | freeze)");
            reveal_strlit("frontmatter ");
            reveal_strlit(": ");
            if e.switch == Switch::Argv0 {
                assert(other@ =~= ("frontmatter `argv0`: "@ + "unknown argv0 mode "@) + ("`"@
                    + e.mode@ + "`"@) + " (want: rewrite | source | off)"@);
                assert(other@ =~= "frontmatter "@ + "`argv0`"@ + (": "@ + e.says()));
            } else {
                assert(other@ =~= ("frontmatter `subscripts`: "@ + "unknown subscripts mode "@) + (
                "`"@ + e.mode@ + "`"@) + " (want: off | report | freeze)"@);
                assert(other@ =~= "frontmatter "@ + "`subscripts`"@ + (": "@ + e.says()));
            }
        },
        _ => {},
    }
}

/// A snapshot that was tampered with is named, with the pin that was recorded and
/// the one that it has.
pub proof fn law_tampering_is_told(t: cache::Tampered, message: String)
    requires
        call_ensures(cache::Tampered::message, (&t,), message),
    ensures
        mentions(message@, "`"@ + text::utf8_lossy(t.path@) + "`"@),
        mentions(message@, "expected: "@ + t.expected@),
        mentions(message@, "actual:   "@ + t.actual@),
{
    reveal_strlit("cached snapshot for `");
    reveal_strlit("` failed its pin - the cache was modified.\n  expected: ");
    reveal_strlit("\n  actual:   ");
    reveal_strlit("cached snapshot for ");
    reveal_strlit(" failed its pin - the cache was modified.\n  expected: ");
    reveal_strlit("` failed its pin - the cache was modified.\n  ");
    reveal_strlit("`");
    reveal_strlit("expected: ");
    reveal_strlit("actual:   ");
    reveal_strlit("\n  ");
    let path = text::utf8_lossy(t.path@);
    let last = "\n  actual:   "@ + t.actual@;
    assert(message@ =~= "cached snapshot for "@ + ("`"@ + path + "`"@) + (
    " failed its pin - the cache was modified.\n  expected: "@ + t.expected@ + last));
    let head = "cached snapshot for `"@ + path
        + "` failed its pin - the cache was modified.\n  "@;
    assert(message@ =~= head + ("expected: "@ + t.expected@) + last);
    let more = head + "expected: "@ + t.expected@ + "\n  "@;
    assert(message@ =~= more + ("actual:   "@ + t.actual@) + seq![]);
}

/// The switches and the interpreter are settled one by one as they are together.
pub proof fn law_switches_are_settled(
    spec: &run::RunSpec,
    fm: &frontmatter::Frontmatter,
    bytes: &[u8],
    a: Result<Argv0, UnknownMode>,
    s: Result<Subscripts, UnknownMode>,
    i: (String, Vec<String>),
)
    requires
        call_ensures(run::resolve_argv0, (spec, fm), a),
        call_ensures(run::resolve_subscripts, (spec, fm), s),
        call_ensures(run::resolve_interpreter, (spec, fm, bytes), i),
    ensures
        spec.argv0 matches Some(m) ==> a == Ok::<Argv0, UnknownMode>(m),
        spec.argv0 is None && fm.argv0 is None ==> a == Ok::<Argv0, UnknownMode>(Argv0::Rewrite),
        spec.argv0 is None && fm.argv0 is Some ==> (a is Ok <==> Argv0::named(fm.argv0->0@) is Some)
            && (a is Ok ==> Argv0::named(fm.argv0->0@) == Some(a->Ok_0)),
        spec.subscripts matches Some(m) ==> s == Ok::<Subscripts, UnknownMode>(m),
        spec.subscripts is None && fm.subscripts is None ==> s == Ok::<Subscripts, UnknownMode>(
            Subscripts::Off,
        ),
        spec.subscripts is None && fm.subscripts is Some ==> (s is Ok <==> Subscripts::named(
            fm.subscripts->0@,
        ) is Some) && (s is Ok ==> Subscripts::named(fm.subscripts->0@) == Some(s->Ok_0)),
        spec.interp_override@.len() > 0 ==> i.0@ == spec.interp_override@[0]@ && text::texts(i.1@)
            == text::texts(spec.interp_override@).skip(1),
        spec.interp_override@.len() == 0 && fm.interpreter is Some ==> i.0@ == fm.interpreter->0@
            && i.1@.len() == 0,
        spec.interp_override@.len() == 0 && fm.interpreter is None && shebang::named(bytes@).len()
            > 0 ==> i.0@ == shebang::named(bytes@)[0] && text::texts(i.1@) == shebang::named(
            bytes@,
        ).skip(1),
        spec.interp_override@.len() == 0 && fm.interpreter is None && shebang::named(bytes@).len()
            == 0 ==> i.0@ == "/bin/sh"@ && i.1@.len() == 0,
{
    let all = seq![i.0@] + text::texts(i.1@);
    assert(all[0] == i.0@);
    assert(all.skip(1) =~= text::texts(i.1@));
    assert(all.len() == 1 + i.1@.len());
    if spec.interp_override@.len() > 0 {
        assert(text::texts(spec.interp_override@)[0] == spec.interp_override@[0]@);
    }
}

/// Words are looked into and edits are made as is stated, and a walk says what it
/// needs.
pub proof fn law_words_edits_and_needs(
    word: &[char],
    expanded: bool,
    body: bool,
    programs: Vec<String>,
    s: &[char],
    edits: &Vec<rewrite::Edit>,
    edited: Vec<char>,
    m: &freezer::Freezer,
    need: &freezer::Action,
)
    requires
        call_ensures(expansions::is_expanded, (word,), expanded),
        call_ensures(substitutions::find_programs, (word, body), programs),
        call_ensures(rewrite::apply_edits, (s, edits), edited),
        call_ensures(freezer::Freezer::action, (m,), need),
    ensures
        expanded == expansions::expands(word@),
        body ==> text::texts(programs@) == substitutions::programs(
            word@,
            0,
            substitutions::Quoting::Body,
        ),
        !body ==> text::texts(programs@) == substitutions::programs(
            word@,
            0,
            substitutions::Quoting::Bare,
        ),
        edited@ == rewrite::edited(s@, rewrite::views(edits@)),
        need@ == m@.action,
{
}

/// Reports and messages about scripts are made of their paths, their sites and what
/// was done.
pub proof fn law_reports_are_made(
    path: &[u8],
    all: &Vec<sites::Site>,
    outcomes: &Vec<rewrite::Outcome>,
    found: String,
    done: String,
    no_text: String,
    why: &str,
    unparsable: String,
    deep: String,
    o: rewrite::Outcome,
    word: &'static str,
)
    requires
        all@.len() == outcomes@.len(),
        call_ensures(subscripts::report_detection, (path, all), found),
        call_ensures(subscripts::report_outcomes, (path, all, outcomes), done),
        call_ensures(subscripts::not_text_message, (path,), no_text),
        call_ensures(subscripts::unparsable_message, (path, why), unparsable),
        call_ensures(subscripts::too_deep_message, (path,), deep),
        call_ensures(rewrite::Outcome::text, (o,), word),
    ensures
        found@ == subscripts::detection(path@, sites::views(all@)),
        done@ == subscripts::outcome_report(path@, sites::views(all@), outcomes@),
        mentions(no_text@, text::utf8_lossy(path@)),
        mentions(unparsable@, text::utf8_lossy(path@) + ": "@ + why@),
        mentions(deep@, text::utf8_lossy(path@)),
        word@ == o.says(),
{
    let name = text::utf8_lossy(path@);
    assert(no_text@ =~= "scriptbox: subscripts: "@ + name + " is not UTF-8; skipping"@);
    assert(unparsable@ =~= "scriptbox: subscripts: could not parse "@ + (name + ": "@ + why@)
        + seq![]);
    assert(deep@ =~= "scriptbox: subscripts: source depth cap (64) hit at "@ + name
        + "; leaving it"@);
}

} // verus!
