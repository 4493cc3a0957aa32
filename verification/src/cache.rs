//! The cache of snapshots that the scripts of one launch share.
//!
//! The first scriptbox of a tree makes a directory that belongs to it and hands
//! it down. A script is put into it, with its pin, when it is first met; later
//! meetings read it from there and test the pin again. So the whole tree runs on
//! one set of bytes, even where a file is edited meanwhile.

use vstd::prelude::*;
use vstd::slice::slice_subrange;
use vstd::string::*;
use vstd::utf8::*;

use crate::checksum;
use crate::text;

verus! {

// ---------------------------------------------------------------------------
// Snapshots

/// The name under which the snapshot of the script at `path` is kept: the digest
/// of the path.
pub open spec fn key(path: Seq<u8>) -> Seq<char> {
    text::hex(checksum::sha256(encode_utf8(text::utf8_lossy(path))))
}

/// The name under which the snapshot of the script at `path` is kept.
pub fn cache_key(path: &[u8]) -> (r: String)
    ensures
        r@ == key(path@),
{
    let name = text::from_utf8_lossy(path);
    let pin = checksum::sha256_pin(name.as_str().as_bytes());
    let chars = text::chars_of(pin.as_str());
    proof {
        reveal_strlit("sha256:");
        let digits = key(path@);
        assert(chars@ == "sha256:"@ + digits);
        assert(chars@.subrange(0, 7) =~= "sha256:"@);
        assert(chars@.skip(7) =~= digits);
    }
    match text::strip_prefix(&chars, "sha256:") {
        Some(rest) => text::string_of(rest),
        None => pin,
    }
}

/// The file of the snapshot with a key.
pub fn snapshot_name(key: &str) -> (r: String)
    ensures
        r@ == key@ + ".snap"@,
{
    let mut out = key.to_owned();
    out.append(".snap");
    out
}

/// The file of the pin with a key.
pub fn pin_name(key: &str) -> (r: String)
    ensures
        r@ == key@ + ".pin"@,
{
    let mut out = key.to_owned();
    out.append(".pin");
    out
}

/// The name of a file that is still being written: one for each write of a
/// process.
pub fn temp_name(pid: u32, n: u32) -> (r: String)
    ensures
        r@ == ".tmp."@ + text::decimal(pid as nat) + "."@ + text::decimal(n as nat),
{
    let mut out = ".tmp.".to_owned();
    let pid = text::decimal_of(pid as u128);
    out.append(pid.as_str());
    out.append(".");
    let n = text::decimal_of(n as u128);
    out.append(n.as_str());
    out
}

/// A snapshot that does not match its pin.
#[derive(Debug, PartialEq, Eq)]
pub struct Tampered {
    /// The path of the script.
    pub path: Vec<u8>,
    /// The pin that was recorded.
    pub expected: String,
    /// The pin of the snapshot.
    pub actual: String,
}

impl Tampered {
    /// The message.
    pub open spec fn says(self) -> Seq<char> {
        "cached snapshot for `"@ + text::utf8_lossy(self.path@)
            + "` failed its pin - the cache was modified.\n  expected: "@ + self.expected@
            + "\n  actual:   "@ + self.actual@
    }

    /// The message.
    pub fn message(&self) -> (r: String)
        ensures
            r@ == self.says(),
    {
        let mut out = "cached snapshot for `".to_owned();
        let path = text::from_utf8_lossy(&self.path);
        out.append(path.as_str());
        out.append("` failed its pin - the cache was modified.\n  expected: ");
        out.append(self.expected.as_str());
        out.append("\n  actual:   ");
        out.append(self.actual.as_str());
        out
    }
}

/// What a script is to run as.
#[derive(Debug, PartialEq, Eq)]
pub struct Snapshot {
    /// Its bytes.
    pub bytes: Vec<u8>,
    /// The pin to record, where the script was not in the cache yet: first the
    /// pin is written, then the bytes, so that whoever finds the bytes finds the
    /// pin.
    pub record: Option<String>,
}

/// Whether a snapshot matches what is recorded as its pin.
pub open spec fn intact(snapshot: Seq<u8>, recorded: Seq<char>) -> bool {
    text::trim(recorded) == checksum::exact_pin(snapshot)
}

/// The bytes that the script at `path` runs as. `snapshot` is what the cache
/// holds of it, if it does, `recorded` what it holds as the pin, and `disk` what
/// is on disk now. A snapshot wins over the disk, if it matches its pin; without
/// one the bytes on disk are taken, and recorded.
pub fn frozen_bytes(
    path: &[u8],
    snapshot: Option<Vec<u8>>,
    recorded: &str,
    disk: &[u8],
) -> (r: Result<Snapshot, Tampered>)
    ensures
        match snapshot {
            Some(s) => match r {
                Ok(f) => intact(s@, recorded@) && f.bytes@ == s@ && f.record is None,
                Err(e) => !intact(s@, recorded@) && e.path@ == path@ && e.expected@ == text::trim(
                    recorded@,
                ) && e.actual@ == checksum::exact_pin(s@),
            },
            None => match r {
                Ok(f) => f.bytes@ == disk@ && crate::frontmatter::opt(f.record) == Some(
                    checksum::exact_pin(disk@),
                ),
                Err(_) => false,
            },
        },
{
    match snapshot {
        Some(bytes) => {
            let chars = text::chars_of(recorded);
            let want = text::strip(&chars);
            let actual = checksum::sha256_pin(&bytes);
            if text::reads(want, actual.as_str()) {
                Ok(Snapshot { bytes, record: None })
            } else {
                Err(
                    Tampered {
                        path: vstd::slice::slice_to_vec(path),
                        expected: text::string_of(want),
                        actual,
                    },
                )
            }
        },
        None => {
            let pin = checksum::sha256_pin(disk);
            Ok(Snapshot { bytes: vstd::slice::slice_to_vec(disk), record: Some(pin) })
        },
    }
}

/// What was recorded for a script is intact, and later meetings read it back,
/// whatever is on disk by then.
pub proof fn law_snapshots_read_back(bytes: Seq<u8>)
    ensures
        intact(bytes, checksum::exact_pin(bytes)),
{
    let digest = checksum::sha256(bytes);
    let pin = checksum::exact_pin(bytes);
    reveal_strlit("sha256:");
    checksum::lemma_hex_chars(digest);
    assert forall|k: int| 0 <= k < pin.len() implies !text::is_white(#[trigger] pin[k]) by {
        if k >= 7 {
            assert(pin[k] == text::hex(digest)[k - 7]);
        }
    }
    text::lemma_trim_both(pin, text::CharClass::White, 0, pin.len() as int);
    assert(pin.subrange(0, pin.len() as int) =~= pin);
}

/// A snapshot that was changed under its pin is noticed, unless the change keeps
/// the pin.
pub proof fn law_tampering_is_noticed(bytes: Seq<u8>, other: Seq<u8>)
    requires
        checksum::exact_pin(other) != checksum::exact_pin(bytes),
    ensures
        !intact(other, checksum::exact_pin(bytes)),
{
    law_snapshots_read_back(bytes);
}

// ---------------------------------------------------------------------------
// Directories

/// How many names are tried for a new cache directory.
pub const ATTEMPTS: u32 = 128;

/// For how many seconds an abandoned cache directory is left alone.
pub const GRACE_SECONDS: u64 = 30;

/// What the names of cache directories start with.
pub open spec fn prefix() -> Seq<char> {
    "scriptbox-cache."@
}

/// The `n`-th name that the process `pid` tries for its cache directory.
pub open spec fn dir_name(pid: nat, n: nat) -> Seq<char> {
    prefix() + text::decimal(pid) + "."@ + text::decimal(n)
}

/// The `n`-th name that the process `pid` tries for its cache directory.
pub fn cache_dir_name(pid: u32, n: u32) -> (r: String)
    ensures
        r@ == dir_name(pid as nat, n as nat),
{
    let mut out = "scriptbox-cache.".to_owned();
    let pid = text::decimal_of(pid as u128);
    out.append(pid.as_str());
    out.append(".");
    let n = text::decimal_of(n as u128);
    out.append(n.as_str());
    out
}

/// What came of making a directory.
#[derive(Clone, Copy, Debug, PartialEq, Eq, Structural)]
pub enum Made {
    /// It was made.
    Created,
    /// The name is taken.
    Taken,
    /// It could not be made.
    Failed,
}

/// What is done next about a cache directory.
#[derive(Clone, Copy, Debug, PartialEq, Eq, Structural)]
pub enum NextDir {
    /// Take the one that was made.
    Use,
    /// Try the name with this number.
    Try(u32),
    /// Give up: every name is taken.
    Exhausted,
    /// Give up: it could not be made.
    Failed,
}

/// What is done about a cache directory after the `n`-th name was tried.
pub fn after_attempt(n: u32, made: Made) -> (r: NextDir)
    ensures
        r == match made {
            Made::Created => NextDir::Use,
            Made::Taken => if n + 1 < ATTEMPTS {
                NextDir::Try((n + 1) as u32)
            } else {
                NextDir::Exhausted
            },
            Made::Failed => NextDir::Failed,
        },
{
    match made {
        Made::Created => NextDir::Use,
        Made::Taken => if n < ATTEMPTS - 1 {
            NextDir::Try(n + 1)
        } else {
            NextDir::Exhausted
        },
        Made::Failed => NextDir::Failed,
    }
}

/// The number that a text writes as a `u32`: digits, with or without a plus sign.
pub open spec fn u32_in(s: Seq<char>) -> Option<nat> {
    let digits = if s.len() > 0 && s[0] == '+' {
        s.skip(1)
    } else {
        s
    };
    if digits.len() > 0 && text::all_digits(digits) && text::number(digits) <= u32::MAX {
        Some(text::number(digits))
    } else {
        None
    }
}

/// The process that a cache directory belongs to, by its name.
pub open spec fn owner(name: Seq<char>) -> Option<nat> {
    match text::without_prefix(name, prefix()) {
        Some(rest) => u32_in(rest.take(text::find(rest, '.'))),
        None => None,
    }
}

/// The process that a cache directory belongs to, by its name.
pub fn owner_of(name: &str) -> (r: Option<u32>)
    ensures
        match r {
            Some(pid) => owner(name@) == Some(pid as nat),
            None => owner(name@) is None,
        },
{
    let chars = text::chars_of(name);
    let rest = match text::strip_prefix(&chars, "scriptbox-cache.") {
        Some(rest) => rest,
        None => {
            return None;
        },
    };
    proof {
        text::lemma_find(rest@, '.');
    }
    let end = text::position(rest, '.');
    let number = slice_subrange(rest, 0, end);
    assert(number@ =~= rest@.take(text::find(rest@, '.')));
    let digits = if number.len() > 0 && number[0] == '+' {
        slice_subrange(number, 1, number.len())
    } else {
        number
    };
    assert(number@.len() > 0 && number@[0] == '+' ==> digits@ =~= number@.skip(1));
    if digits.len() == 0 || !text::only_digits(digits) {
        return None;
    }
    match text::number_up_to(digits, u32::MAX as u64) {
        Some(n) => Some(n as u32),
        None => None,
    }
}

/// The name of a cache directory tells whose it is.
pub proof fn law_owner_reads_back(pid: nat, n: nat)
    requires
        pid <= u32::MAX,
    ensures
        owner(dir_name(pid, n)) == Some(pid),
{
    reveal_strlit("scriptbox-cache.");
    reveal_strlit(".");
    text::lemma_decimal(pid);
    let name = dir_name(pid, n);
    let digits = text::decimal(pid);
    let rest = digits + "."@ + text::decimal(n);
    assert(name =~= prefix() + rest);
    assert(name.subrange(0, prefix().len() as int) =~= prefix());
    assert(name.skip(prefix().len() as int) =~= rest);
    assert forall|k: int| 0 <= k < digits.len() implies #[trigger] rest[k] != '.' by {
        assert(rest[k] == digits[k]);
        assert(text::is_digit(digits[k]));
    }
    text::lemma_find_unique(rest, '.', digits.len() as int);
    assert(rest.take(digits.len() as int) =~= digits);
    assert(text::is_digit(digits[0]));
}

/// What is known of a process without asking.
#[derive(Clone, Copy, Debug, PartialEq, Eq, Structural)]
pub enum Liveness {
    /// It counts as alive.
    Alive,
    /// It does not exist.
    Dead,
    /// Ask about this process; only where there is no such process is it dead.
    Ask(i32),
}

/// What is known of the process `pid` without asking: a number that is no process
/// number counts as alive, and there is no process 0.
pub fn pid_alive(pid: u32) -> (r: Liveness)
    ensures
        r == if pid > i32::MAX {
            Liveness::Alive
        } else if pid == 0 {
            Liveness::Dead
        } else {
            Liveness::Ask(pid as i32)
        },
{
    if pid > i32::MAX as u32 {
        Liveness::Alive
    } else if pid == 0 {
        Liveness::Dead
    } else {
        Liveness::Ask(pid as i32)
    }
}

/// Whether a cache directory is cleared away at the start of a new tree: its
/// process is gone, and it has not changed for a while. `age` is the time since
/// its last change in whole seconds, where that is known.
pub fn is_stale(alive: bool, age: Option<u64>) -> (r: bool)
    ensures
        r == (!alive && (age matches Some(s) ==> s >= GRACE_SECONDS)),
{
    if alive {
        return false;
    }
    match age {
        Some(s) => s >= GRACE_SECONDS,
        None => true,
    }
}

// ---------------------------------------------------------------------------
// Clearing all caches

/// Whether an entry of the directory for temporary files is cleared away: a
/// directory with the name of a cache.
pub fn is_cache_dir(name: &str, is_dir: bool) -> (r: bool)
    ensures
        r == (is_dir && prefix().is_prefix_of(name@)),
{
    let chars = text::chars_of(name);
    is_dir && text::starts_with(&chars, "scriptbox-cache.")
}

/// A cache directory that was to be cleared away.
#[derive(Debug, PartialEq, Eq)]
pub struct Swept {
    /// Its path.
    pub path: String,
    /// Why it is still there, if it is.
    pub error: Option<String>,
}

/// How many directories were cleared away.
pub open spec fn removed(swept: Seq<Swept>) -> nat
    decreases swept.len(),
{
    if swept.len() == 0 {
        0
    } else {
        removed(swept.drop_last()) + if swept.last().error is None {
            1nat
        } else {
            0nat
        }
    }
}

/// The lines on the directories that were cleared away.
pub open spec fn removed_lines(swept: Seq<Swept>) -> Seq<Seq<char>>
    decreases swept.len(),
{
    if swept.len() == 0 {
        seq![]
    } else if swept.last().error is None {
        removed_lines(swept.drop_last()).push("removed "@ + swept.last().path@)
    } else {
        removed_lines(swept.drop_last())
    }
}

/// The lines on the directories that are still there.
pub open spec fn failed_lines(swept: Seq<Swept>) -> Seq<Seq<char>>
    decreases swept.len(),
{
    if swept.len() == 0 {
        seq![]
    } else {
        match swept.last().error {
            Some(e) => failed_lines(swept.drop_last()).push(
                "scriptbox: gc: could not remove "@ + swept.last().path@ + ": "@ + e@,
            ),
            None => failed_lines(swept.drop_last()),
        }
    }
}

/// The line that sums up the clearing of `n` directories.
pub open spec fn summary(n: nat) -> Seq<char> {
    "removed "@ + text::decimal(n) + " cache director"@ + if n == 1 {
        "y"@
    } else {
        "ies"@
    }
}

proof fn lemma_removed(swept: Seq<Swept>)
    ensures
        removed(swept) == removed_lines(swept).len(),
        removed(swept) <= swept.len(),
    decreases swept.len(),
{
    if swept.len() > 0 {
        lemma_removed(swept.drop_last());
    }
}

/// The report on clearing caches away: the lines for the output, with the sum at
/// the end, and those for the errors.
pub fn gc(swept: &Vec<Swept>) -> (r: (Vec<String>, Vec<String>))
    ensures
        text::texts(r.0@) == removed_lines(swept@).push(summary(removed(swept@))),
        text::texts(r.1@) == failed_lines(swept@),
{
    let mut lines: Vec<String> = Vec::new();
    let mut errors: Vec<String> = Vec::new();
    let mut i: usize = 0;
    assert(text::texts(lines@) =~= seq![]);
    assert(text::texts(errors@) =~= seq![]);
    assert(swept@.take(0) =~= seq![]);
    while i < swept.len()
        invariant
            i <= swept@.len(),
            text::texts(lines@) == removed_lines(swept@.take(i as int)),
            text::texts(errors@) == failed_lines(swept@.take(i as int)),
        decreases swept@.len() - i,
    {
        let ghost before = lines@;
        let ghost bad = errors@;
        assert(swept@.take(i + 1).drop_last() =~= swept@.take(i as int));
        match &swept[i].error {
            None => {
                let mut line = "removed ".to_owned();
                line.append(swept[i].path.as_str());
                lines.push(line);
                assert(text::texts(lines@) =~= text::texts(before).push(line@));
            },
            Some(e) => {
                let mut line = "scriptbox: gc: could not remove ".to_owned();
                line.append(swept[i].path.as_str());
                line.append(": ");
                line.append(e.as_str());
                errors.push(line);
                assert(text::texts(errors@) =~= text::texts(bad).push(line@));
            },
        }
        i = i + 1;
    }
    assert(swept@.take(i as int) =~= swept@);
    proof {
        lemma_removed(swept@);
    }
    let ghost before = lines@;
    assert(lines@.len() == text::texts(lines@).len());
    let n = lines.len();
    let mut line = "removed ".to_owned();
    let number = text::decimal_of(n as u128);
    line.append(number.as_str());
    line.append(" cache director");
    if n == 1 {
        line.append("y");
    } else {
        line.append("ies");
    }
    lines.push(line);
    assert(text::texts(lines@) =~= text::texts(before).push(line@));
    (lines, errors)
}

// ---------------------------------------------------------------------------
// Laws

/// A snapshot is intact just where what was recorded is its pin, white space
/// around it aside.
pub proof fn law_what_intact_means(
    bytes: Seq<u8>,
    a: Seq<char>,
    b: Seq<char>,
    recorded: Seq<char>,
)
    requires
        forall|k: int| 0 <= k < a.len() ==> text::is_white(#[trigger] a[k]),
        forall|k: int| 0 <= k < b.len() ==> text::is_white(#[trigger] b[k]),
    ensures
        intact(bytes, a + ("sha256:"@ + text::hex(checksum::sha256(bytes))) + b),
        intact(bytes, recorded) ==> exists|i: int, j: int|
            0 <= i <= j <= recorded.len() && #[trigger] recorded.subrange(i, j) == "sha256:"@
                + text::hex(checksum::sha256(bytes)),
{
    let white = text::CharClass::White;
    let digest = checksum::sha256(bytes);
    let pin = "sha256:"@ + text::hex(digest);
    reveal_strlit("sha256:");
    checksum::lemma_hex_chars(digest);
    assert(pin[0] == 's');
    assert(!text::is_white(pin.last())) by {
        if digest.len() > 0 {
            assert(pin.last() == text::hex(digest)[text::hex(digest).len() - 1]);
        } else {
            assert(pin.last() == ':');
        }
    }
    let s = a + pin + b;
    let n = a.len() as int;
    let m = (a.len() + pin.len()) as int;
    assert(s[n] == pin[0] && s[m - 1] == pin.last());
    assert forall|k: int| 0 <= k < n || m <= k < s.len() implies white.holds(#[trigger] s[k]) by {
        if k < n {
            assert(s[k] == a[k]);
        } else {
            assert(s[k] == b[k - m]);
        }
    }
    text::lemma_trim_both(s, white, n, m);
    assert(s.subrange(n, m) =~= pin);
    if intact(bytes, recorded) {
        let i = text::lemma_trim_parts(recorded, white);
        assert(recorded.subrange(i, i + pin.len()) == pin);
    }
}

/// The report on clearing caches has one line for each directory that is gone, one
/// for each that is still there, in order, and the number of those that are gone.
pub proof fn law_every_directory_is_reported(swept: Seq<Swept>)
    ensures
        removed_lines(swept) == swept.filter_map(
            |d: Swept|
                if d.error is None {
                    Some("removed "@ + d.path@)
                } else {
                    None
                },
        ),
        failed_lines(swept) == swept.filter_map(
            |d: Swept|
                match d.error {
                    Some(e) => Some(
                        "scriptbox: gc: could not remove "@ + d.path@ + ": "@ + e@,
                    ),
                    None => None,
                },
        ),
        removed(swept) == removed_lines(swept).len(),
        removed_lines(swept).len() + failed_lines(swept).len() == swept.len(),
    decreases swept.len(),
{
    lemma_removed(swept);
    if swept.len() > 0 {
        law_every_directory_is_reported(swept.drop_last());
    }
}

/// The sum is written out, with the right ending.
pub proof fn law_the_sum(n: nat)
    ensures
        n == 1 ==> summary(n) == "removed 1 cache directory"@,
        n != 1 ==> summary(n) == "removed "@ + text::decimal(n) + " cache directories"@,
{
    reveal_strlit("removed ");
    reveal_strlit(" cache director");
    reveal_strlit("y");
    reveal_strlit("ies");
    reveal_strlit("removed 1 cache directory");
    reveal_strlit(" cache directories");
    assert(" cache director"@ + "ies"@ =~= " cache directories"@);
    if n == 1 {
        assert(text::decimal(1) =~= seq!['1']);
        assert(summary(n) =~= "removed 1 cache directory"@);
    } else {
        assert(summary(n) =~= "removed "@ + text::decimal(n) + " cache directories"@);
    }
}

/// A name without the beginning of a cache directory, or without a number after
/// it, tells of no process.
pub proof fn law_other_names_have_no_owner(name: Seq<char>, rest: Seq<char>)
    ensures
        !"scriptbox-cache."@.is_prefix_of(name) ==> owner(name) is None,
        rest.len() == 0 || !(text::is_digit(rest[0]) || rest[0] == '+') ==> owner(
            "scriptbox-cache."@ + rest,
        ) is None,
{
    let full = "scriptbox-cache."@ + rest;
    text::law_prefixes_are_taken_off("scriptbox-cache."@, rest, full);
    text::lemma_find(rest, '.');
    let number = rest.take(text::find(rest, '.'));
    if number.len() > 0 {
        assert(number[0] == rest[0]);
    }
}

/// The key of a script goes by its path alone: paths with other digests have other
/// keys.
pub proof fn law_keys_go_by_the_path(a: Seq<u8>, b: Seq<u8>)
    ensures
        a == b ==> key(a) == key(b),
        key(a) == key(b) ==> checksum::sha256(encode_utf8(text::utf8_lossy(a))) == checksum::sha256(
            encode_utf8(text::utf8_lossy(b)),
        ),
        "sha256:"@ + key(a) == checksum::exact_pin(encode_utf8(text::utf8_lossy(a))),
{
    let x = checksum::sha256(encode_utf8(text::utf8_lossy(a)));
    let y = checksum::sha256(encode_utf8(text::utf8_lossy(b)));
    if key(a) == key(b) && x != y {
        checksum::law_pins_of_other_digests_do_not_match(x, y);
    }
}

/// A number is digits, with or without a plus sign before them, and no larger than
/// process numbers can be; anything else is none.
pub proof fn law_what_a_process_number_is(digits: Seq<char>, s: Seq<char>, k: int)
    requires
        digits.len() > 0,
        text::all_digits(digits),
    ensures
        text::number(digits) <= u32::MAX ==> u32_in(digits) == Some(text::number(digits)) && u32_in(
            seq!['+'] + digits,
        ) == Some(text::number(digits)),
        text::number(digits) > u32::MAX ==> u32_in(digits) is None && u32_in(seq!['+'] + digits)
            is None,
        0 < k < s.len() && !text::is_digit(s[k]) ==> u32_in(s) is None,
        s.len() > 0 && s[0] != '+' && !text::is_digit(s[0]) ==> u32_in(s) is None,
        u32_in(seq![]) is None,
        u32_in(seq!['+']) is None,
{
    assert(text::is_digit(digits[0]));
    assert((seq!['+'] + digits).skip(1) =~= digits);
    assert(seq!['+'].skip(1) =~= Seq::<char>::empty());
    if 0 < k < s.len() && s[0] == '+' {
        assert(s.skip(1)[k - 1] == s[k]);
    }
}

/// The process is the number up to the first dot after the beginning of the name.
pub proof fn law_the_owner_is_the_first_number(number: Seq<char>, rest: Seq<char>)
    requires
        !number.contains('.'),
    ensures
        owner("scriptbox-cache."@ + number + seq!['.'] + rest) == u32_in(number),
        owner("scriptbox-cache."@ + number) == u32_in(number),
{
    let p = "scriptbox-cache."@;
    let long = number + seq!['.'] + rest;
    assert(p + number + seq!['.'] + rest =~= p + long);
    text::law_prefixes_are_taken_off(p, long, p + long);
    text::law_prefixes_are_taken_off(p, number, p + number);
    assert forall|k: int| 0 <= k < number.len() implies long[k] != '.' && number[k] != '.' by {
        assert(number.contains(number[k]));
    }
    assert(long[number.len() as int] == '.');
    text::lemma_find_unique(long, '.', number.len() as int);
    text::lemma_find_unique(number, '.', number.len() as int);
    assert(long.take(number.len() as int) =~= number);
    assert(number.take(number.len() as int) =~= number);
}

} // verus!
