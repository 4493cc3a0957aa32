//! How the bytes that the interpreter reads make `$0` the real path.
//!
//! The interpreter reads the script under the path of a file descriptor, and
//! `$0` shows that path. Where the shell can reset `$0` from within the run, the
//! reset is put before the first line of the body, joined with `; `: no line is
//! added, so every line keeps its number, and the shebang stays on line 1.

use vstd::prelude::*;
use vstd::slice::slice_subrange;
use vstd::string::*;
use vstd::utf8::*;

use crate::text;

verus! {

/// The way in which an interpreter can reset `$0` from within the run.
#[derive(Clone, Copy, Debug, PartialEq, Eq, Structural)]
pub enum Argv0Fix {
    /// `BASH_ARGV0='path'`
    BashArgv0,
    /// `0='path'`
    ZshZero,
    /// There is none.
    Unsupported,
}

/// The way of the interpreter `interp`, by the last part of its path.
pub open spec fn fix_of(interp: Seq<char>) -> Argv0Fix {
    if text::basename(interp) == "bash"@ {
        Argv0Fix::BashArgv0
    } else if text::basename(interp) == "zsh"@ {
        Argv0Fix::ZshZero
    } else {
        Argv0Fix::Unsupported
    }
}

/// The way of the interpreter `interp`, by the last part of its path.
pub fn argv0_fix(interp: &str) -> (r: Argv0Fix)
    ensures
        r == fix_of(interp@),
{
    let chars = text::chars_of(interp);
    let base = text::base_of(&chars);
    if text::reads(base, "bash") {
        Argv0Fix::BashArgv0
    } else if text::reads(base, "zsh") {
        Argv0Fix::ZshZero
    } else {
        Argv0Fix::Unsupported
    }
}

/// `s` with each single quote closed, escaped and opened again.
pub open spec fn escaped(s: Seq<char>) -> Seq<char>
    decreases s.len(),
{
    if s.len() == 0 {
        seq![]
    } else if s.last() == '\'' {
        escaped(s.drop_last()) + "'\\''"@
    } else {
        escaped(s.drop_last()).push(s.last())
    }
}

/// `s` between single quotes, as one word of a POSIX shell.
pub open spec fn squoted(s: Seq<char>) -> Seq<char> {
    (seq!['\''] + escaped(s)).push('\'')
}

/// `s` between single quotes, as one word of a POSIX shell.
pub fn shell_squote(s: &str) -> (r: String)
    ensures
        r@ == squoted(s@),
{
    let chars = text::chars_of(s);
    let mut out = String::new();
    out.push('\'');
    let mut i: usize = 0;
    assert(out@ =~= seq!['\''] + escaped(s@.take(0)));
    while i < chars.len()
        invariant
            i <= chars@.len(),
            chars@ == s@,
            out@ == seq!['\''] + escaped(s@.take(i as int)),
        decreases chars@.len() - i,
    {
        assert(s@.take(i + 1).drop_last() =~= s@.take(i as int));
        if chars[i] == '\'' {
            out.append("'\\''");
        } else {
            out.push(chars[i]);
        }
        i = i + 1;
        assert(out@ =~= seq!['\''] + escaped(s@.take(i as int)));
    }
    assert(s@.take(i as int) =~= s@);
    out.push('\'');
    out
}

/// The command that resets `$0` to `path`, for an interpreter that has one.
pub open spec fn reset(fix: Argv0Fix, path: Seq<char>) -> Seq<char> {
    match fix {
        Argv0Fix::BashArgv0 => "BASH_ARGV0="@ + squoted(path),
        Argv0Fix::ZshZero => "0="@ + squoted(path),
        Argv0Fix::Unsupported => seq![],
    }
}

/// Whether the script starts with a shebang.
pub open spec fn has_shebang(bytes: Seq<u8>) -> bool {
    bytes.len() >= 2 && bytes[0] == 0x23 && bytes[1] == 0x21
}

/// The length of the first line without its line feed, or of everything where
/// there is no line feed.
pub open spec fn line_one(bytes: Seq<u8>) -> int
    decreases bytes.len(),
{
    if bytes.len() == 0 || bytes[0] == 0x0a {
        0
    } else {
        1 + line_one(bytes.skip(1))
    }
}

/// Where the body starts: after the line of the shebang, else at the start.
pub open spec fn body_start(bytes: Seq<u8>) -> int {
    if has_shebang(bytes) {
        line_one(bytes) + 1
    } else {
        0
    }
}

/// The script with `command` before its first body line. A shebang that is not
/// followed by a line feed has no body, and `command` gets a line of its own.
pub open spec fn joined(bytes: Seq<u8>, command: Seq<u8>) -> Seq<u8> {
    if has_shebang(bytes) && line_one(bytes) == bytes.len() {
        (bytes.push(0x0a) + command).push(0x0a)
    } else {
        bytes.take(body_start(bytes)) + command + seq![0x3b, 0x20] + bytes.skip(body_start(bytes))
    }
}

/// The bytes that the interpreter is given.
pub open spec fn prepared(
    original: Seq<u8>,
    interp: Seq<char>,
    path: Seq<char>,
    rewrite: bool,
) -> Seq<u8> {
    if rewrite && fix_of(interp) != Argv0Fix::Unsupported {
        joined(original, encode_utf8(reset(fix_of(interp), path)))
    } else {
        original
    }
}

proof fn lemma_line_one(bytes: Seq<u8>)
    ensures
        0 <= line_one(bytes) <= bytes.len(),
        line_one(bytes) < bytes.len() ==> bytes[line_one(bytes)] == 0x0a,
        forall|k: int| 0 <= k < line_one(bytes) ==> #[trigger] bytes[k] != 0x0a,
    decreases bytes.len(),
{
    if bytes.len() > 0 && bytes[0] != 0x0a {
        lemma_line_one(bytes.skip(1));
        assert forall|k: int| 0 <= k < line_one(bytes) implies #[trigger] bytes[k] != 0x0a by {
            if k > 0 {
                assert(bytes.skip(1)[k - 1] == bytes[k]);
            }
        }
    }
}

/// The length of the first line without its line feed, or of everything where
/// there is no line feed.
pub fn first_line_end(bytes: &[u8]) -> (r: usize)
    ensures
        r == line_one(bytes@),
        r <= bytes@.len(),
{
    let mut i: usize = 0;
    assert(bytes@.skip(0) =~= bytes@);
    while i < bytes.len() && bytes[i] != 0x0a
        invariant
            i <= bytes@.len(),
            line_one(bytes@) == i + line_one(bytes@.skip(i as int)),
        decreases bytes@.len() - i,
    {
        assert(bytes@.skip(i as int).skip(1) =~= bytes@.skip(i + 1));
        i = i + 1;
    }
    i
}

/// The bytes that the interpreter is given: the script itself, or, where `$0` is
/// to be reset and the interpreter has a way to, the script with the reset
/// before its first body line.
pub fn prepare_bytes(original: &[u8], interp: &str, real_path: &str, rewrite: bool) -> (r: Vec<u8>)
    ensures
        r@ == prepared(original@, interp@, real_path@, rewrite),
{
    if !rewrite {
        return vstd::slice::slice_to_vec(original);
    }
    let mut command = match argv0_fix(interp) {
        Argv0Fix::BashArgv0 => "BASH_ARGV0=".to_owned(),
        Argv0Fix::ZshZero => "0=".to_owned(),
        Argv0Fix::Unsupported => {
            return vstd::slice::slice_to_vec(original);
        },
    };
    let quoted = shell_squote(real_path);
    command.append(quoted.as_str());
    let command = command.as_str().as_bytes();

    let shebang = original.len() >= 2 && original[0] == 0x23 && original[1] == 0x21;
    let split: usize = if shebang {
        let end = first_line_end(original);
        if end == original.len() {
            let mut out = vstd::slice::slice_to_vec(original);
            out.push(0x0a);
            out.extend_from_slice(command);
            out.push(0x0a);
            return out;
        }
        end + 1
    } else {
        0
    };
    let mut out = vstd::slice::slice_to_vec(slice_subrange(original, 0, split));
    out.extend_from_slice(command);
    out.push(0x3b);
    out.push(0x20);
    out.extend_from_slice(slice_subrange(original, split, original.len()));
    assert(out@ =~= joined(original@, command@));
    out
}

// ---------------------------------------------------------------------------
// What quoting and joining keep

/// What a POSIX shell makes of the rest of a word, from inside or outside single
/// quotes; `None` where the word is not made of single quotes and backslashes
/// alone, or a quote is not closed.
pub open spec fn shell_reading(s: Seq<char>, inside: bool) -> Option<Seq<char>>
    decreases s.len(),
{
    if s.len() == 0 {
        if inside {
            None
        } else {
            Some(seq![])
        }
    } else if s[0] == '\'' {
        shell_reading(s.skip(1), !inside)
    } else if inside {
        with_first(s[0], shell_reading(s.skip(1), true))
    } else if s[0] == '\\' && s.len() >= 2 && s[1] != '\n' {
        with_first(s[1], shell_reading(s.skip(2), false))
    } else {
        None
    }
}

/// `c` before the rest, where there is one.
pub open spec fn with_first(c: char, rest: Option<Seq<char>>) -> Option<Seq<char>> {
    match rest {
        Some(r) => Some(seq![c] + r),
        None => None,
    }
}

/// `first` before the rest, where there is one.
pub open spec fn with_start(first: Seq<char>, rest: Option<Seq<char>>) -> Option<Seq<char>> {
    match rest {
        Some(r) => Some(first + r),
        None => None,
    }
}

proof fn lemma_escaped_reads_back(s: Seq<char>, rest: Seq<char>)
    ensures
        shell_reading(escaped(s) + rest, true) == with_start(s, shell_reading(rest, true)),
    decreases s.len(),
{
    if s.len() == 0 {
        assert(escaped(s) + rest =~= rest);
        match shell_reading(rest, true) {
            Some(r) => {
                assert(s + r =~= r);
            },
            None => {},
        }
    } else {
        let init = s.drop_last();
        let c = s.last();
        reveal_strlit("'\\''");
        let piece: Seq<char> = if c == '\'' {
            "'\\''"@
        } else {
            seq![c]
        };
        assert(escaped(s) + rest =~= escaped(init) + (piece + rest));
        lemma_escaped_reads_back(init, piece + rest);
        let after = piece + rest;
        if c == '\'' {
            assert(after.skip(1).skip(2).skip(1) =~= rest);
            assert(after.skip(1)[0] == '\\' && after.skip(1)[1] == '\'');
            assert(after.skip(1).skip(2)[0] == '\'');
            assert(shell_reading(after.skip(1).skip(2), false) == shell_reading(rest, true));
            assert(shell_reading(after.skip(1), false) == with_first(
                c,
                shell_reading(rest, true),
            ));
        } else {
            assert(after.skip(1) =~= rest);
        }
        assert(shell_reading(after, true) == with_first(c, shell_reading(rest, true)));
        match shell_reading(rest, true) {
            Some(r) => {
                assert(init + (seq![c] + r) =~= s + r);
            },
            None => {},
        }
    }
}

/// A shell reads a quoted text as one word, and that word is the text.
pub proof fn law_quoted_text_reads_back(s: Seq<char>)
    ensures
        shell_reading(squoted(s), false) == Some(s),
{
    let q = squoted(s);
    let end = seq!['\''];
    assert(q.skip(1) =~= escaped(s) + end);
    lemma_escaped_reads_back(s, end);
    reveal_with_fuel(shell_reading, 2);
    assert(end.skip(1) =~= Seq::<char>::empty());
    assert(shell_reading(end, true) == Some(Seq::<char>::empty()));
    assert(s + Seq::<char>::empty() =~= s);
}

/// The number of the line on which the byte at `at` stands.
pub open spec fn line_number(bytes: Seq<u8>, at: int) -> int
    decreases at,
{
    if at <= 0 {
        1
    } else {
        line_number(bytes, at - 1) + if bytes[at - 1] == 0x0a {
            1int
        } else {
            0int
        }
    }
}

/// Where the byte at `at` of a script stands once `command` is joined onto it.
pub open spec fn moved(bytes: Seq<u8>, command: Seq<u8>, at: int) -> int {
    if at < body_start(bytes) {
        at
    } else {
        at + command.len() + 2
    }
}

proof fn lemma_scalar_bytes(c: u32)
    by (bit_vector)
    requires
        c != 0x0a,
    ensures
        has_width_1_encoding(c) ==> leading_byte_width_1(c) != 0x0a,
        leading_byte_width_2(c) != 0x0a,
        leading_byte_width_3(c) != 0x0a,
        leading_byte_width_4(c) != 0x0a,
        last_continuation_byte(c) != 0x0a,
        second_last_continuation_byte(c) != 0x0a,
        third_last_continuation_byte(c) != 0x0a,
{
}

/// The bytes of a text without a line feed hold none either.
pub proof fn lemma_one_line(s: Seq<char>)
    requires
        !s.contains('\n'),
    ensures
        !encode_utf8(s).contains(0x0a),
    decreases s.len(),
{
    if s.len() > 0 {
        let c = s[0];
        let rest = s.drop_first();
        assert forall|k: int| 0 <= k < rest.len() implies #[trigger] rest[k] != '\n' by {
            assert(rest[k] == s[k + 1]);
        }
        lemma_one_line(rest);
        assert(c != '\n');
        char_u32_cast(c, c as u32);
        char_u32_cast('\n', 0x0au32);
        lemma_scalar_bytes(c as u32);
        let first = encode_scalar(c as u32);
        let bytes = encode_utf8(s);
        assert(bytes =~= first + encode_utf8(rest));
        assert forall|k: int| 0 <= k < bytes.len() implies #[trigger] bytes[k] != 0x0a by {
            if k < first.len() {
                assert(bytes[k] == first[k]);
            } else {
                assert(bytes[k] == encode_utf8(rest)[k - first.len()]);
                assert(encode_utf8(rest).contains(encode_utf8(rest)[k - first.len()]));
            }
        }
    }
}

proof fn lemma_line_number_prefix(a: Seq<u8>, b: Seq<u8>, at: int)
    requires
        0 <= at <= a.len(),
        at <= b.len(),
        forall|k: int| 0 <= k < at ==> a[k] == b[k],
    ensures
        line_number(a, at) == line_number(b, at),
    decreases at,
{
    if at > 0 {
        lemma_line_number_prefix(a, b, at - 1);
    }
}

proof fn lemma_line_number_shift(a: Seq<u8>, b: Seq<u8>, from: int, by: int, at: int)
    requires
        0 <= from <= at <= a.len(),
        0 <= by,
        b.len() == a.len() + by,
        forall|k: int| 0 <= k < from ==> a[k] == b[k],
        forall|k: int| from <= k < from + by ==> b[k] != 0x0a,
        forall|k: int| from <= k < a.len() ==> a[k] == b[k + by],
    ensures
        line_number(b, at + by) == line_number(a, at),
    decreases at - from, by,
{
    if at > from {
        lemma_line_number_shift(a, b, from, by, at - 1);
        assert(b[at - 1 + by] == a[at - 1]);
    } else {
        lemma_line_number_prefix(a, b, from);
        lemma_flat(b, from, by);
    }
}

proof fn lemma_flat(b: Seq<u8>, from: int, by: int)
    requires
        0 <= from,
        0 <= by,
        from + by <= b.len(),
        forall|k: int| from <= k < from + by ==> b[k] != 0x0a,
    ensures
        line_number(b, from + by) == line_number(b, from),
    decreases by,
{
    if by > 0 {
        lemma_flat(b, from, by - 1);
    }
}

/// Joining a one-line command onto a script keeps every byte of it, in order,
/// and on its line: error messages name the lines of the script on disk.
pub proof fn law_lines_keep_their_numbers(bytes: Seq<u8>, command: Seq<u8>, at: int)
    requires
        !command.contains(0x0a),
        0 <= at < bytes.len(),
    ensures
        0 <= moved(bytes, command, at) < joined(bytes, command).len(),
        joined(bytes, command)[moved(bytes, command, at)] == bytes[at],
        line_number(joined(bytes, command), moved(bytes, command, at)) == line_number(bytes, at),
{
    lemma_line_one(bytes);
    let out = joined(bytes, command);
    let from = body_start(bytes);
    if at < from {
        lemma_line_number_prefix(bytes, out, at);
    } else {
        let by = command.len() + 2;
        assert forall|k: int| from <= k < from + by implies out[k] != 0x0a by {
            if k < from + command.len() {
                assert(out[k] == command[k - from]);
                assert(command.contains(command[k - from]));
            }
        }
        lemma_line_number_shift(bytes, out, from, by as int, at);
    }
}

/// The bytes that the interpreter is given keep every line of the script on its
/// number, whatever the interpreter, for a path that is one line long.
pub proof fn law_prepared_lines_keep_their_numbers(
    original: Seq<u8>,
    interp: Seq<char>,
    path: Seq<char>,
    rewrite: bool,
    at: int,
)
    requires
        !path.contains('\n'),
        0 <= at < original.len(),
    ensures
        exists|to: int|
            0 <= to < prepared(original, interp, path, rewrite).len() && #[trigger] prepared(
                original,
                interp,
                path,
                rewrite,
            )[to] == original[at] && line_number(prepared(original, interp, path, rewrite), to)
                == line_number(original, at),
{
    let out = prepared(original, interp, path, rewrite);
    if rewrite && fix_of(interp) != Argv0Fix::Unsupported {
        let command = reset(fix_of(interp), path);
        lemma_reset_is_one_line(fix_of(interp), path);
        lemma_one_line(command);
        law_lines_keep_their_numbers(original, encode_utf8(command), at);
        let to = moved(original, encode_utf8(command), at);
        assert(out[to] == original[at]);
    } else {
        assert(out[at] == original[at]);
    }
}

proof fn lemma_escaped_is_one_line(s: Seq<char>)
    requires
        !s.contains('\n'),
    ensures
        !escaped(s).contains('\n'),
    decreases s.len(),
{
    reveal_strlit("'\\''");
    if s.len() > 0 {
        let init = s.drop_last();
        assert forall|k: int| 0 <= k < init.len() implies #[trigger] init[k] != '\n' by {
            assert(init[k] == s[k]);
        }
        lemma_escaped_is_one_line(init);
        let e = escaped(s);
        let n = escaped(init).len();
        assert forall|k: int| 0 <= k < e.len() implies #[trigger] e[k] != '\n' by {
            if k < n {
                assert(e[k] == escaped(init)[k]);
                assert(escaped(init).contains(escaped(init)[k]));
            }
        }
    }
}

proof fn lemma_reset_is_one_line(fix: Argv0Fix, path: Seq<char>)
    requires
        !path.contains('\n'),
    ensures
        !reset(fix, path).contains('\n'),
{
    reveal_strlit("BASH_ARGV0=");
    reveal_strlit("0=");
    lemma_escaped_is_one_line(path);
    let e = escaped(path);
    let q = squoted(path);
    assert forall|k: int| 0 <= k < q.len() implies #[trigger] q[k] != '\n' by {
        if 0 < k < q.len() - 1 {
            assert(q[k] == e[k - 1]);
            assert(e.contains(e[k - 1]));
        }
    }
    let c = reset(fix, path);
    let n = c.len() - q.len();
    assert forall|k: int| 0 <= k < c.len() implies #[trigger] c[k] != '\n' by {
        if fix != Argv0Fix::Unsupported && k >= n {
            assert(c[k] == q[k - n]);
        }
    }
}

/// The shebang stays the first line of what the interpreter is given.
pub proof fn law_shebang_stays_on_line_one(
    original: Seq<u8>,
    interp: Seq<char>,
    path: Seq<char>,
    rewrite: bool,
)
    requires
        has_shebang(original),
    ensures
        has_shebang(prepared(original, interp, path, rewrite)),
        line_one(prepared(original, interp, path, rewrite)) == line_one(original),
        prepared(original, interp, path, rewrite).take(line_one(original)) == original.take(
            line_one(original),
        ),
{
    lemma_line_one(original);
    let out = prepared(original, interp, path, rewrite);
    let n = line_one(original);
    assert(line_one(original.skip(1)) >= 0) by {
        lemma_line_one(original.skip(1));
    }
    assert(line_one(original.skip(1).skip(1)) >= 0) by {
        lemma_line_one(original.skip(1).skip(1));
    }
    assert(n >= 2);
    lemma_line_one(out);
    assert(forall|k: int| 0 <= k < n ==> out[k] == original[k]);
    if n < out.len() {
        if line_one(out) < n {
            assert(out[line_one(out)] == original[line_one(out)]);
        }
        if n < line_one(out) {
            assert(out[n] == 0x0a);
        }
    }
    assert(out.take(n) =~= original.take(n));
}

/// Where nothing is to be reset, or the interpreter has no way to, it is given
/// the script itself.
pub proof fn law_other_scripts_are_served_verbatim(
    original: Seq<u8>,
    interp: Seq<char>,
    path: Seq<char>,
    rewrite: bool,
)
    requires
        !rewrite || (text::basename(interp) != "bash"@ && text::basename(interp) != "zsh"@),
    ensures
        prepared(original, interp, path, rewrite) == original,
{
}

/// Where `$0` is to be reset and the interpreter is `bash` or `zsh`, by whatever
/// path, what it is given is the script with one command before its body: an
/// assignment to `BASH_ARGV0`, or to `0`, of a word that a shell reads as the path
/// itself. The body starts after the line of a shebang, and else at once; where
/// nothing follows the shebang, the command has a line of its own.
pub proof fn law_the_path_is_what_dollar_zero_is_set_to(
    first: Seq<u8>,
    body: Seq<u8>,
    other: Seq<u8>,
    dir: Seq<char>,
    bash: bool,
    path: Seq<char>,
)
    requires
        first.len() >= 2 && first[0] == 0x23 && first[1] == 0x21,
        !first.contains(0x0a),
        !(other.len() >= 2 && other[0] == 0x23 && other[1] == 0x21),
        dir.len() == 0 || dir.last() == '/',
    ensures
        ({
            let interp = dir + if bash {
                "bash"@
            } else {
                "zsh"@
            };
            let name = if bash {
                "BASH_ARGV0="@
            } else {
                "0="@
            };
            exists|word: Seq<char>|
                #![trigger shell_reading(word, false)]
                {
                    &&& shell_reading(word, false) == Some(path)
                    &&& prepared(first.push(0x0a) + body, interp, path, true) == first.push(0x0a) + encode_utf8(name + word + "; "@) + body
                    &&& prepared(first, interp, path, true) == first.push(0x0a) + encode_utf8(
                        name + word + "\n"@,
                    )
                    &&& prepared(other, interp, path, true) == encode_utf8(name + word + "; "@)
                        + other
                }
        }),
{
    reveal_strlit("bash");
    reveal_strlit("zsh");
    reveal_strlit("; ");
    reveal_strlit("\n");
    let base = if bash {
        "bash"@
    } else {
        "zsh"@
    };
    let name = if bash {
        "BASH_ARGV0="@
    } else {
        "0="@
    };
    let interp = dir + base;
    assert(!base.contains('/')) by {
        assert("bash"@ =~= seq!['b', 'a', 's', 'h']);
        assert("zsh"@ =~= seq!['z', 's', 'h']);
    }
    text::lemma_basename(dir, base);
    assert("bash"@.len() == 4 && "zsh"@.len() == 3);
    let word = squoted(path);
    law_quoted_text_reads_back(path);
    let command = name + word;
    assert(reset(fix_of(interp), path) == command);
    text::lemma_encode_concat(command, "; "@);
    text::lemma_encode_concat(command, "\n"@);
    lemma_ascii_two();
    lemma_ascii_feed();
    let whole = first.push(0x0a) + body;
    assert(whole[0] == first[0] && whole[1] == first[1]);
    assert forall|k: int| 0 <= k < first.len() implies #[trigger] whole[k] != 0x0a by {
        assert(whole[k] == first[k]);
        assert(first.contains(first[k]));
    }
    assert(whole[first.len() as int] == 0x0a);
    lemma_line_one_unique(whole, first.len() as int);
    assert(whole.take(first.len() as int + 1) =~= first.push(0x0a));
    assert(whole.skip(first.len() as int + 1) =~= body);
    assert(prepared(whole, interp, path, true) =~= first.push(0x0a) + encode_utf8(
        name + word + "; "@,
    ) + body);
    assert forall|k: int| 0 <= k < first.len() implies #[trigger] first[k] != 0x0a by {
        assert(first.contains(first[k]));
    }
    lemma_line_one_unique(first, first.len() as int);
    assert(prepared(first, interp, path, true) =~= first.push(0x0a) + encode_utf8(
        name + word + "\n"@,
    ));
    assert(other.take(0) =~= seq![]);
    assert(other.skip(0) =~= other);
    assert(prepared(other, interp, path, true) =~= encode_utf8(name + word + "; "@) + other);
}

/// The first line ends where its line feed is.
pub proof fn lemma_line_one_unique(bytes: Seq<u8>, n: int)
    requires
        0 <= n <= bytes.len(),
        n < bytes.len() ==> bytes[n] == 0x0a,
        forall|k: int| 0 <= k < n ==> #[trigger] bytes[k] != 0x0a,
    ensures
        line_one(bytes) == n,
{
    lemma_line_one(bytes);
    if line_one(bytes) < n {
        assert(bytes[line_one(bytes)] != 0x0a);
    } else if n < line_one(bytes) {
        assert(bytes[n] != 0x0a);
    }
}

proof fn lemma_ascii_two()
    ensures
        encode_utf8("; "@) == seq![0x3bu8, 0x20u8],
{
    reveal_strlit("; ");
    is_ascii_chars_encode_utf8("; "@);
    assert(encode_utf8("; "@) =~= seq![0x3bu8, 0x20u8]);
}

proof fn lemma_ascii_feed()
    ensures
        encode_utf8("\n"@) == seq![0x0au8],
{
    reveal_strlit("\n");
    is_ascii_chars_encode_utf8("\n"@);
    assert(encode_utf8("\n"@) =~= seq![0x0au8]);
}

} // verus!
