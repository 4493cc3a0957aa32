//! The immutable copy that the interpreter reads, and the file it is made from.

use vstd::prelude::*;
use vstd::string::*;

use crate::text;

verus! {

/// The path under which a process reads its own file descriptor `fd`, on Linux
/// and elsewhere.
pub open spec fn descriptor_path(linux: bool, fd: nat) -> Seq<char> {
    if linux {
        "/proc/self/fd/"@ + text::decimal(fd)
    } else {
        "/dev/fd/"@ + text::decimal(fd)
    }
}

/// The path under which a process reads its own file descriptor `fd`, on Linux
/// and elsewhere.
pub fn fd_path(linux: bool, fd: u32) -> (r: String)
    ensures
        r@ == descriptor_path(linux, fd as nat),
{
    let mut out = if linux {
        "/proc/self/fd/".to_owned()
    } else {
        "/dev/fd/".to_owned()
    };
    let number = text::decimal_of(fd as u128);
    out.append(number.as_str());
    out
}

/// The name of the temporary file for a copy, where copies are made from files:
/// one for each attempt of a process.
pub fn temp_copy_name(pid: u32, attempt: u32) -> (r: String)
    ensures
        r@ == ".scriptbox."@ + text::decimal(pid as nat) + "."@ + text::decimal(attempt as nat),
{
    let mut out = ".scriptbox.".to_owned();
    let pid = text::decimal_of(pid as u128);
    out.append(pid.as_str());
    out.append(".");
    let attempt = text::decimal_of(attempt as u128);
    out.append(attempt.as_str());
    out
}

/// How far a copy of `len` bytes is once `n` more bytes were written after `at`
/// of them. `None` where nothing was written, or more than was left.
pub fn after_write(len: usize, at: usize, n: usize) -> (r: Option<usize>)
    requires
        at <= len,
    ensures
        match r {
            Some(next) => next == at + n && at < next <= len,
            None => n == 0 || at + n > len,
        },
{
    if n == 0 || n > len - at {
        None
    } else {
        Some(at + n)
    }
}

/// The flag of a file whose contents are not on this machine.
pub const SF_DATALESS: u32 = 0x4000_0000;

/// Whether a file is only a placeholder, whose contents would first have to be
/// fetched: reading it could wait forever.
pub fn is_dataless(flags: u32) -> (r: bool)
    ensures
        r == (flags & SF_DATALESS != 0),
{
    flags & SF_DATALESS != 0
}

/// The message for a file that is only a placeholder.
pub fn dataless_message(path: &str) -> (r: String)
    ensures
        r@ == "`"@ + path@
            + "` is a dataless (online-only) file; refusing to trigger a cloud download. Materialize it first (open/download it), then re-run."@,
{
    let mut out = "`".to_owned();
    out.append(path);
    out.append(
        "` is a dataless (online-only) file; refusing to trigger a cloud download. Materialize it first (open/download it), then re-run.",
    );
    out
}

} // verus!
