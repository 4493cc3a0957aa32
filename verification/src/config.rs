//! The switches. Each is set by a command-line flag or by a key of the
//! `# /// scriptbox` block, with the same vocabulary, and each set of fixes that
//! exclude one another is one switch with named modes.

use vstd::prelude::*;
use vstd::string::*;

use crate::text;

verus! {

/// How `$0` is made to report the real path of the script, which the
/// interpreter reads under the path of a file descriptor.
#[derive(Clone, Copy, Debug, PartialEq, Eq, Structural)]
pub enum Argv0 {
    /// Reset `$0` from within the run, where the shell has a way to.
    Rewrite,
    /// Read the script with the dot command, from a shell whose `$0` is the real
    /// path.
    Source,
    /// Leave `$0` as it is.
    Off,
}

/// What is done about the scripts that a script runs or reads.
#[derive(Clone, Copy, Debug, PartialEq, Eq, Structural)]
pub enum Subscripts {
    /// Nothing.
    Off,
    /// Find them and list them; what runs stays as it is.
    Report,
    /// Protect the whole tree of scripts: children run under scriptbox, and
    /// included files are read from immutable copies.
    Freeze,
}

/// A value that is no mode of a switch, trimmed and in small letters.
#[derive(Debug, PartialEq, Eq)]
pub struct UnknownMode {
    /// The switch.
    pub switch: Switch,
    /// The value.
    pub mode: String,
}

/// A switch.
#[derive(Clone, Copy, Debug, PartialEq, Eq, Structural)]
pub enum Switch {
    /// `argv0`.
    Argv0,
    /// `subscripts`.
    Subscripts,
}

/// The form in which a value is compared with the names of the modes.
pub open spec fn plain(s: Seq<char>) -> Seq<char> {
    text::lower(text::trim(s))
}

/// The form in which a value is compared with the names of the modes.
fn plain_form(s: &str) -> (r: Vec<char>)
    ensures
        r@ == plain(s@),
{
    let chars = text::chars_of(s);
    text::to_lower(text::strip(&chars))
}

impl UnknownMode {
    /// The message.
    pub open spec fn says(self) -> Seq<char> {
        match self.switch {
            Switch::Argv0 => "unknown argv0 mode `"@ + self.mode@
                + "` (want: rewrite | source | off)"@,
            Switch::Subscripts => "unknown subscripts mode `"@ + self.mode@
                + "` (want: off | report | freeze)"@,
        }
    }

    /// The message.
    pub fn message(&self) -> (r: String)
        ensures
            r@ == self.says(),
    {
        match self.switch {
            Switch::Argv0 => {
                let mut out = "unknown argv0 mode `".to_owned();
                out.append(self.mode.as_str());
                out.append("` (want: rewrite | source | off)");
                out
            },
            Switch::Subscripts => {
                let mut out = "unknown subscripts mode `".to_owned();
                out.append(self.mode.as_str());
                out.append("` (want: off | report | freeze)");
                out
            },
        }
    }
}

impl Argv0 {
    /// The mode without a flag and without a key.
    pub const DEFAULT: Argv0 = Argv0::Rewrite;

    /// The mode that a value names, if it names one.
    pub open spec fn named(s: Seq<char>) -> Option<Argv0> {
        let m = plain(s);
        if m == "rewrite"@ {
            Some(Argv0::Rewrite)
        } else if m == "source"@ {
            Some(Argv0::Source)
        } else if m == "off"@ || m == "none"@ || m == "false"@ {
            Some(Argv0::Off)
        } else {
            None
        }
    }

    /// The mode that a value names; white space around the name and capital
    /// letters make no difference.
    pub fn parse(s: &str) -> (r: Result<Argv0, UnknownMode>)
        ensures
            match r {
                Ok(m) => Argv0::named(s@) == Some(m),
                Err(e) => Argv0::named(s@) is None && e.switch == Switch::Argv0 && e.mode@
                    == plain(s@),
            },
    {
        let m = plain_form(s);
        if text::reads(&m, "rewrite") {
            Ok(Argv0::Rewrite)
        } else if text::reads(&m, "source") {
            Ok(Argv0::Source)
        } else if text::reads(&m, "off") || text::reads(&m, "none") || text::reads(&m, "false") {
            Ok(Argv0::Off)
        } else {
            Err(UnknownMode { switch: Switch::Argv0, mode: text::string_of(&m) })
        }
    }
}

impl Subscripts {
    /// The mode without a flag and without a key.
    pub const DEFAULT: Subscripts = Subscripts::Off;

    /// The mode that a value names, if it names one.
    pub open spec fn named(s: Seq<char>) -> Option<Subscripts> {
        let m = plain(s);
        if m == "off"@ || m == "none"@ || m == "false"@ {
            Some(Subscripts::Off)
        } else if m == "report"@ {
            Some(Subscripts::Report)
        } else if m == "freeze"@ || m == "on"@ || m == "true"@ || m == "wrap"@ || m
            == "freeze-tree"@ || m == "tree"@ {
            Some(Subscripts::Freeze)
        } else {
            None
        }
    }

    /// Whether the mode looks into the script, and so needs the shell parser.
    pub fn needs_parser(self) -> (r: bool)
        ensures
            r == (self != Subscripts::Off),
    {
        !matches!(self, Subscripts::Off)
    }

    /// The mode that a value names; white space around the name and capital
    /// letters make no difference.
    pub fn parse(s: &str) -> (r: Result<Subscripts, UnknownMode>)
        ensures
            match r {
                Ok(m) => Subscripts::named(s@) == Some(m),
                Err(e) => Subscripts::named(s@) is None && e.switch == Switch::Subscripts
                    && e.mode@ == plain(s@),
            },
    {
        let m = plain_form(s);
        if text::reads(&m, "off") || text::reads(&m, "none") || text::reads(&m, "false") {
            Ok(Subscripts::Off)
        } else if text::reads(&m, "report") {
            Ok(Subscripts::Report)
        } else if text::reads(&m, "freeze") || text::reads(&m, "on") || text::reads(&m, "true")
            || text::reads(&m, "wrap") || text::reads(&m, "freeze-tree") || text::reads(&m, "tree") {
            Ok(Subscripts::Freeze)
        } else {
            Err(UnknownMode { switch: Switch::Subscripts, mode: text::string_of(&m) })
        }
    }
}

// ---------------------------------------------------------------------------
// Laws

/// Whether `s` is `name`, in capital or small letters.
pub open spec fn spells(s: Seq<char>, name: Seq<char>) -> bool {
    s.len() == name.len() && forall|k: int|
        0 <= k < s.len() ==> #[trigger] s[k] == name[k] || (s[k] as u32 + 32 == name[k] as u32
            && 'A' <= s[k] <= 'Z')
}

/// Whether `s` is `name` with white space around it, in capital or small letters.
pub open spec fn says(s: Seq<char>, name: Seq<char>) -> bool {
    exists|i: int, j: int|
        #![trigger s.subrange(i, j)]
        0 <= i <= j <= s.len() && spells(s.subrange(i, j), name) && (forall|k: int|
            0 <= k < i || j <= k < s.len() ==> text::is_white(#[trigger] s[k]))
}

/// A name without white space and without capital letters.
pub open spec fn is_name(name: Seq<char>) -> bool {
    name.len() > 0 && forall|k: int|
        0 <= k < name.len() ==> !text::is_white(#[trigger] name[k]) && !('A' <= name[k] <= 'Z')
}

/// What is compared is a name just where the value is the name, with white space
/// around it or in capital letters.
pub proof fn lemma_plain(s: Seq<char>, name: Seq<char>)
    requires
        is_name(name),
    ensures
        plain(s) == name <==> says(s, name),
{
    let t = text::trim(s);
    text::lemma_trim_parts(s, text::CharClass::White);
    if plain(s) == name {
        let i = text::lemma_trim_parts(s, text::CharClass::White);
        let j = i + t.len();
        assert(s.subrange(i, j) =~= t);
        assert forall|k: int| 0 <= k < t.len() implies #[trigger] t[k] == name[k] || (t[k] as u32
            + 32 == name[k] as u32 && 'A' <= t[k] <= 'Z') by {
            assert(text::lower(t)[k] == text::lower_char(t[k]));
        }
        assert(spells(s.subrange(i, j), name));
    }
    if says(s, name) {
        let (i, j) = choose|i: int, j: int|
            #![trigger s.subrange(i, j)]
            0 <= i <= j <= s.len() && spells(s.subrange(i, j), name) && (forall|k: int|
                0 <= k < i || j <= k < s.len() ==> text::is_white(#[trigger] s[k]));
        let w = s.subrange(i, j);
        assert(w[0] == s[i] && w[w.len() - 1] == s[j - 1]);
        assert forall|k: int| 0 <= k < w.len() implies text::lower_char(#[trigger] w[k])
            == name[k] by {
            assert(!text::is_white(name[k]) && !('A' <= name[k] <= 'Z'));
            if w[k] != name[k] {
                let n = (w[k] as u32 + 32) as u32;
                assert('A' <= w[k] <= 'Z');
                assert(name[k] as u32 == n);
                assert(97 <= n <= 122);
                assert(n as char == name[k]) by {
                    vstd::utf8::char_u32_cast(name[k], n);
                }
            }
        }
        assert(!text::is_white(w[0]) && !text::is_white(w[w.len() - 1])) by {
            assert(!text::is_white(name[0]) && !text::is_white(name[name.len() - 1]));
        }
        text::lemma_trim_both(s, text::CharClass::White, i, j);
        assert(text::lower(w) =~= name);
    }
}

/// The modes for `$0` go by these names and no others, whatever the case of the
/// letters and with white space around them.
pub proof fn law_argv0_modes_have_their_names(s: Seq<char>)
    ensures
        Argv0::named(s) == Some(Argv0::Rewrite) <==> says(s, "rewrite"@),
        Argv0::named(s) == Some(Argv0::Source) <==> says(s, "source"@),
        Argv0::named(s) == Some(Argv0::Off) <==> says(s, "off"@) || says(s, "none"@) || says(
            s,
            "false"@,
        ),
{
    reveal_strlit("rewrite");
    reveal_strlit("source");
    reveal_strlit("off");
    reveal_strlit("none");
    reveal_strlit("false");
    assert("rewrite"@.len() == 7 && "source"@.len() == 6 && "off"@.len() == 3);
    assert("none"@.len() == 4 && "false"@.len() == 5);
    lemma_plain(s, "rewrite"@);
    lemma_plain(s, "source"@);
    lemma_plain(s, "off"@);
    lemma_plain(s, "none"@);
    lemma_plain(s, "false"@);
}

/// The modes for subscripts go by these names and no others, whatever the case of
/// the letters and with white space around them.
pub proof fn law_subscripts_modes_have_their_names(s: Seq<char>)
    ensures
        Subscripts::named(s) == Some(Subscripts::Off) <==> says(s, "off"@) || says(s, "none"@)
            || says(s, "false"@),
        Subscripts::named(s) == Some(Subscripts::Report) <==> says(s, "report"@),
        Subscripts::named(s) == Some(Subscripts::Freeze) <==> says(s, "freeze"@) || says(s, "on"@)
            || says(s, "true"@) || says(s, "wrap"@) || says(s, "freeze-tree"@) || says(s, "tree"@),
{
    reveal_strlit("off");
    reveal_strlit("none");
    reveal_strlit("false");
    reveal_strlit("report");
    reveal_strlit("freeze");
    reveal_strlit("on");
    reveal_strlit("true");
    reveal_strlit("wrap");
    reveal_strlit("freeze-tree");
    reveal_strlit("tree");
    assert("off"@.len() == 3 && "none"@.len() == 4 && "false"@.len() == 5);
    assert("report"@.len() == 6 && "freeze"@.len() == 6 && "on"@.len() == 2);
    assert("true"@.len() == 4 && "wrap"@.len() == 4 && "freeze-tree"@.len() == 11);
    assert("tree"@.len() == 4);
    assert("report"@[0] == 'r' && "freeze"@[0] == 'f');
    assert("none"@[0] == 'n' && "true"@[0] == 't' && "wrap"@[0] == 'w' && "tree"@[0] == 't');
    lemma_plain(s, "off"@);
    lemma_plain(s, "none"@);
    lemma_plain(s, "false"@);
    lemma_plain(s, "report"@);
    lemma_plain(s, "freeze"@);
    lemma_plain(s, "on"@);
    lemma_plain(s, "true"@);
    lemma_plain(s, "wrap"@);
    lemma_plain(s, "freeze-tree"@);
    lemma_plain(s, "tree"@);
}

/// Without a flag and without a key, `$0` is reset and subscripts are left alone.
pub proof fn law_defaults()
    ensures
        Argv0::DEFAULT == Argv0::Rewrite,
        Subscripts::DEFAULT == Subscripts::Off,
{
}

} // verus!
