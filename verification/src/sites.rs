//! The places of a shell program at which it runs or reads another script.

use vstd::prelude::*;
use vstd::string::*;

use crate::expansions;
use crate::parser;
use crate::shell;
use crate::substitutions;
use crate::substitutions::Quoting;
use crate::text;

verus! {

/// What a site does with the other script.
#[derive(Clone, Copy, Debug, PartialEq, Eq, Structural)]
pub enum Category {
    /// `source` and `.`: read it in the same process.
    Source,
    /// A shell runs it, by name or as a program.
    ShellChild,
    /// An interpreter runs it that reads its whole file first.
    OtherChild,
}

/// A place at which a script runs or reads another one.
#[derive(Debug, PartialEq, Eq)]
pub struct Site {
    /// The kind of command, for reports.
    pub label: &'static str,
    /// What it does with the other script.
    pub category: Category,
    /// The line of the command, or of the word with the command substitution that
    /// it stands in; 0 where it is not known.
    pub line: usize,
    /// The index of the first character of the command, or of that word; 0 where
    /// it is not known.
    pub cmd_offset: usize,
    /// The indices of the first character of the argument that names the other
    /// script and of the one after the argument.
    pub arg_span: Option<(usize, usize)>,
    /// The name of the other script, without quoting.
    pub target: String,
    /// Whether the other script can be known: its name is a literal, with nothing
    /// for the shell to expand, and the command stands in no command substitution.
    pub resolvable: bool,
}

/// The model of a site.
#[verifier::ext_equal]
pub struct SiteModel {
    /// The kind of command.
    pub label: Seq<char>,
    /// What it does with the other script.
    pub category: Category,
    /// The line of the command, or of the word that it stands in.
    pub line: usize,
    /// The index of the first character of the command, or of that word.
    pub cmd_offset: usize,
    /// Where the argument that names the other script stands.
    pub arg_span: Option<(usize, usize)>,
    /// The name of the other script.
    pub target: Seq<char>,
    /// Whether the other script can be known.
    pub resolvable: bool,
}

impl View for Site {
    type V = SiteModel;

    open spec fn view(&self) -> SiteModel {
        SiteModel {
            label: self.label@,
            category: self.category,
            line: self.line,
            cmd_offset: self.cmd_offset,
            arg_span: self.arg_span,
            target: self.target@,
            resolvable: self.resolvable,
        }
    }
}

/// The views of sites.
pub open spec fn views(v: Seq<Site>) -> Seq<SiteModel> {
    v.map_values(|s: Site| s@)
}

/// Whether a text has no parameter and no command for a shell to expand.
pub open spec fn is_fixed(s: Seq<char>) -> bool {
    !s.contains('$') && !s.contains('`')
}

/// Whether a word, quotes and all, has nothing that a shell expands.
pub open spec fn literal(s: Seq<char>) -> bool {
    is_fixed(s) && !expansions::expands(s)
}

/// Whether a word, quotes and all, has nothing that a shell expands.
pub fn is_literal(w: &str) -> (r: bool)
    ensures
        r == literal(w@),
{
    let chars = text::chars_of(w);
    !text::contains(&chars, '$') && !text::contains(&chars, '`') && !expansions::is_expanded(&chars)
}

/// The shells, by the last part of their path.
pub open spec fn shell(base: Seq<char>) -> bool {
    ||| base == "bash"@
    ||| base == "sh"@
    ||| base == "dash"@
    ||| base == "zsh"@
    ||| base == "ksh"@
    ||| base == "mksh"@
}

/// Whether a program is one of the shells, by the last part of its path.
pub fn is_shell(base: &[char]) -> (r: bool)
    ensures
        r == shell(base@),
{
    text::reads(base, "bash") || text::reads(base, "sh") || text::reads(base, "dash")
        || text::reads(base, "zsh") || text::reads(base, "ksh") || text::reads(base, "mksh")
}

/// The interpreters that read their whole file first, by the last part of their
/// path.
pub open spec fn other_interpreter(base: Seq<char>) -> bool {
    ||| base == "perl"@
    ||| base == "ruby"@
    ||| base == "node"@
    ||| base == "php"@
    ||| base == "lua"@
    ||| "python"@.is_prefix_of(base)
}

/// Whether a program is an interpreter that reads its whole file first, by the
/// last part of its path.
pub fn is_other_interpreter(base: &[char]) -> (r: bool)
    ensures
        r == other_interpreter(base@),
{
    text::reads(base, "perl") || text::reads(base, "ruby") || text::reads(base, "node")
        || text::reads(base, "php") || text::reads(base, "lua") || text::starts_with(base, "python")
}

/// The name that reports give an interpreter.
pub open spec fn label(base: Seq<char>) -> Seq<char> {
    if base == "mksh"@ {
        "ksh"@
    } else if shell(base) || (other_interpreter(base) && !"python"@.is_prefix_of(base)) {
        base
    } else {
        "python"@
    }
}

/// The name that reports give an interpreter.
pub fn interpreter_label(base: &[char]) -> (r: &'static str)
    ensures
        r@ == label(base@),
{
    proof {
        reveal_strlit("bash");
        reveal_strlit("sh");
        reveal_strlit("dash");
        reveal_strlit("zsh");
        reveal_strlit("ksh");
        reveal_strlit("mksh");
        reveal_strlit("python");
        reveal_strlit("perl");
        reveal_strlit("ruby");
        reveal_strlit("node");
        reveal_strlit("php");
        reveal_strlit("lua");
        assert("mksh"@[0] == 'm' && "bash"@[0] == 'b' && "dash"@[0] == 'd');
        assert("perl"@[0] == 'p' && "ruby"@[0] == 'r' && "node"@[0] == 'n');
        assert("perl"@.len() == 4 && "ruby"@.len() == 4 && "node"@.len() == 4);
        assert("php"@.len() == 3 && "lua"@.len() == 3 && "python"@.len() == 6);
    }
    if text::reads(base, "bash") {
        "bash"
    } else if text::reads(base, "sh") {
        "sh"
    } else if text::reads(base, "dash") {
        "dash"
    } else if text::reads(base, "zsh") {
        "zsh"
    } else if text::reads(base, "ksh") || text::reads(base, "mksh") {
        "ksh"
    } else if text::reads(base, "perl") {
        "perl"
    } else if text::reads(base, "ruby") {
        "ruby"
    } else if text::reads(base, "node") {
        "node"
    } else if text::reads(base, "php") {
        "php"
    } else if text::reads(base, "lua") {
        "lua"
    } else {
        "python"
    }
}

/// Whether a command name is a path: `./`, `../` or `/` stands at its start.
pub open spec fn is_path(name: Seq<char>) -> bool {
    ||| "./"@.is_prefix_of(name)
    ||| "../"@.is_prefix_of(name)
    ||| "/"@.is_prefix_of(name)
}

/// Whether a path is that of a shell script, by its ending.
pub open spec fn shell_script(name: Seq<char>) -> bool {
    ||| ".sh"@.is_suffix_of(name)
    ||| ".bash"@.is_suffix_of(name)
    ||| ".zsh"@.is_suffix_of(name)
    ||| ".ksh"@.is_suffix_of(name)
}

/// Whether a path is that of a script for an interpreter that reads its whole
/// file first, by its ending.
pub open spec fn other_script(name: Seq<char>) -> bool {
    ||| ".py"@.is_suffix_of(name)
    ||| ".pl"@.is_suffix_of(name)
    ||| ".rb"@.is_suffix_of(name)
    ||| ".js"@.is_suffix_of(name)
}

/// The first argument that is no option.
pub open spec fn first_operand(args: Seq<shell::WordModel>) -> Option<shell::WordModel>
    decreases args.len(),
{
    if args.len() == 0 {
        None
    } else if "-"@.is_prefix_of(args[0].value) {
        first_operand(args.skip(1))
    } else {
        Some(args[0])
    }
}

/// Whether the program is given in the command itself, by `-c`.
pub open spec fn inline(args: Seq<shell::WordModel>) -> bool {
    exists|i: int| 0 <= i < args.len() && #[trigger] args[i].value == "-c"@
}

/// The line of a word.
pub open spec fn line_of(w: shell::WordModel) -> usize {
    match w.span {
        Some(s) => s.line,
        None => 0,
    }
}

/// The index of the first character of a word.
pub open spec fn offset_of(w: shell::WordModel) -> usize {
    match w.span {
        Some(s) => s.start,
        None => 0,
    }
}

/// The site of a command `name` with the script in its argument `arg`.
pub open spec fn argument_site(
    name: shell::WordModel,
    label: Seq<char>,
    category: Category,
    arg: shell::WordModel,
) -> SiteModel {
    SiteModel {
        label,
        category,
        line: line_of(name),
        cmd_offset: offset_of(name),
        arg_span: match arg.span {
            Some(s) => Some((s.start, s.end)),
            None => None,
        },
        target: parser::unquoted(arg.value),
        resolvable: is_fixed(parser::unquoted(arg.value)) && !expansions::expands(arg.value),
    }
}

/// The site of a command that is a script itself.
pub open spec fn program_site(name: shell::WordModel, category: Category) -> SiteModel {
    SiteModel {
        label: "exec"@,
        category,
        line: line_of(name),
        cmd_offset: offset_of(name),
        arg_span: None,
        target: name.value,
        resolvable: literal(name.value),
    }
}

/// The site that a simple command is, if it is one.
pub open spec fn site_of(c: shell::InvocationModel) -> Option<SiteModel> {
    match c.name {
        None => None,
        Some(name) => {
            let base = text::basename(name.value);
            if name.value == "source"@ || name.value == "."@ {
                if c.args.len() > 0 {
                    Some(argument_site(name, "source"@, Category::Source, c.args[0]))
                } else {
                    None
                }
            } else if shell(base) || other_interpreter(base) {
                match first_operand(c.args) {
                    Some(arg) if !inline(c.args) => Some(
                        argument_site(
                            name,
                            label(base),
                            if shell(base) {
                                Category::ShellChild
                            } else {
                                Category::OtherChild
                            },
                            arg,
                        ),
                    ),
                    _ => None,
                }
            } else if is_path(name.value) && shell_script(name.value) {
                Some(program_site(name, Category::ShellChild))
            } else if is_path(name.value) && other_script(name.value) {
                Some(program_site(name, Category::OtherChild))
            } else {
                None
            }
        },
    }
}

/// The site of a command `name` with the script in its argument `arg`.
fn site_with_argument(
    name: &shell::ShellWord,
    label: &'static str,
    category: Category,
    arg: &shell::ShellWord,
) -> (r: Site)
    ensures
        r@ == argument_site(name@, label@, category, arg@),
{
    let (line, cmd_offset): (usize, usize) = match &name.span {
        Some(s) => (s.line, s.start),
        None => (0, 0),
    };
    let arg_span = match &arg.span {
        Some(s) => Some((s.start, s.end)),
        None => None,
    };
    let target = brush_parser::unquote_str(arg.value.as_str());
    let fixed = text::chars_of(target.as_str());
    let raw = text::chars_of(arg.value.as_str());
    let resolvable = !text::contains(&fixed, '$') && !text::contains(&fixed, '`')
        && !expansions::is_expanded(&raw);
    Site { label, category, line, cmd_offset, arg_span, target, resolvable }
}

/// Whether the program is given in the command itself, by `-c`.
fn is_inline(args: &Vec<shell::ShellWord>) -> (r: bool)
    ensures
        r == inline(shell::word_views(args@)),
{
    let ghost words = shell::word_views(args@);
    let mut i: usize = 0;
    while i < args.len()
        invariant
            i <= args@.len(),
            words == shell::word_views(args@),
            forall|k: int| 0 <= k < i ==> #[trigger] words[k].value != "-c"@,
        decreases args@.len() - i,
    {
        let value = text::chars_of(args[i].value.as_str());
        assert(words[i as int].value == value@);
        if text::reads(&value, "-c") {
            return true;
        }
        i = i + 1;
    }
    false
}

/// The first argument that is no option.
fn find_operand(args: &Vec<shell::ShellWord>) -> (r: Option<&shell::ShellWord>)
    ensures
        match r {
            Some(w) => first_operand(shell::word_views(args@)) == Some(w@),
            None => first_operand(shell::word_views(args@)) is None,
        },
{
    let ghost words = shell::word_views(args@);
    let mut i: usize = 0;
    assert(words.skip(0) =~= words);
    while i < args.len()
        invariant
            i <= args@.len(),
            words == shell::word_views(args@),
            first_operand(words) == first_operand(words.skip(i as int)),
        decreases args@.len() - i,
    {
        let value = text::chars_of(args[i].value.as_str());
        assert(words.skip(i as int)[0] == args@[i as int]@);
        if !text::starts_with(&value, "-") {
            return Some(&args[i]);
        }
        assert(words.skip(i as int).skip(1) =~= words.skip(i + 1));
        i = i + 1;
    }
    None
}

/// The site that a simple command is, if it is one: `source` or `.` with a file,
/// an interpreter with a script and no `-c`, or a path with the ending of a
/// script.
pub fn classify(cmd: &shell::Invocation) -> (r: Option<Site>)
    ensures
        match r {
            Some(s) => site_of(cmd@) == Some(s@),
            None => site_of(cmd@) is None,
        },
{
    let word = match &cmd.name {
        Some(word) => word,
        None => {
            return None;
        },
    };
    let ghost words = shell::word_views(cmd.args@);
    let name = text::chars_of(word.value.as_str());
    let base = text::base_of(&name);

    if text::reads(&name, "source") || text::reads(&name, ".") {
        if cmd.args.len() == 0 {
            return None;
        }
        assert(words[0] == cmd.args@[0]@);
        return Some(site_with_argument(word, "source", Category::Source, &cmd.args[0]));
    }
    let by_shell = is_shell(base);
    if by_shell || is_other_interpreter(base) {
        if is_inline(&cmd.args) {
            return None;
        }
        let arg = match find_operand(&cmd.args) {
            Some(arg) => arg,
            None => {
                return None;
            },
        };
        let category = if by_shell {
            Category::ShellChild
        } else {
            Category::OtherChild
        };
        return Some(site_with_argument(word, interpreter_label(base), category, arg));
    }
    if text::starts_with(&name, "./") || text::starts_with(&name, "../") || text::starts_with(
        &name,
        "/",
    ) {
        let category = if text::ends_with(&name, ".sh") || text::ends_with(&name, ".bash")
            || text::ends_with(&name, ".zsh") || text::ends_with(&name, ".ksh") {
            Category::ShellChild
        } else if text::ends_with(&name, ".py") || text::ends_with(&name, ".pl")
            || text::ends_with(&name, ".rb") || text::ends_with(&name, ".js") {
            Category::OtherChild
        } else {
            return None;
        };
        let (line, cmd_offset): (usize, usize) = match &word.span {
            Some(s) => (s.line, s.start),
            None => (0, 0),
        };
        let target = text::string_of(&name);
        let resolvable = is_literal(target.as_str());
        return Some(
            Site { label: "exec", category, line, cmd_offset, arg_span: None, target, resolvable },
        );
    }
    None
}

/// The sites among simple commands, in order.
pub open spec fn sites_among(cmds: Seq<shell::InvocationModel>) -> Seq<SiteModel>
    decreases cmds.len(),
{
    if cmds.len() == 0 {
        seq![]
    } else {
        match site_of(cmds.last()) {
            Some(s) => sites_among(cmds.drop_last()).push(s),
            None => sites_among(cmds.drop_last()),
        }
    }
}

/// The sites among simple commands, in order.
pub fn find_sites(cmds: &Vec<shell::Invocation>) -> (r: Vec<Site>)
    ensures
        views(r@) == sites_among(shell::views(cmds@)),
{
    let ghost all = shell::views(cmds@);
    let mut out: Vec<Site> = Vec::new();
    let mut i: usize = 0;
    assert(all.take(0) =~= seq![]);
    assert(views(out@) =~= seq![]);
    while i < cmds.len()
        invariant
            i <= cmds@.len(),
            all == shell::views(cmds@),
            views(out@) == sites_among(all.take(i as int)),
        decreases cmds@.len() - i,
    {
        let ghost before = out@;
        assert(all.take(i + 1).drop_last() =~= all.take(i as int));
        assert(all.take(i + 1).last() == cmds@[i as int]@);
        if let Some(site) = classify(&cmds[i]) {
            out.push(site);
            assert(views(out@) =~= views(before).push(site@));
        }
        i = i + 1;
    }
    assert(all.take(i as int) =~= all);
    out
}

// ---------------------------------------------------------------------------
// Command substitutions

/// A site of a program that a shell runs to expand the word `w`. The text of that
/// program is not edited, so the other script is always read as it then is.
pub open spec fn live(site: SiteModel, w: shell::WordModel) -> SiteModel {
    SiteModel {
        line: line_of(w),
        cmd_offset: offset_of(w),
        arg_span: None,
        resolvable: false,
        ..site
    }
}

/// The sites of a program that a shell runs to expand the word `w`.
pub open spec fn all_live(sites: Seq<SiteModel>, w: shell::WordModel) -> Seq<SiteModel> {
    Seq::new(sites.len(), |i: int| live(sites[i], w))
}

/// How a word, or a here-document, is quoted where it starts.
pub open spec fn quoting(body: bool) -> Quoting {
    if body {
        Quoting::Body
    } else {
        Quoting::Bare
    }
}

/// The sites of the programs that a shell runs to expand the word `w`. A program
/// that stands in another is shorter, so each is shorter than `bound`, the length
/// of the program around the word.
pub open spec fn sites_in_programs(
    programs: Seq<Seq<char>>,
    w: shell::WordModel,
    bound: nat,
) -> Seq<SiteModel>
    decreases bound, 1nat, programs.len(),
{
    if programs.len() == 0 {
        seq![]
    } else {
        sites_in_programs(programs.drop_last(), w, bound) + if programs.last().len() < bound {
            match sites_in(programs.last()) {
                Ok(sites) => all_live(sites, w),
                Err(_) => seq![],
            }
        } else {
            seq![]
        }
    }
}

/// The sites of the programs that a shell runs to expand words, or here-documents,
/// of a program of the length `bound`.
pub open spec fn sites_in_words(
    words: Seq<shell::WordModel>,
    body: bool,
    bound: nat,
) -> Seq<SiteModel>
    decreases bound, 2nat, words.len(),
{
    if words.len() == 0 {
        seq![]
    } else {
        sites_in_words(words.drop_last(), body, bound) + sites_in_programs(
            substitutions::programs(words.last().value, 0, quoting(body)),
            words.last(),
            bound,
        )
    }
}

/// How many sites from the first on stand no later than `offset`.
pub open spec fn up_to(sites: Seq<SiteModel>, offset: usize) -> nat
    decreases sites.len(),
{
    if sites.len() == 0 || sites[0].cmd_offset > offset {
        0
    } else {
        1 + up_to(sites.skip(1), offset)
    }
}

/// The sites with those of `more` put in, each before the first that stands later.
pub open spec fn placed(sites: Seq<SiteModel>, more: Seq<SiteModel>) -> Seq<SiteModel>
    decreases more.len(),
{
    if more.len() == 0 {
        sites
    } else {
        let rest = placed(sites, more.drop_last());
        rest.insert(up_to(rest, more.last().cmd_offset) as int, more.last())
    }
}

/// The sites of the shell program `src`, or why it cannot be parsed: those among
/// its commands, and in their places those of the programs in its words and in its
/// here-documents.
pub open spec fn sites_in(src: Seq<char>) -> Result<Seq<SiteModel>, Seq<char>>
    decreases src.len(), 3nat, 0nat,
{
    match parser::parsed(src) {
        Ok(p) => Ok(
            placed(
                placed(sites_among(p.commands), sites_in_words(p.words, false, src.len())),
                sites_in_words(p.bodies, true, src.len()),
            ),
        ),
        Err(e) => Err(e),
    }
}

/// Add the sites of a program that a shell runs to expand the word `w`.
fn add_live(out: &mut Vec<Site>, found: &Vec<Site>, w: &shell::ShellWord)
    ensures
        views(final(out)@) == views(old(out)@) + all_live(views(found@), w@),
{
    let ghost start = views(out@);
    let ghost new = all_live(views(found@), w@);
    let (line, cmd_offset): (usize, usize) = match &w.span {
        Some(s) => (s.line, s.start),
        None => (0, 0),
    };
    let mut i: usize = 0;
    assert(start + new.take(0) =~= start);
    while i < found.len()
        invariant
            i <= found@.len(),
            new == all_live(views(found@), w@),
            line == line_of(w@),
            cmd_offset == offset_of(w@),
            views(out@) == start + new.take(i as int),
        decreases found@.len() - i,
    {
        let ghost before = out@;
        let site = Site {
            label: found[i].label,
            category: found[i].category,
            line,
            cmd_offset,
            arg_span: None,
            target: found[i].target.as_str().to_owned(),
            resolvable: false,
        };
        out.push(site);
        assert(new[i as int] == site@);
        assert(views(out@) =~= views(before).push(site@));
        assert(new.take(i + 1) =~= new.take(i as int).push(site@));
        assert(views(out@) =~= start + new.take(i + 1));
        i = i + 1;
    }
    assert(new.take(i as int) =~= new);
}

/// The sites of the programs that a shell runs to expand words, or here-documents,
/// of a program of the length `bound`.
fn live_sites(words: &Vec<shell::ShellWord>, body: bool, bound: usize) -> (r: Vec<Site>)
    ensures
        views(r@) == sites_in_words(shell::word_views(words@), body, bound as nat),
    decreases bound, 2nat,
{
    let mut out: Vec<Site> = Vec::new();
    let ghost all = shell::word_views(words@);
    let mut i: usize = 0;
    assert(all.take(0) =~= seq![]);
    assert(views(out@) =~= seq![]);
    while i < words.len()
        invariant
            i <= words@.len(),
            all == shell::word_views(words@),
            views(out@) == sites_in_words(all.take(i as int), body, bound as nat),
        decreases words@.len() - i,
    {
        let chars = text::chars_of(words[i].value.as_str());
        let programs = substitutions::find_programs(&chars, body);
        add_sites_in_programs(&mut out, &programs, &words[i], bound);
        proof {
            assert(all.take(i + 1).drop_last() =~= all.take(i as int));
            assert(all.take(i + 1).last() == words@[i as int]@);
        }
        i = i + 1;
    }
    assert(all.take(i as int) =~= all);
    out
}

/// Add the sites of the programs that a shell runs to expand the word `w`.
fn add_sites_in_programs(
    out: &mut Vec<Site>,
    programs: &Vec<String>,
    w: &shell::ShellWord,
    bound: usize,
)
    ensures
        views(final(out)@) == views(old(out)@) + sites_in_programs(
            text::texts(programs@),
            w@,
            bound as nat,
        ),
    decreases bound, 1nat,
{
    let ghost start = views(out@);
    let ghost all = text::texts(programs@);
    let mut i: usize = 0;
    assert(all.take(0) =~= seq![]);
    assert(start + sites_in_programs(all.take(0), w@, bound as nat) =~= start);
    while i < programs.len()
        invariant
            i <= programs@.len(),
            all == text::texts(programs@),
            views(out@) == start + sites_in_programs(all.take(i as int), w@, bound as nat),
        decreases programs@.len() - i,
    {
        let ghost before = views(out@);
        let program = programs[i].as_str();
        let chars = text::chars_of(program);
        if chars.len() < bound {
            if let Ok(found) = parse_sites(program) {
                add_live(out, &found, w);
            }
        }
        proof {
            assert(all.take(i + 1).drop_last() =~= all.take(i as int));
            assert(all.take(i + 1).last() == programs@[i as int]@);
            assert(views(out@) =~= start + sites_in_programs(all.take(i + 1), w@, bound as nat));
        }
        i = i + 1;
    }
    assert(all.take(i as int) =~= all);
}

/// Put sites in, each before the first that stands later.
fn place(sites: &mut Vec<Site>, more: Vec<Site>)
    ensures
        views(final(sites)@) == placed(views(old(sites)@), views(more@)),
{
    let ghost start = views(sites@);
    let ghost all = views(more@);
    let mut more = more;
    assert(all.take(0) =~= seq![]);
    let ghost mut done: int = 0;
    while more.len() > 0
        invariant
            0 <= done <= all.len(),
            more@.len() == all.len() - done,
            forall|k: int| 0 <= k < more@.len() ==> (#[trigger] more@[k])@ == all[done + k],
            views(sites@) == placed(start, all.take(done)),
        decreases more@.len(),
    {
        let ghost before = views(sites@);
        let site = more.remove(0);
        let mut k: usize = 0;
        assert(before.skip(0) =~= before);
        while k < sites.len() && sites[k].cmd_offset <= site.cmd_offset
            invariant
                k <= sites@.len(),
                before == views(sites@),
                up_to(before, site.cmd_offset) == k + up_to(
                    before.skip(k as int),
                    site.cmd_offset,
                ),
            decreases sites@.len() - k,
        {
            assert(before.skip(k as int)[0] == sites@[k as int]@);
            assert(before.skip(k as int).skip(1) =~= before.skip(k + 1));
            k = k + 1;
        }
        sites.insert(k, site);
        proof {
            assert(views(sites@) =~= before.insert(k as int, site@));
            assert(all.take(done + 1).drop_last() =~= all.take(done));
            assert(all.take(done + 1).last() == site@);
            done = done + 1;
        }
    }
    assert(all.take(done) =~= all);
}

/// The sites of the shell program `src`, or why it cannot be parsed: those among
/// its commands, and in their places those of the programs in its words and in its
/// here-documents.
pub fn parse_sites(src: &str) -> (r: Result<Vec<Site>, String>)
    ensures
        match r {
            Ok(v) => sites_in(src@) == Ok::<Seq<SiteModel>, Seq<char>>(views(v@)),
            Err(e) => sites_in(src@) == Err::<Seq<SiteModel>, Seq<char>>(e@),
        },
    decreases src@.len(), 3nat,
{
    match parser::parse_program(src) {
        Ok(p) => {
            let bound = text::chars_of(src).len();
            let mut out = find_sites(&p.commands);
            place(&mut out, live_sites(&p.words, false, bound));
            place(&mut out, live_sites(&p.bodies, true, bound));
            Ok(out)
        },
        Err(e) => Err(e),
    }
}

// ---------------------------------------------------------------------------
// Laws

proof fn lemma_programs_are_live(programs: Seq<Seq<char>>, w: shell::WordModel, bound: nat)
    ensures
        forall|i: int|
            0 <= i < sites_in_programs(programs, w, bound).len()
                ==> !(#[trigger] sites_in_programs(programs, w, bound)[i]).resolvable,
    decreases programs.len(),
{
    if programs.len() > 0 {
        lemma_programs_are_live(programs.drop_last(), w, bound);
    }
}

proof fn lemma_words_are_live(words: Seq<shell::WordModel>, body: bool, bound: nat)
    ensures
        forall|i: int|
            0 <= i < sites_in_words(words, body, bound).len()
                ==> !(#[trigger] sites_in_words(words, body, bound)[i]).resolvable,
    decreases words.len(),
{
    if words.len() > 0 {
        lemma_words_are_live(words.drop_last(), body, bound);
        lemma_programs_are_live(
            substitutions::programs(words.last().value, 0, quoting(body)),
            words.last(),
            bound,
        );
    }
}

/// Putting sites in adds them and no others.
proof fn lemma_placed(sites: Seq<SiteModel>, more: Seq<SiteModel>)
    ensures
        forall|x: SiteModel|
            placed(sites, more).contains(x) <==> sites.contains(x) || more.contains(x),
        placed(sites, more).len() == sites.len() + more.len(),
    decreases more.len(),
{
    if more.len() > 0 {
        let less = more.drop_last();
        let last = more.last();
        let rest = placed(sites, less);
        lemma_placed(sites, less);
        lemma_up_to(rest, last.cmd_offset);
        let n = up_to(rest, last.cmd_offset) as int;
        let all = placed(sites, more);
        assert(all =~= rest.insert(n, last));
        assert forall|x: SiteModel| all.contains(x) <==> sites.contains(x) || more.contains(x) by {
            if all.contains(x) {
                let k = choose|k: int| 0 <= k < all.len() && all[k] == x;
                if k < n {
                    assert(rest[k] == x);
                } else if k > n {
                    assert(rest[k - 1] == x);
                } else {
                    assert(more[more.len() - 1] == x);
                }
                if less.contains(x) {
                    let m = choose|m: int| 0 <= m < less.len() && less[m] == x;
                    assert(more[m] == x);
                }
            }
            if sites.contains(x) || more.contains(x) {
                if more.contains(x) && !sites.contains(x) {
                    let m = choose|m: int| 0 <= m < more.len() && more[m] == x;
                    if m < less.len() {
                        assert(less[m] == x);
                    } else {
                        assert(all[n] == x);
                    }
                }
                if rest.contains(x) {
                    let k = choose|k: int| 0 <= k < rest.len() && rest[k] == x;
                    if k < n {
                        assert(all[k] == x);
                    } else {
                        assert(all[k + 1] == x);
                    }
                }
            }
        }
    } else {
        assert(forall|x: SiteModel| !more.contains(x));
    }
}

proof fn lemma_up_to(sites: Seq<SiteModel>, offset: usize)
    ensures
        up_to(sites, offset) <= sites.len(),
        forall|k: int|
            0 <= k < up_to(sites, offset) ==> (#[trigger] sites[k]).cmd_offset <= offset,
        up_to(sites, offset) < sites.len() ==> sites[up_to(sites, offset) as int].cmd_offset
            > offset,
    decreases sites.len(),
{
    if sites.len() > 0 && sites[0].cmd_offset <= offset {
        let rest = sites.skip(1);
        lemma_up_to(rest, offset);
        assert forall|k: int| 0 <= k < up_to(sites, offset) implies (
        #[trigger] sites[k]).cmd_offset <= offset by {
            if k > 0 {
                assert(rest[k - 1] == sites[k]);
            }
        }
    }
}

/// Whether sites come in the order in which they stand in a program.
pub open spec fn in_order(sites: Seq<SiteModel>) -> bool {
    forall|i: int, j: int|
        0 <= i < j < sites.len() ==> (#[trigger] sites[i]).cmd_offset <= (
        #[trigger] sites[j]).cmd_offset
}

proof fn lemma_placed_in_order(sites: Seq<SiteModel>, more: Seq<SiteModel>)
    requires
        in_order(sites),
    ensures
        in_order(placed(sites, more)),
    decreases more.len(),
{
    if more.len() > 0 {
        let rest = placed(sites, more.drop_last());
        let last = more.last();
        lemma_placed_in_order(sites, more.drop_last());
        lemma_up_to(rest, last.cmd_offset);
        let n = up_to(rest, last.cmd_offset) as int;
        let all = rest.insert(n, last);
        assert forall|i: int, j: int| 0 <= i < j < all.len() implies (
        #[trigger] all[i]).cmd_offset <= (#[trigger] all[j]).cmd_offset by {
            if i < n {
                assert(all[i] == rest[i]);
            } else if i > n {
                assert(all[i] == rest[i - 1]);
            }
            if j < n {
                assert(all[j] == rest[j]);
            } else if j > n {
                assert(all[j] == rest[j - 1]);
                if i == n {
                    assert(rest[n].cmd_offset <= rest[j - 1].cmd_offset);
                }
            }
        }
    }
}

/// The sites come in the order in which they stand in the program, wherever the
/// commands do: those in command substitutions are put in their places.
pub proof fn law_sites_come_in_order(src: Seq<char>)
    requires
        parser::parsed(src) is Ok,
        in_order(sites_among(parser::parsed(src)->Ok_0.commands)),
    ensures
        sites_in(src) is Ok,
        in_order(sites_in(src)->Ok_0),
{
    let p = parser::parsed(src)->Ok_0;
    let own = sites_among(p.commands);
    let words = sites_in_words(p.words, false, src.len());
    lemma_placed_in_order(own, words);
    lemma_placed_in_order(placed(own, words), sites_in_words(p.bodies, true, src.len()));
}

/// What stands in a command substitution is never resolved, and so is left as it
/// is: only the sites among the commands of the program itself can be, and of
/// those none is lost.
pub proof fn law_substitutions_are_left_alone(src: Seq<char>, site: SiteModel)
    requires
        parser::parsed(src) is Ok,
        site.resolvable,
    ensures
        sites_in(src) is Ok,
        sites_in(src)->Ok_0.contains(site) <==> sites_among(
            parser::parsed(src)->Ok_0.commands,
        ).contains(site),
{
    let p = parser::parsed(src)->Ok_0;
    let own = sites_among(p.commands);
    let words = sites_in_words(p.words, false, src.len());
    let bodies = sites_in_words(p.bodies, true, src.len());
    lemma_words_are_live(p.words, false, src.len());
    lemma_words_are_live(p.bodies, true, src.len());
    lemma_placed(own, words);
    lemma_placed(placed(own, words), bodies);
}

proof fn lemma_program_is_reported(
    programs: Seq<Seq<char>>,
    w: shell::WordModel,
    bound: nat,
    k: int,
    i: int,
)
    requires
        0 <= k < programs.len(),
        programs[k].len() < bound,
        sites_in(programs[k]) is Ok,
        0 <= i < sites_in(programs[k])->Ok_0.len(),
    ensures
        sites_in_programs(programs, w, bound).contains(live(sites_in(programs[k])->Ok_0[i], w)),
    decreases programs.len(),
{
    let found = sites_in(programs[k])->Ok_0;
    let before = sites_in_programs(programs.drop_last(), w, bound);
    let all = sites_in_programs(programs, w, bound);
    if k == programs.len() - 1 {
        assert(all[before.len() + i] == live(found[i], w));
    } else {
        lemma_program_is_reported(programs.drop_last(), w, bound, k, i);
        let j = choose|j: int| 0 <= j < before.len() && before[j] == live(found[i], w);
        assert(all[j] == live(found[i], w));
    }
}

proof fn lemma_word_is_reported(
    words: Seq<shell::WordModel>,
    body: bool,
    bound: nat,
    n: int,
    k: int,
    i: int,
)
    requires
        0 <= n < words.len(),
        ({
            let programs = substitutions::programs(words[n].value, 0, quoting(body));
            &&& 0 <= k < programs.len()
            &&& programs[k].len() < bound
            &&& sites_in(programs[k]) is Ok
            &&& 0 <= i < sites_in(programs[k])->Ok_0.len()
        }),
    ensures
        ({
            let programs = substitutions::programs(words[n].value, 0, quoting(body));
            sites_in_words(words, body, bound).contains(
                live(sites_in(programs[k])->Ok_0[i], words[n]),
            )
        }),
    decreases words.len(),
{
    let programs = substitutions::programs(words[n].value, 0, quoting(body));
    let site = live(sites_in(programs[k])->Ok_0[i], words[n]);
    let before = sites_in_words(words.drop_last(), body, bound);
    let all = sites_in_words(words, body, bound);
    if n == words.len() - 1 {
        lemma_program_is_reported(programs, words[n], bound, k, i);
        let last = sites_in_programs(programs, words[n], bound);
        let j = choose|j: int| 0 <= j < last.len() && last[j] == site;
        assert(all[before.len() + j] == site);
    } else {
        lemma_word_is_reported(words.drop_last(), body, bound, n, k, i);
        let j = choose|j: int| 0 <= j < before.len() && before[j] == site;
        assert(all[j] == site);
    }
}

/// What stands in a command substitution is reported: each site of a program that
/// a shell runs to expand a word of the program, or a here-document, is among the
/// sites of the program itself.
pub proof fn law_substitutions_are_reported(
    src: Seq<char>,
    body: bool,
    n: int,
    k: int,
    i: int,
)
    requires
        parser::parsed(src) is Ok,
        ({
            let p = parser::parsed(src)->Ok_0;
            let words = if body {
                p.bodies
            } else {
                p.words
            };
            let programs = substitutions::programs(words[n].value, 0, quoting(body));
            &&& 0 <= n < words.len()
            &&& 0 <= k < programs.len()
            &&& programs[k].len() < src.len()
            &&& sites_in(programs[k]) is Ok
            &&& 0 <= i < sites_in(programs[k])->Ok_0.len()
        }),
    ensures
        ({
            let p = parser::parsed(src)->Ok_0;
            let words = if body {
                p.bodies
            } else {
                p.words
            };
            let programs = substitutions::programs(words[n].value, 0, quoting(body));
            &&& sites_in(src) is Ok
            &&& sites_in(src)->Ok_0.contains(live(sites_in(programs[k])->Ok_0[i], words[n]))
        }),
{
    let p = parser::parsed(src)->Ok_0;
    let words = if body {
        p.bodies
    } else {
        p.words
    };
    let programs = substitutions::programs(words[n].value, 0, quoting(body));
    let site = live(sites_in(programs[k])->Ok_0[i], words[n]);
    lemma_word_is_reported(words, body, src.len(), n, k, i);
    let own = sites_among(p.commands);
    let first = placed(own, sites_in_words(p.words, false, src.len()));
    lemma_placed(own, sites_in_words(p.words, false, src.len()));
    lemma_placed(first, sites_in_words(p.bodies, true, src.len()));
    assert(sites_in_words(words, body, src.len()).contains(site));
}

// ---------------------------------------------------------------------------
// Which commands are sites

/// Whether a text is one of the shells, by name.
pub open spec fn names_shell(s: Seq<char>) -> bool {
    seq!["bash"@, "sh"@, "dash"@, "zsh"@, "ksh"@, "mksh"@].contains(s)
}

/// Whether a text is an interpreter that reads its whole file first, by name: the
/// names of versions of Python go on after `python`.
pub open spec fn names_other(s: Seq<char>) -> bool {
    seq!["perl"@, "ruby"@, "node"@, "php"@, "lua"@].contains(s) || "python"@.is_prefix_of(s)
}

/// The site of a command `name` at the word `arg`, as reports and edits need it.
pub open spec fn reads_word(
    site: SiteModel,
    name: shell::WordModel,
    arg: shell::WordModel,
    label: Seq<char>,
    category: Category,
) -> bool {
    &&& site.label == label
    &&& site.category == category
    &&& name.span matches Some(p) ==> site.line == p.line && site.cmd_offset == p.start
    &&& name.span is None ==> site.line == 0 && site.cmd_offset == 0
    &&& arg.span matches Some(p) ==> site.arg_span == Some((p.start, p.end))
    &&& arg.span is None ==> site.arg_span is None
    &&& site.target == parser::unquoted(arg.value)
    &&& site.resolvable <==> !site.target.contains('$') && !site.target.contains('`')
        && !expansions::expands(arg.value)
}

proof fn lemma_interpreter_names(base: Seq<char>)
    ensures
        shell(base) <==> names_shell(base),
        other_interpreter(base) <==> names_other(base),
        !(names_shell(base) && names_other(base)),
        names_shell(base) || names_other(base) ==> base.len() > 0 && base != "source"@ && base
            != "."@,
{
    reveal_strlit("bash");
    reveal_strlit("sh");
    reveal_strlit("dash");
    reveal_strlit("zsh");
    reveal_strlit("ksh");
    reveal_strlit("mksh");
    reveal_strlit("perl");
    reveal_strlit("ruby");
    reveal_strlit("node");
    reveal_strlit("php");
    reveal_strlit("lua");
    reveal_strlit("python");
    reveal_strlit("source");
    reveal_strlit(".");
    let a = seq!["bash"@, "sh"@, "dash"@, "zsh"@, "ksh"@, "mksh"@];
    assert(a[0] == "bash"@ && a[1] == "sh"@ && a[2] == "dash"@ && a[3] == "zsh"@ && a[4] == "ksh"@
        && a[5] == "mksh"@);
    let b = seq!["perl"@, "ruby"@, "node"@, "php"@, "lua"@];
    assert(b[0] == "perl"@ && b[1] == "ruby"@ && b[2] == "node"@ && b[3] == "php"@ && b[4]
        == "lua"@);
    assert("bash"@[0] == 'b' && "sh"@[0] == 's' && "dash"@[0] == 'd' && "zsh"@[0] == 'z'
        && "ksh"@[0] == 'k' && "mksh"@[0] == 'm');
    assert("perl"@[0] == 'p' && "ruby"@[0] == 'r' && "node"@[0] == 'n' && "php"@[0] == 'p'
        && "lua"@[0] == 'l');
    assert("sh"@.len() == 2 && "source"@.len() == 6 && "."@.len() == 1 && "python"@.len() == 6);
    assert("perl"@.len() == 4 && "php"@.len() == 3);
    assert("python"@[0] == 'p' && "source"@[0] == 's' && "."@[0] == '.');
    if "python"@.is_prefix_of(base) {
        assert(base.subrange(0, 6)[0] == base[0]);
    }
}

proof fn lemma_not_a_builtin(dir: Seq<char>, base: Seq<char>)
    requires
        dir.len() == 0 || dir.last() == '/',
        base.len() > 0,
        base != "source"@,
        base != "."@,
    ensures
        dir + base != "source"@,
        dir + base != "."@,
{
    reveal_strlit("source");
    reveal_strlit(".");
    if dir.len() == 0 {
        assert(dir + base =~= base);
    } else {
        assert((dir + base)[dir.len() - 1] == '/');
        assert("."@.len() == 1 && (dir + base).len() >= 2);
        assert(!"source"@.contains('/')) by {
            assert("source"@ =~= seq!['s', 'o', 'u', 'r', 'c', 'e']);
        }
        if dir + base == "source"@ {
            assert("source"@[dir.len() - 1] == '/');
            assert("source"@.contains('/'));
        }
    }
}

/// `source` and `.` read the file that their first argument names; without one
/// they read nothing.
pub proof fn law_source_reads_its_first_argument(c: shell::InvocationModel, name: shell::WordModel)
    requires
        c.name == Some(name),
        name.value == "source"@ || name.value == "."@,
    ensures
        c.args.len() == 0 ==> site_of(c) is None,
        c.args.len() > 0 ==> site_of(c) is Some && reads_word(
            site_of(c)->0,
            name,
            c.args[0],
            "source"@,
            Category::Source,
        ),
{
}

/// An interpreter, by whatever path, runs the script that its first argument names
/// which is no option; it runs none where there is no such argument or where `-c`
/// is one of them.
pub proof fn law_interpreters_run_their_first_operand(
    c: shell::InvocationModel,
    name: shell::WordModel,
    dir: Seq<char>,
    base: Seq<char>,
    k: int,
)
    requires
        c.name == Some(name),
        name.value == dir + base,
        dir.len() == 0 || dir.last() == '/',
        !base.contains('/'),
        names_shell(base) || names_other(base),
    ensures
        (exists|i: int| 0 <= i < c.args.len() && #[trigger] c.args[i].value == "-c"@) ==> site_of(c)
            is None,
        (forall|i: int| 0 <= i < c.args.len() ==> "-"@.is_prefix_of(#[trigger] c.args[i].value))
            ==> site_of(c) is None,
        0 <= k < c.args.len() && !"-"@.is_prefix_of(c.args[k].value) && (forall|i: int|
            0 <= i < k ==> "-"@.is_prefix_of(#[trigger] c.args[i].value)) && (forall|i: int|
            0 <= i < c.args.len() ==> #[trigger] c.args[i].value != "-c"@) ==> site_of(c) is Some
            && reads_word(
            site_of(c)->0,
            name,
            c.args[k],
            if base == "mksh"@ {
                "ksh"@
            } else if "python"@.is_prefix_of(base) {
                "python"@
            } else {
                base
            },
            if names_shell(base) {
                Category::ShellChild
            } else {
                Category::OtherChild
            },
        ),
{
    text::lemma_basename(dir, base);
    lemma_interpreter_names(base);
    lemma_not_a_builtin(dir, base);
    lemma_first_operand(c.args, k);
    reveal_strlit("mksh");
    reveal_strlit("python");
    if "python"@.is_prefix_of(base) {
        assert(base.subrange(0, 6)[0] == base[0]);
    }
}

proof fn lemma_first_operand(args: Seq<shell::WordModel>, k: int)
    ensures
        (forall|i: int| 0 <= i < args.len() ==> "-"@.is_prefix_of(#[trigger] args[i].value))
            ==> first_operand(args) is None,
        0 <= k < args.len() && !"-"@.is_prefix_of(args[k].value) && (forall|i: int|
            0 <= i < k ==> "-"@.is_prefix_of(#[trigger] args[i].value)) ==> first_operand(args)
            == Some(args[k]),
    decreases args.len(),
{
    if args.len() > 0 {
        let rest = args.skip(1);
        assert(forall|i: int| 0 <= i < rest.len() ==> rest[i] == args[i + 1]);
        lemma_first_operand(rest, k - 1);
        if forall|i: int| 0 <= i < args.len() ==> "-"@.is_prefix_of(#[trigger] args[i].value) {
            assert("-"@.is_prefix_of(args[0].value));
            assert forall|i: int| 0 <= i < rest.len() implies "-"@.is_prefix_of(
                #[trigger] rest[i].value,
            ) by {
                assert("-"@.is_prefix_of(args[i + 1].value));
            }
        }
        if 0 < k < args.len() && (forall|i: int|
            0 <= i < k ==> "-"@.is_prefix_of(#[trigger] args[i].value)) {
            assert("-"@.is_prefix_of(args[0].value));
            assert forall|i: int| 0 <= i < k - 1 implies "-"@.is_prefix_of(
                #[trigger] rest[i].value,
            ) by {
                assert("-"@.is_prefix_of(args[i + 1].value));
            }
        }
    }
}

/// Whether a command is given by its path: it starts with `./`, `../` or `/`.
pub open spec fn by_path(s: Seq<char>) -> bool {
    (s.len() >= 1 && s[0] == '/') || (s.len() >= 2 && s[0] == '.' && s[1] == '/') || (s.len() >= 3
        && s[0] == '.' && s[1] == '.' && s[2] == '/')
}

/// Whether a text ends in one of these.
pub open spec fn ends_in(s: Seq<char>, endings: Seq<Seq<char>>) -> bool {
    exists|i: int| 0 <= i < endings.len() && (#[trigger] endings[i]).is_suffix_of(s)
}

/// A command that is given by its path runs itself: as a shell script or as a
/// script for another interpreter, by its ending. Every command that is not one of
/// these, not `source` or `.`, and no interpreter, is no site.
pub proof fn law_scripts_are_run_by_their_path(
    c: shell::InvocationModel,
    name: shell::WordModel,
    dir: Seq<char>,
    base: Seq<char>,
)
    requires
        c.name == Some(name),
        name.value == dir + base,
        dir.len() == 0 || dir.last() == '/',
        !base.contains('/'),
        !names_shell(base) && !names_other(base),
    ensures
        ({
            let shells = seq![".sh"@, ".bash"@, ".zsh"@, ".ksh"@];
            let others = seq![".py"@, ".pl"@, ".rb"@, ".js"@];
            &&& by_path(name.value) && (ends_in(name.value, shells) || ends_in(name.value, others))
                ==> {
                &&& site_of(c) matches Some(site) && site.label == "exec"@ && site.category == (
                if ends_in(name.value, shells) {
                    Category::ShellChild
                } else {
                    Category::OtherChild
                }) && site.arg_span is None && site.target == name.value && (site.resolvable <==>
                    !name.value.contains('$') && !name.value.contains('`')
                    && !expansions::expands(name.value)) && (name.span matches Some(p) ==> site.line
                    == p.line && site.cmd_offset == p.start) && (name.span is None ==> site.line
                    == 0 && site.cmd_offset == 0)
            }
            &&& !by_path(name.value) && name.value != "source"@ && name.value != "."@ ==> site_of(c)
                is None
            &&& !ends_in(name.value, shells) && !ends_in(name.value, others) && name.value
                != "source"@ && name.value != "."@ ==> site_of(c) is None
        }),
{
    text::lemma_basename(dir, base);
    lemma_interpreter_names(base);
    reveal_strlit("./");
    reveal_strlit("../");
    reveal_strlit("/");
    reveal_strlit("source");
    reveal_strlit(".");
    let s = name.value;
    assert("./"@.len() == 2 && "../"@.len() == 3 && "/"@.len() == 1);
    assert("./"@.is_prefix_of(s) <==> s.len() >= 2 && s[0] == '.' && s[1] == '/') by {
        if s.len() >= 2 && s[0] == '.' && s[1] == '/' {
            assert(s.subrange(0, 2) =~= "./"@);
        }
        if "./"@.is_prefix_of(s) {
            assert(s.subrange(0, 2)[0] == s[0] && s.subrange(0, 2)[1] == s[1]);
        }
    }
    assert("../"@.is_prefix_of(s) <==> s.len() >= 3 && s[0] == '.' && s[1] == '.' && s[2] == '/')
        by {
        if s.len() >= 3 && s[0] == '.' && s[1] == '.' && s[2] == '/' {
            assert(s.subrange(0, 3) =~= "../"@);
        }
        if "../"@.is_prefix_of(s) {
            let t = s.subrange(0, 3);
            assert(t[0] == s[0] && t[1] == s[1] && t[2] == s[2]);
        }
    }
    assert("/"@.is_prefix_of(s) <==> s.len() >= 1 && s[0] == '/') by {
        if s.len() >= 1 && s[0] == '/' {
            assert(s.subrange(0, 1) =~= "/"@);
        }
        if "/"@.is_prefix_of(s) {
            assert(s.subrange(0, 1)[0] == s[0]);
        }
    }
    let shells = seq![".sh"@, ".bash"@, ".zsh"@, ".ksh"@];
    let others = seq![".py"@, ".pl"@, ".rb"@, ".js"@];
    assert(shells[0] == ".sh"@ && shells[1] == ".bash"@ && shells[2] == ".zsh"@ && shells[3]
        == ".ksh"@);
    assert(others[0] == ".py"@ && others[1] == ".pl"@ && others[2] == ".rb"@ && others[3]
        == ".js"@);
    assert(shell_script(s) <==> ends_in(s, shells));
    assert(other_script(s) <==> ends_in(s, others));
    if by_path(s) {
        assert(s[0] == '/' || s[0] == '.');
        assert(s != "source"@) by {
            assert("source"@[0] == 's');
        }
        assert(s != "."@) by {
            assert("."@.len() == 1 && "."@[0] == '.');
        }
    }
}

/// A command without a name is no site, and the sites among commands are those of
/// each command, in order.
pub proof fn law_each_command_is_looked_at(cmds: Seq<shell::InvocationModel>)
    ensures
        sites_among(cmds) == cmds.filter_map(|c: shell::InvocationModel| site_of(c)),
        forall|c: shell::InvocationModel| c.name is None ==> #[trigger] site_of(c) is None,
    decreases cmds.len(),
{
    if cmds.len() > 0 {
        law_each_command_is_looked_at(cmds.drop_last());
    }
}

/// What is reported of a call in a command substitution is the call, at the place
/// of the word that it stands in.
pub proof fn law_live_sites_say_what_is_called(site: SiteModel, w: shell::WordModel)
    ensures
        live(site, w).label == site.label,
        live(site, w).category == site.category,
        live(site, w).target == site.target,
        !live(site, w).resolvable,
        live(site, w).arg_span is None,
        w.span matches Some(p) ==> live(site, w).line == p.line && live(site, w).cmd_offset
            == p.start,
{
}

proof fn lemma_placed_keeps(sites: Seq<SiteModel>, more: Seq<SiteModel>)
    requires
        forall|i: int| 0 <= i < more.len() ==> !(#[trigger] more[i]).resolvable,
    ensures
        placed(sites, more).filter(|s: SiteModel| s.resolvable) == sites.filter(
            |s: SiteModel| s.resolvable,
        ),
    decreases more.len(),
{
    let f = |s: SiteModel| s.resolvable;
    if more.len() > 0 {
        let less = more.drop_last();
        let x = more.last();
        assert(x == more[more.len() - 1]);
        assert forall|i: int| 0 <= i < less.len() implies !(#[trigger] less[i]).resolvable by {
            assert(less[i] == more[i]);
        }
        lemma_placed_keeps(sites, less);
        let rest = placed(sites, less);
        lemma_up_to(rest, x.cmd_offset);
        let n = up_to(rest, x.cmd_offset) as int;
        assert(rest.insert(n, x) =~= rest.take(n) + seq![x] + rest.skip(n));
        assert(rest =~= rest.take(n) + rest.skip(n));
        Seq::filter_distributes_over_add(rest.take(n), rest.skip(n), f);
        Seq::filter_distributes_over_add(rest.take(n) + seq![x], rest.skip(n), f);
        Seq::filter_distributes_over_add(rest.take(n), seq![x], f);
        assert(seq![x].filter(f) =~= seq![]) by {
            reveal(Seq::filter);
            assert(seq![x].drop_last() =~= seq![]);
            assert(seq![x].last() == x);
            assert(seq![x].drop_last().filter(f) =~= seq![]);
        }
        assert(rest.take(n).filter(f) + Seq::<SiteModel>::empty() =~= rest.take(n).filter(f));
    }
}

/// The sites that can be resolved are those of the program's own commands, each as
/// often as it is there, and in order.
pub proof fn law_sites_of_commands_keep_their_order(src: Seq<char>)
    requires
        parser::parsed(src) is Ok,
    ensures
        sites_in(src) is Ok,
        sites_in(src)->Ok_0.filter(|s: SiteModel| s.resolvable) == sites_among(
            parser::parsed(src)->Ok_0.commands,
        ).filter(|s: SiteModel| s.resolvable),
{
    let p = parser::parsed(src)->Ok_0;
    let own = sites_among(p.commands);
    let words = sites_in_words(p.words, false, src.len());
    let bodies = sites_in_words(p.bodies, true, src.len());
    lemma_words_are_live(p.words, false, src.len());
    lemma_words_are_live(p.bodies, true, src.len());
    lemma_placed_keeps(own, words);
    lemma_placed_keeps(placed(own, words), bodies);
}

/// A program that cannot be parsed has no sites, and the message says why.
pub proof fn law_unparsable_programs_have_no_sites(src: Seq<char>)
    ensures
        parser::parsed(src) is Ok <==> sites_in(src) is Ok,
        parser::parsed(src) is Err ==> sites_in(src)->Err_0 == parser::parsed(src)->Err_0,
{
}

} // verus!
