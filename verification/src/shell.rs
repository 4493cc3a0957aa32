//! Shell programs: the syntax tree of `brush-parser`, and the simple commands
//! that it holds.

use brush_parser::ast;
use vstd::prelude::*;

verus! {

// ---------------------------------------------------------------------------
// The syntax tree. Where the fields are read here, Verus sees the definitions
// of the outside crate as they are; the parts that are never looked into are
// opaque.

/// `brush_parser::ast::Program`: a sequence of complete commands.
#[verifier::external_type_specification]
pub struct ExProgram(ast::Program);

/// `brush_parser::ast::CompoundList`: commands with their separators.
#[verifier::external_type_specification]
pub struct ExCompoundList(ast::CompoundList);

/// `brush_parser::ast::CompoundListItem`: one command of a list.
#[verifier::external_type_specification]
pub struct ExCompoundListItem(ast::CompoundListItem);

/// `brush_parser::ast::SeparatorOperator`: `;` or `&`.
#[verifier::external_type_specification]
#[verifier::external_body]
pub struct ExSeparatorOperator(ast::SeparatorOperator);

/// `brush_parser::ast::AndOrList`: pipelines joined by `&&` and `||`.
#[verifier::external_type_specification]
pub struct ExAndOrList(ast::AndOrList);

/// `brush_parser::ast::AndOr`: a pipeline after `&&` or `||`.
#[verifier::external_type_specification]
pub struct ExAndOr(ast::AndOr);

/// `brush_parser::ast::Pipeline`: commands joined by `|`.
#[verifier::external_type_specification]
pub struct ExPipeline(ast::Pipeline);

/// `brush_parser::ast::PipelineTimed`: the `time` before a pipeline.
#[verifier::external_type_specification]
#[verifier::external_body]
pub struct ExPipelineTimed(ast::PipelineTimed);

/// `brush_parser::ast::Command`: a command of any kind.
#[verifier::external_type_specification]
pub struct ExCommand(ast::Command);

/// `brush_parser::ast::RedirectList`: redirections after a compound command.
#[verifier::external_type_specification]
#[verifier::external_body]
pub struct ExRedirectList(ast::RedirectList);

/// `brush_parser::ast::ExtendedTestExprCommand`: `[[ ... ]]`.
#[verifier::external_type_specification]
#[verifier::external_body]
pub struct ExExtendedTestExprCommand(ast::ExtendedTestExprCommand);

/// `brush_parser::ast::FunctionDefinition`: a function and its body.
#[verifier::external_type_specification]
pub struct ExFunctionDefinition(ast::FunctionDefinition);

/// `brush_parser::ast::FunctionBody`: the compound command of a function.
#[verifier::external_type_specification]
pub struct ExFunctionBody(ast::FunctionBody);

/// `brush_parser::ast::CompoundCommand`: a command made of commands.
#[verifier::external_type_specification]
pub struct ExCompoundCommand(ast::CompoundCommand);

/// `brush_parser::ast::ArithmeticCommand`: `(( ... ))`.
#[verifier::external_type_specification]
#[verifier::external_body]
pub struct ExArithmeticCommand(ast::ArithmeticCommand);

/// `brush_parser::ast::ArithmeticForClauseCommand`: `for ((...))`.
#[verifier::external_type_specification]
pub struct ExArithmeticForClauseCommand(ast::ArithmeticForClauseCommand);

/// `brush_parser::ast::UnexpandedArithmeticExpr`: an arithmetic expression.
#[verifier::external_type_specification]
#[verifier::external_body]
pub struct ExUnexpandedArithmeticExpr(ast::UnexpandedArithmeticExpr);

/// `brush_parser::ast::BraceGroupCommand`: `{ ...; }`.
#[verifier::external_type_specification]
pub struct ExBraceGroupCommand(ast::BraceGroupCommand);

/// `brush_parser::ast::SubshellCommand`: `( ... )`.
#[verifier::external_type_specification]
pub struct ExSubshellCommand(ast::SubshellCommand);

/// `brush_parser::ast::ForClauseCommand`: `for ... in ...`.
#[verifier::external_type_specification]
pub struct ExForClauseCommand(ast::ForClauseCommand);

/// `brush_parser::ast::CaseClauseCommand`: `case ... in ... esac`.
#[verifier::external_type_specification]
pub struct ExCaseClauseCommand(ast::CaseClauseCommand);

/// `brush_parser::ast::CaseItem`: one branch of a `case`.
#[verifier::external_type_specification]
pub struct ExCaseItem(ast::CaseItem);

/// `brush_parser::ast::CaseItemPostAction`: what ends a branch of a `case`.
#[verifier::external_type_specification]
#[verifier::external_body]
pub struct ExCaseItemPostAction(ast::CaseItemPostAction);

/// `brush_parser::ast::IfClauseCommand`: `if ... fi`.
#[verifier::external_type_specification]
pub struct ExIfClauseCommand(ast::IfClauseCommand);

/// `brush_parser::ast::ElseClause`: an `elif` or the `else` of an `if`.
#[verifier::external_type_specification]
pub struct ExElseClause(ast::ElseClause);

/// `brush_parser::ast::WhileOrUntilClauseCommand`: `while` or `until`.
#[verifier::external_type_specification]
pub struct ExWhileOrUntilClauseCommand(ast::WhileOrUntilClauseCommand);

/// `brush_parser::ast::CoprocessCommand`: `coproc`.
#[verifier::external_type_specification]
#[verifier::external_body]
pub struct ExCoprocessCommand(ast::CoprocessCommand);

/// `brush_parser::ast::DoGroupCommand`: `do ... done`.
#[verifier::external_type_specification]
pub struct ExDoGroupCommand(ast::DoGroupCommand);

/// `brush_parser::ast::SimpleCommand`: a name with words around it.
#[verifier::external_type_specification]
pub struct ExSimpleCommand(ast::SimpleCommand);

/// `brush_parser::ast::CommandPrefix`: what precedes the name of a command.
#[verifier::external_type_specification]
#[verifier::external_body]
pub struct ExCommandPrefix(ast::CommandPrefix);

/// `brush_parser::ast::CommandSuffix`: what follows the name of a command.
#[verifier::external_type_specification]
pub struct ExCommandSuffix(ast::CommandSuffix);

/// `brush_parser::ast::CommandPrefixOrSuffixItem`: a word, a redirection, ...
#[verifier::external_type_specification]
pub struct ExCommandPrefixOrSuffixItem(ast::CommandPrefixOrSuffixItem);

/// `brush_parser::ast::IoRedirect`: a redirection.
#[verifier::external_type_specification]
#[verifier::external_body]
pub struct ExIoRedirect(ast::IoRedirect);

/// `brush_parser::ast::Assignment`: an assignment.
#[verifier::external_type_specification]
#[verifier::external_body]
pub struct ExAssignment(ast::Assignment);

/// `brush_parser::ast::ProcessSubstitutionKind`: `<(...)` or `>(...)`.
#[verifier::external_type_specification]
#[verifier::external_body]
pub struct ExProcessSubstitutionKind(ast::ProcessSubstitutionKind);

/// `brush_parser::ast::Word`: the raw text of a word and where it stands.
#[verifier::external_type_specification]
pub struct ExWord(ast::Word);

/// `brush_parser::SourceSpan`: where something starts and ends.
#[verifier::external_type_specification]
pub struct ExSourceSpan(brush_parser::SourceSpan);

/// `brush_parser::SourcePosition`: a character's index, line and column.
#[verifier::external_type_specification]
pub struct ExSourcePosition(brush_parser::SourcePosition);

// ---------------------------------------------------------------------------
// Simple commands as plain values

/// Where a word stands: the indices of its first character and of the one
/// after its last, and the line it starts on.
#[derive(Clone, Copy, Debug, PartialEq, Eq, Structural)]
pub struct Span {
    /// The index of the first character.
    pub start: usize,
    /// The index after the last character.
    pub end: usize,
    /// The line that the word starts on, counted from 1.
    pub line: usize,
}

/// A word of a shell program, quotes and all.
#[derive(Debug)]
pub struct ShellWord {
    /// The text of the word as it stands in the program.
    pub value: String,
    /// Where it stands, if known.
    pub span: Option<Span>,
}

/// A simple command: its name and the plain words after it.
#[derive(Debug)]
pub struct Invocation {
    /// The name; a command of assignments and redirections alone has none.
    pub name: Option<ShellWord>,
    /// The words after the name that are no redirections, assignments or process
    /// substitutions.
    pub args: Vec<ShellWord>,
}

/// The model of a [`ShellWord`].
pub struct WordModel {
    /// The text of the word.
    pub value: Seq<char>,
    /// Where it stands, if known.
    pub span: Option<Span>,
}

/// The model of an [`Invocation`].
pub struct InvocationModel {
    /// The name.
    pub name: Option<WordModel>,
    /// The plain words after the name.
    pub args: Seq<WordModel>,
}

impl View for ShellWord {
    type V = WordModel;

    open spec fn view(&self) -> WordModel {
        WordModel { value: self.value@, span: self.span }
    }
}

/// The views of words.
pub open spec fn word_views(words: Seq<ShellWord>) -> Seq<WordModel> {
    words.map_values(|w: ShellWord| w@)
}

impl View for Invocation {
    type V = InvocationModel;

    open spec fn view(&self) -> InvocationModel {
        InvocationModel {
            name: match self.name {
                Some(w) => Some(w@),
                None => None,
            },
            args: word_views(self.args@),
        }
    }
}

/// The views of simple commands.
pub open spec fn views(v: Seq<Invocation>) -> Seq<InvocationModel> {
    v.map_values(|c: Invocation| c@)
}

// ---------------------------------------------------------------------------
// The simple commands of a program

/// A word of the tree.
pub open spec fn word_of(w: ast::Word) -> WordModel {
    WordModel {
        value: w.value@,
        span: match w.loc {
            Some(s) => Some(Span { start: s.start.index, end: s.end.index, line: s.start.line }),
            None => None,
        },
    }
}

/// The plain words among what follows a command's name.
pub open spec fn plain_words(items: Seq<ast::CommandPrefixOrSuffixItem>) -> Seq<WordModel>
    decreases items.len(),
{
    if items.len() == 0 {
        seq![]
    } else {
        let rest = plain_words(items.drop_last());
        match items.last() {
            ast::CommandPrefixOrSuffixItem::Word(w) => rest.push(word_of(w)),
            _ => rest,
        }
    }
}

/// A simple command of the tree.
pub open spec fn invocation_of(c: ast::SimpleCommand) -> InvocationModel {
    InvocationModel {
        name: match c.word_or_name {
            Some(w) => Some(word_of(w)),
            None => None,
        },
        args: match c.suffix {
            Some(s) => plain_words(s.0@),
            None => seq![],
        },
    }
}

/// The simple commands of a list, in order.
pub open spec fn in_list(l: ast::CompoundList) -> Seq<InvocationModel>
    decreases l,
{
    in_items(l.0@)
}

/// The simple commands of the items of a list, in order.
pub open spec fn in_items(items: Seq<ast::CompoundListItem>) -> Seq<InvocationModel>
    decreases items,
{
    if items.len() == 0 {
        seq![]
    } else {
        in_items(items.drop_last()) + in_pipeline(items[items.len() - 1].0.first) + in_and_ors(
            items[items.len() - 1].0.additional@,
        )
    }
}

/// The simple commands of the pipelines after `&&` and `||`, in order.
pub open spec fn in_and_ors(rest: Seq<ast::AndOr>) -> Seq<InvocationModel>
    decreases rest,
{
    if rest.len() == 0 {
        seq![]
    } else {
        in_and_ors(rest.drop_last()) + match rest[rest.len() - 1] {
            ast::AndOr::And(p) => in_pipeline(p),
            ast::AndOr::Or(p) => in_pipeline(p),
        }
    }
}

/// The simple commands of a pipeline, in order.
pub open spec fn in_pipeline(p: ast::Pipeline) -> Seq<InvocationModel>
    decreases p,
{
    in_commands(p.seq@)
}

/// The simple commands of several commands, in order.
pub open spec fn in_commands(cmds: Seq<ast::Command>) -> Seq<InvocationModel>
    decreases cmds,
{
    if cmds.len() == 0 {
        seq![]
    } else {
        in_commands(cmds.drop_last()) + in_command(cmds[cmds.len() - 1])
    }
}

/// The simple commands of a command, in order; none for `[[ ... ]]`.
pub open spec fn in_command(c: ast::Command) -> Seq<InvocationModel>
    decreases c,
{
    match c {
        ast::Command::Simple(s) => seq![invocation_of(s)],
        ast::Command::Compound(cc, _) => in_compound(cc),
        ast::Command::Function(f) => in_compound(f.body.0),
        ast::Command::ExtendedTest(_, _) => seq![],
    }
}

/// The simple commands of a compound command, in order. Coprocesses are not
/// descended into.
pub open spec fn in_compound(cc: ast::CompoundCommand) -> Seq<InvocationModel>
    decreases cc,
{
    match cc {
        ast::CompoundCommand::BraceGroup(g) => in_list(g.list),
        ast::CompoundCommand::Subshell(s) => in_list(s.list),
        ast::CompoundCommand::ForClause(f) => in_list(f.body.list),
        ast::CompoundCommand::ArithmeticForClause(f) => in_list(f.body.list),
        ast::CompoundCommand::WhileClause(w) => in_list(w.0) + in_list(w.1.list),
        ast::CompoundCommand::UntilClause(w) => in_list(w.0) + in_list(w.1.list),
        ast::CompoundCommand::IfClause(
            ast::IfClauseCommand { condition, then: body, elses, .. },
        ) => in_list(condition) + in_list(body) + match elses {
            Some(elses) => in_elses(elses@),
            None => seq![],
        },
        ast::CompoundCommand::CaseClause(c) => in_cases(c.cases@),
        ast::CompoundCommand::Arithmetic(_) => seq![],
        ast::CompoundCommand::Coprocess(_) => seq![],
    }
}

/// The simple commands of the `elif` and `else` parts of an `if`, in order.
pub open spec fn in_elses(elses: Seq<ast::ElseClause>) -> Seq<InvocationModel>
    decreases elses,
{
    if elses.len() == 0 {
        seq![]
    } else {
        in_elses(elses.drop_last()) + match elses[elses.len() - 1].condition {
            Some(c) => in_list(c),
            None => seq![],
        } + in_list(elses[elses.len() - 1].body)
    }
}

/// The simple commands of the branches of a `case`, in order.
pub open spec fn in_cases(cases: Seq<ast::CaseItem>) -> Seq<InvocationModel>
    decreases cases,
{
    if cases.len() == 0 {
        seq![]
    } else {
        in_cases(cases.drop_last()) + match cases[cases.len() - 1].cmd {
            Some(l) => in_list(l),
            None => seq![],
        }
    }
}

/// The simple commands of a program, in order.
pub open spec fn in_program(p: ast::Program) -> Seq<InvocationModel> {
    in_lists(p.complete_commands@)
}

/// The simple commands of several lists, in order.
pub open spec fn in_lists(lists: Seq<ast::CompoundList>) -> Seq<InvocationModel>
    decreases lists.len(),
{
    if lists.len() == 0 {
        seq![]
    } else {
        in_lists(lists.drop_last()) + in_list(lists.last())
    }
}

/// A word of the tree as a plain value.
fn read_word(w: &ast::Word) -> (r: ShellWord)
    ensures
        r@ == word_of(*w),
{
    let span = match &w.loc {
        Some(s) => Some(Span { start: s.start.index, end: s.end.index, line: s.start.line }),
        None => None,
    };
    ShellWord { value: w.value.clone(), span }
}

/// A simple command of the tree as a plain value.
fn read_invocation(c: &ast::SimpleCommand) -> (r: Invocation)
    ensures
        r@ == invocation_of(*c),
{
    let name = match &c.word_or_name {
        Some(w) => Some(read_word(w)),
        None => None,
    };
    let mut args: Vec<ShellWord> = Vec::new();
    if let Some(suffix) = &c.suffix {
        let items = &suffix.0;
        let mut i: usize = 0;
        assert(items@.take(0) =~= seq![]);
        while i < items.len()
            invariant
                i <= items@.len(),
                word_views(args@) =~= plain_words(items@.take(i as int)),
            decreases items@.len() - i,
        {
            let ghost before = args@;
            assert(items@.take(i + 1).drop_last() =~= items@.take(i as int));
            match &items[i] {
                ast::CommandPrefixOrSuffixItem::Word(w) => {
                    let word = read_word(w);
                    args.push(word);
                    assert(word_views(args@) =~= word_views(before).push(word@));
                },
                _ => {},
            }
            i = i + 1;
        }
        assert(items@.take(i as int) =~= items@);
    }
    assert(c.suffix is None ==> word_views(args@) =~= seq![]);
    Invocation { name, args }
}

/// Collect the simple commands of a list.
pub fn walk_list(list: &ast::CompoundList, out: &mut Vec<Invocation>)
    ensures
        views(final(out)@) == views(old(out)@) + in_list(*list),
    decreases list,
{
    let ghost start = views(out@);
    let items = &list.0;
    let mut i: usize = 0;
    assert(items@.take(0) =~= seq![]);
    assert(start + in_items(items@.take(0)) =~= start);
    while i < items.len()
        invariant
            i <= items@.len(),
            items == list.0,
            views(out@) == start + in_items(items@.take(i as int)),
        decreases items@.len() - i,
    {
        let and_or = &items[i].0;
        assert(items@.take(i + 1).drop_last() =~= items@.take(i as int));
        walk_pipeline(&and_or.first, out);
        let more = &and_or.additional;
        let ghost mid = views(out@);
        let mut j: usize = 0;
        assert(more@.take(0) =~= seq![]);
        assert(mid + in_and_ors(more@.take(0)) =~= mid);
        while j < more.len()
            invariant
                j <= more@.len(),
                i < items@.len(),
                items == list.0,
                more == items@[i as int].0.additional,
                views(out@) == mid + in_and_ors(more@.take(j as int)),
            decreases more@.len() - j,
        {
            assert(more@.take(j + 1).drop_last() =~= more@.take(j as int));
            assert(decreases_to!(list => items@[i as int]));
            assert(decreases_to!(items@[i as int] => more@[j as int]));
            match &more[j] {
                ast::AndOr::And(p) => walk_pipeline(p, out),
                ast::AndOr::Or(p) => walk_pipeline(p, out),
            }
            j = j + 1;
            assert(views(out@) =~= mid + in_and_ors(more@.take(j as int)));
        }
        assert(more@.take(j as int) =~= more@);
        i = i + 1;
        assert(views(out@) =~= start + in_items(items@.take(i as int)));
    }
    assert(items@.take(i as int) =~= items@);
}

/// Collect the simple commands of a pipeline.
pub fn walk_pipeline(p: &ast::Pipeline, out: &mut Vec<Invocation>)
    ensures
        views(final(out)@) == views(old(out)@) + in_pipeline(*p),
    decreases p,
{
    let ghost start = views(out@);
    let cmds = &p.seq;
    let mut i: usize = 0;
    assert(cmds@.take(0) =~= seq![]);
    assert(start + in_commands(cmds@.take(0)) =~= start);
    while i < cmds.len()
        invariant
            i <= cmds@.len(),
            cmds == p.seq,
            views(out@) == start + in_commands(cmds@.take(i as int)),
        decreases cmds@.len() - i,
    {
        assert(cmds@.take(i + 1).drop_last() =~= cmds@.take(i as int));
        walk_command(&cmds[i], out);
        i = i + 1;
        assert(views(out@) =~= start + in_commands(cmds@.take(i as int)));
    }
    assert(cmds@.take(i as int) =~= cmds@);
}

/// Collect the simple commands of a command.
pub fn walk_command(cmd: &ast::Command, out: &mut Vec<Invocation>)
    ensures
        views(final(out)@) == views(old(out)@) + in_command(*cmd),
    decreases cmd,
{
    let ghost start = out@;
    match cmd {
        ast::Command::Simple(s) => {
            let c = read_invocation(s);
            out.push(c);
            assert(views(out@) =~= views(start) + seq![c@]);
        },
        ast::Command::Compound(cc, _) => walk_compound(cc, out),
        ast::Command::Function(f) => walk_compound(&f.body.0, out),
        ast::Command::ExtendedTest(_, _) => {
            assert(views(out@) =~= views(start) + seq![]);
        },
    }
}

/// Collect the simple commands of a compound command.
pub fn walk_compound(cc: &ast::CompoundCommand, out: &mut Vec<Invocation>)
    ensures
        views(final(out)@) == views(old(out)@) + in_compound(*cc),
    decreases cc,
{
    let ghost start = views(out@);
    match cc {
        ast::CompoundCommand::BraceGroup(g) => walk_list(&g.list, out),
        ast::CompoundCommand::Subshell(s) => walk_list(&s.list, out),
        ast::CompoundCommand::ForClause(f) => walk_list(&f.body.list, out),
        ast::CompoundCommand::ArithmeticForClause(f) => walk_list(&f.body.list, out),
        ast::CompoundCommand::WhileClause(w) => {
            walk_list(&w.0, out);
            walk_list(&w.1.list, out);
        },
        ast::CompoundCommand::UntilClause(w) => {
            walk_list(&w.0, out);
            walk_list(&w.1.list, out);
        },
        ast::CompoundCommand::IfClause(
            ast::IfClauseCommand { condition, then: body, elses, .. },
        ) => {
            walk_list(condition, out);
            walk_list(body, out);
            if let Some(elses) = elses {
                walk_elses(elses, out);
            }
        },
        ast::CompoundCommand::CaseClause(c) => walk_cases(&c.cases, out),
        ast::CompoundCommand::Arithmetic(_) => {},
        ast::CompoundCommand::Coprocess(_) => {},
    }
    assert(views(out@) =~= start + in_compound(*cc));
}

/// Collect the simple commands of the `elif` and `else` parts of an `if`.
fn walk_elses(elses: &Vec<ast::ElseClause>, out: &mut Vec<Invocation>)
    ensures
        views(final(out)@) == views(old(out)@) + in_elses(elses@),
    decreases elses,
{
    let ghost start = views(out@);
    let mut i: usize = 0;
    assert(elses@.take(0) =~= seq![]);
    assert(start + in_elses(elses@.take(0)) =~= start);
    while i < elses.len()
        invariant
            i <= elses@.len(),
            views(out@) == start + in_elses(elses@.take(i as int)),
        decreases elses@.len() - i,
    {
        assert(elses@.take(i + 1).drop_last() =~= elses@.take(i as int));
        let e = &elses[i];
        if let Some(c) = &e.condition {
            walk_list(c, out);
        }
        walk_list(&e.body, out);
        i = i + 1;
        assert(views(out@) =~= start + in_elses(elses@.take(i as int)));
    }
    assert(elses@.take(i as int) =~= elses@);
}

/// Collect the simple commands of the branches of a `case`.
fn walk_cases(cases: &Vec<ast::CaseItem>, out: &mut Vec<Invocation>)
    ensures
        views(final(out)@) == views(old(out)@) + in_cases(cases@),
    decreases cases,
{
    let ghost start = views(out@);
    let mut i: usize = 0;
    assert(cases@.take(0) =~= seq![]);
    assert(start + in_cases(cases@.take(0)) =~= start);
    while i < cases.len()
        invariant
            i <= cases@.len(),
            views(out@) == start + in_cases(cases@.take(i as int)),
        decreases cases@.len() - i,
    {
        assert(cases@.take(i + 1).drop_last() =~= cases@.take(i as int));
        if let Some(list) = &cases[i].cmd {
            walk_list(list, out);
        }
        i = i + 1;
        assert(views(out@) =~= start + in_cases(cases@.take(i as int)));
    }
    assert(cases@.take(i as int) =~= cases@);
}

/// The simple commands of a program, in order.
pub fn commands_of(program: &ast::Program) -> (r: Vec<Invocation>)
    ensures
        views(r@) == in_program(*program),
{
    let mut out: Vec<Invocation> = Vec::new();
    let lists = &program.complete_commands;
    let mut i: usize = 0;
    assert(lists@.take(0) =~= seq![]);
    while i < lists.len()
        invariant
            i <= lists@.len(),
            views(out@) =~= in_lists(lists@.take(i as int)),
        decreases lists@.len() - i,
    {
        assert(lists@.take(i + 1).drop_last() =~= lists@.take(i as int));
        walk_list(&lists[i], &mut out);
        i = i + 1;
    }
    assert(lists@.take(i as int) =~= lists@);
    out
}

// ---------------------------------------------------------------------------
// Laws

/// A word of the tree keeps its text, and its place where that is known.
pub proof fn law_words_are_kept(w: ast::Word)
    ensures
        word_of(w).value == w.value@,
        word_of(w).span is Some <==> w.loc is Some,
        w.loc matches Some(l) ==> word_of(w).span->0.start == l.start.index && word_of(w).span
            ->0.end == l.end.index && word_of(w).span->0.line == l.start.line,
{
}

/// The arguments of a simple command are its plain words, all of them and in
/// order.
pub proof fn law_arguments_are_the_plain_words(items: Seq<ast::CommandPrefixOrSuffixItem>)
    ensures
        plain_words(items) == items.filter_map(
            |x: ast::CommandPrefixOrSuffixItem|
                match x {
                    ast::CommandPrefixOrSuffixItem::Word(w) => Some(word_of(w)),
                    _ => None,
                },
        ),
    decreases items.len(),
{
    if items.len() > 0 {
        law_arguments_are_the_plain_words(items.drop_last());
    }
}

/// A simple command is collected under its own name and with its own words.
pub proof fn law_simple_commands_are_collected(c: ast::SimpleCommand)
    ensures
        in_command(ast::Command::Simple(c)).len() == 1,
        in_command(ast::Command::Simple(c))[0].name is Some <==> c.word_or_name is Some,
        c.word_or_name matches Some(w) ==> in_command(ast::Command::Simple(c))[0].name == Some(
            word_of(w),
        ),
        c.suffix matches Some(s) ==> in_command(ast::Command::Simple(c))[0].args == plain_words(
            s.0@,
        ),
        c.suffix is None ==> in_command(ast::Command::Simple(c))[0].args.len() == 0,
{
}

/// Every list of a program is looked into, in order, and nothing else is.
pub proof fn law_every_list_is_looked_into(p: ast::Program)
    ensures
        in_program(p) == p.complete_commands@.map_values(
            |l: ast::CompoundList| in_list(l),
        ).flatten(),
{
    lemma_lists(p.complete_commands@);
}

proof fn lemma_lists(lists: Seq<ast::CompoundList>)
    ensures
        in_lists(lists) == lists.map_values(|l: ast::CompoundList| in_list(l)).flatten(),
    decreases lists.len(),
{
    let f = |l: ast::CompoundList| in_list(l);
    if lists.len() > 0 {
        lemma_lists(lists.drop_last());
        lists.drop_last().map_values(f).lemma_flatten_push(in_list(lists.last()));
        assert(lists.map_values(f) =~= lists.drop_last().map_values(f).push(in_list(lists.last())));
    }
}

/// Every pipeline of a list is looked into, in order: the first of each item, and
/// those after `&&` and `||`.
pub proof fn law_every_pipeline_is_looked_into(l: ast::CompoundList)
    ensures
        in_list(l) == l.0@.map_values(
            |x: ast::CompoundListItem|
                in_pipeline(x.0.first) + x.0.additional@.map_values(
                    |a: ast::AndOr|
                        match a {
                            ast::AndOr::And(p) => in_pipeline(p),
                            ast::AndOr::Or(p) => in_pipeline(p),
                        },
                ).flatten(),
        ).flatten(),
{
    lemma_items(l.0@);
}

spec fn of_and_or(a: ast::AndOr) -> Seq<InvocationModel> {
    match a {
        ast::AndOr::And(p) => in_pipeline(p),
        ast::AndOr::Or(p) => in_pipeline(p),
    }
}

proof fn lemma_and_ors(rest: Seq<ast::AndOr>)
    ensures
        in_and_ors(rest) == rest.map_values(|a: ast::AndOr| of_and_or(a)).flatten(),
    decreases rest.len(),
{
    let f = |a: ast::AndOr| of_and_or(a);
    if rest.len() > 0 {
        lemma_and_ors(rest.drop_last());
        rest.drop_last().map_values(f).lemma_flatten_push(of_and_or(rest.last()));
        assert(rest.map_values(f) =~= rest.drop_last().map_values(f).push(of_and_or(rest.last())));
    }
}

proof fn lemma_items(items: Seq<ast::CompoundListItem>)
    ensures
        in_items(items) == items.map_values(
            |x: ast::CompoundListItem|
                in_pipeline(x.0.first) + x.0.additional@.map_values(
                    |a: ast::AndOr|
                        match a {
                            ast::AndOr::And(p) => in_pipeline(p),
                            ast::AndOr::Or(p) => in_pipeline(p),
                        },
                ).flatten(),
        ).flatten(),
    decreases items.len(),
{
    let f = |x: ast::CompoundListItem|
        in_pipeline(x.0.first) + x.0.additional@.map_values(
            |a: ast::AndOr|
                match a {
                    ast::AndOr::And(p) => in_pipeline(p),
                    ast::AndOr::Or(p) => in_pipeline(p),
                },
        ).flatten();
    if items.len() > 0 {
        let last = items.last();
        lemma_items(items.drop_last());
        lemma_and_ors(last.0.additional@);
        assert(last.0.additional@.map_values(
            |a: ast::AndOr|
                match a {
                    ast::AndOr::And(p) => in_pipeline(p),
                    ast::AndOr::Or(p) => in_pipeline(p),
                },
        ) =~= last.0.additional@.map_values(|a: ast::AndOr| of_and_or(a)));
        items.drop_last().map_values(f).lemma_flatten_push(f(last));
        assert(items.map_values(f) =~= items.drop_last().map_values(f).push(f(last)));
        assert(in_items(items) =~= in_items(items.drop_last()) + f(last));
    }
}

/// Every command of a pipeline is looked into, in order.
pub proof fn law_every_command_is_looked_into(p: ast::Pipeline)
    ensures
        in_pipeline(p) == p.seq@.map_values(|c: ast::Command| in_command(c)).flatten(),
{
    lemma_commands(p.seq@);
}

proof fn lemma_commands(cmds: Seq<ast::Command>)
    ensures
        in_commands(cmds) == cmds.map_values(|c: ast::Command| in_command(c)).flatten(),
    decreases cmds.len(),
{
    let f = |c: ast::Command| in_command(c);
    if cmds.len() > 0 {
        lemma_commands(cmds.drop_last());
        cmds.drop_last().map_values(f).lemma_flatten_push(in_command(cmds.last()));
        assert(cmds.map_values(f) =~= cmds.drop_last().map_values(f).push(in_command(cmds.last())));
    }
}

proof fn lemma_cases(cases: Seq<ast::CaseItem>)
    ensures
        in_cases(cases) == cases.map_values(
            |c: ast::CaseItem|
                match c.cmd {
                    Some(l) => in_list(l),
                    None => seq![],
                },
        ).flatten(),
    decreases cases.len(),
{
    let f = |c: ast::CaseItem|
        match c.cmd {
            Some(l) => in_list(l),
            None => seq![],
        };
    if cases.len() > 0 {
        lemma_cases(cases.drop_last());
        cases.drop_last().map_values(f).lemma_flatten_push(f(cases.last()));
        assert(cases.map_values(f) =~= cases.drop_last().map_values(f).push(f(cases.last())));
    }
}

proof fn lemma_elses(elses: Seq<ast::ElseClause>)
    ensures
        in_elses(elses) == elses.map_values(
            |e: ast::ElseClause|
                match e.condition {
                    Some(c) => in_list(c) + in_list(e.body),
                    None => in_list(e.body),
                },
        ).flatten(),
    decreases elses.len(),
{
    let f = |e: ast::ElseClause|
        match e.condition {
            Some(c) => in_list(c) + in_list(e.body),
            None => in_list(e.body),
        };
    if elses.len() > 0 {
        lemma_elses(elses.drop_last());
        elses.drop_last().map_values(f).lemma_flatten_push(f(elses.last()));
        assert(elses.map_values(f) =~= elses.drop_last().map_values(f).push(f(elses.last())));
        assert(in_elses(elses) =~= in_elses(elses.drop_last()) + f(elses.last()));
    }
}

/// Every branch of a `case` is looked into, in order, and so is every part of an
/// `if`: the condition, the body, and all that follow `elif` and `else`.
pub proof fn law_every_branch_is_looked_into(c: ast::CaseClauseCommand, i: ast::IfClauseCommand)
    ensures
        in_compound(ast::CompoundCommand::CaseClause(c)) == c.cases@.map_values(
            |x: ast::CaseItem|
                match x.cmd {
                    Some(l) => in_list(l),
                    None => seq![],
                },
        ).flatten(),
        i matches ast::IfClauseCommand { condition, then: body, elses, .. } ==> match elses {
            None => in_compound(ast::CompoundCommand::IfClause(i)) == in_list(condition) + in_list(
                body,
            ),
            Some(elses) => in_compound(ast::CompoundCommand::IfClause(i)) == in_list(condition)
                + in_list(body) + elses@.map_values(
                |e: ast::ElseClause|
                    match e.condition {
                        Some(c) => in_list(c) + in_list(e.body),
                        None => in_list(e.body),
                    },
            ).flatten(),
        },
{
    lemma_cases(c.cases@);
    let ast::IfClauseCommand { condition, then: body, elses, .. } = i;
    if let Some(elses) = elses {
        lemma_elses(elses@);
    }
    assert(in_list(condition) + in_list(body) + Seq::<InvocationModel>::empty() =~= in_list(
        condition,
    ) + in_list(body));
}

/// The lists of every other nest are looked into: of groups, subshells, loops and
/// functions.
pub proof fn law_every_nest_is_looked_into(
    g: ast::BraceGroupCommand,
    s: ast::SubshellCommand,
    f: ast::ForClauseCommand,
    a: ast::ArithmeticForClauseCommand,
    w: ast::WhileOrUntilClauseCommand,
    d: ast::FunctionDefinition,
    cc: ast::CompoundCommand,
    r: Option<ast::RedirectList>,
)
    ensures
        in_compound(ast::CompoundCommand::BraceGroup(g)) == in_list(g.list),
        in_compound(ast::CompoundCommand::Subshell(s)) == in_list(s.list),
        in_compound(ast::CompoundCommand::ForClause(f)) == in_list(f.body.list),
        in_compound(ast::CompoundCommand::ArithmeticForClause(a)) == in_list(a.body.list),
        in_compound(ast::CompoundCommand::WhileClause(w)) == in_list(w.0) + in_list(w.1.list),
        in_compound(ast::CompoundCommand::UntilClause(w)) == in_list(w.0) + in_list(w.1.list),
        in_command(ast::Command::Function(d)) == in_compound(d.body.0),
        in_command(ast::Command::Compound(cc, r)) == in_compound(cc),
{
}

} // verus!
