//! The commands that a shell runs to expand a word: `$(...)` and `` `...` ``.

use vstd::prelude::*;
use vstd::slice::*;

use crate::parser;
use crate::text;

verus! {

/// How characters are quoted at some point of a word.
#[derive(Clone, Copy, Debug, PartialEq, Eq, Structural)]
pub enum Quoting {
    /// Not at all.
    Bare,
    /// Between double quotes.
    Double,
    /// In a here-document, where quotes stand for themselves.
    Body,
}

/// Where the first `c` from `from` on stands that no backslash escapes, or the
/// length of `s` where there is none.
pub open spec fn unescaped(s: Seq<char>, from: int, c: char) -> int
    decreases s.len() + 1 - from,
{
    if !(0 <= from < s.len()) {
        s.len() as int
    } else if s[from] == '\\' {
        unescaped(s, from + 2, c)
    } else if s[from] == c {
        from
    } else {
        unescaped(s, from + 1, c)
    }
}

/// Whether a `)` at `k` closes a `$(` before `from`: what stands between the two is
/// a shell program, and is none with the `)`, as it would be where the `)` stands in
/// a comment.
pub open spec fn closes(s: Seq<char>, from: int, k: int) -> bool {
    &&& s[k] == ')'
    &&& parser::parsed(s.subrange(from, k)) is Ok
    &&& parser::parsed(s.subrange(from, k + 1)) is Err
}

/// Where the first `)` from `k` on stands that closes a `$(` before `from`.
pub open spec fn closing(s: Seq<char>, from: int, k: int) -> Option<int>
    decreases s.len() - k,
{
    if !(from <= k < s.len()) {
        None
    } else if closes(s, from, k) {
        Some(k)
    } else {
        closing(s, from, k + 1)
    }
}

/// The program between backquotes: a backslash before `$`, `` ` `` or another
/// backslash goes.
pub open spec fn between_backquotes(s: Seq<char>) -> Seq<char>
    decreases s.len(),
{
    if s.len() == 0 {
        seq![]
    } else if s[0] == '\\' && s.len() > 1 && (s[1] == '$' || s[1] == '`' || s[1] == '\\') {
        seq![s[1]] + between_backquotes(s.skip(2))
    } else {
        seq![s[0]] + between_backquotes(s.skip(1))
    }
}

/// The place lies in what is searched.
pub proof fn lemma_unescaped(s: Seq<char>, from: int, c: char)
    requires
        0 <= from <= s.len(),
    ensures
        from <= unescaped(s, from, c) <= s.len(),
    decreases s.len() - from,
{
    if from < s.len() {
        if s[from] == '\\' {
            if from + 2 <= s.len() {
                lemma_unescaped(s, from + 2, c);
            }
        } else if s[from] != c {
            lemma_unescaped(s, from + 1, c);
        }
    }
}

/// The place lies in what is searched.
pub proof fn lemma_closing(s: Seq<char>, from: int, k: int)
    ensures
        closing(s, from, k) matches Some(e) ==> k <= e < s.len() && from <= e,
    decreases s.len() - k,
{
    if from <= k < s.len() && !closes(s, from, k) {
        lemma_closing(s, from, k + 1);
    }
}

/// The programs, in order, that a shell runs to expand what stands from `i` on in
/// a word, where the quoting is `q`. Nothing is expanded after a backslash or
/// between single quotes. A `$(` that nothing closes, such as that of some
/// arithmetic, stands for itself, and so does a lone backquote.
pub open spec fn programs(s: Seq<char>, i: int, q: Quoting) -> Seq<Seq<char>>
    decreases s.len() + 1 - i,
{
    proof {
        if 0 <= i < s.len() {
            text::lemma_find(s.skip(i + 1), '\'');
            lemma_unescaped(s, i + 1, '`');
            lemma_closing(s, i + 2, i + 2);
            if i + 2 <= s.len() {
                lemma_unescaped(s, i + 2, '\'');
            }
        }
    }
    if !(0 <= i < s.len()) {
        seq![]
    } else if s[i] == '\\' {
        programs(s, i + 2, q)
    } else if s[i] == '\'' && q == Quoting::Bare {
        programs(s, i + 2 + text::find(s.skip(i + 1), '\''), q)
    } else if s[i] == '"' && q == Quoting::Bare {
        programs(s, i + 1, Quoting::Double)
    } else if s[i] == '"' && q == Quoting::Double {
        programs(s, i + 1, Quoting::Bare)
    } else if s[i] == '`' {
        let e = unescaped(s, i + 1, '`');
        if e < s.len() {
            seq![between_backquotes(s.subrange(i + 1, e))] + programs(s, e + 1, q)
        } else {
            programs(s, i + 1, q)
        }
    } else if s[i] == '$' && i + 1 < s.len() && s[i + 1] == '\'' && q == Quoting::Bare {
        programs(s, unescaped(s, i + 2, '\'') + 1, q)
    } else if s[i] == '$' && i + 1 < s.len() && s[i + 1] == '(' {
        match closing(s, i + 2, i + 2) {
            Some(e) => seq![s.subrange(i + 2, e)] + programs(s, e + 1, q),
            None => programs(s, i + 2, q),
        }
    } else {
        programs(s, i + 1, q)
    }
}

/// Where the first `c` from `from` on stands that no backslash escapes, or the
/// length of `s`.
fn find_unescaped(s: &[char], from: usize, c: char) -> (r: usize)
    requires
        from <= s@.len(),
    ensures
        r == unescaped(s@, from as int, c),
        from <= r <= s@.len(),
{
    let mut i: usize = from;
    while i < s.len()
        invariant
            from <= i <= s@.len(),
            unescaped(s@, from as int, c) == unescaped(s@, i as int, c),
        decreases s@.len() - i,
    {
        if s[i] == '\\' {
            if s.len() - i < 2 {
                assert(unescaped(s@, i + 2, c) == s@.len());
                return s.len();
            }
            i = i + 2;
        } else if s[i] == c {
            return i;
        } else {
            i = i + 1;
        }
    }
    s.len()
}

/// Where the `)` stands that closes a `$(` before `from`, if there is one.
fn find_closing(s: &[char], from: usize) -> (r: Option<usize>)
    requires
        from <= s@.len(),
    ensures
        match r {
            Some(e) => closing(s@, from as int, from as int) == Some(e as int) && from <= e
                < s@.len(),
            None => closing(s@, from as int, from as int) is None,
        },
{
    let mut k: usize = from;
    while k < s.len()
        invariant
            from <= k <= s@.len(),
            closing(s@, from as int, from as int) == closing(s@, from as int, k as int),
        decreases s@.len() - k,
    {
        if s[k] == ')' {
            let inner = text::string_of(slice_subrange(s, from, k));
            if parser::parse_program(inner.as_str()).is_ok() {
                let more = text::string_of(slice_subrange(s, from, k + 1));
                if parser::parse_program(more.as_str()).is_err() {
                    return Some(k);
                }
            }
        }
        k = k + 1;
    }
    None
}

/// The program between backquotes.
fn unquote_backquoted(s: &[char]) -> (r: String)
    ensures
        r@ == between_backquotes(s@),
{
    let mut out: Vec<char> = Vec::new();
    let mut i: usize = 0;
    assert(s@.skip(0) =~= s@);
    assert(out@ + between_backquotes(s@) =~= between_backquotes(s@));
    while i < s.len()
        invariant
            i <= s@.len(),
            out@ + between_backquotes(s@.skip(i as int)) == between_backquotes(s@),
        decreases s@.len() - i,
    {
        let ghost rest = s@.skip(i as int);
        let ghost before = out@;
        if s[i] == '\\' && s.len() - i > 1 && (s[i + 1] == '$' || s[i + 1] == '`' || s[i + 1]
            == '\\') {
            out.push(s[i + 1]);
            assert(rest.skip(2) =~= s@.skip(i + 2));
            assert(before + between_backquotes(rest) =~= out@ + between_backquotes(s@.skip(i + 2)));
            i = i + 2;
        } else {
            out.push(s[i]);
            assert(rest.skip(1) =~= s@.skip(i + 1));
            assert(before + between_backquotes(rest) =~= out@ + between_backquotes(s@.skip(i + 1)));
            i = i + 1;
        }
    }
    assert(out@ + between_backquotes(s@.skip(i as int)) =~= out@);
    text::string_of(&out)
}

/// The programs, in order, that a shell runs to expand a word; `body` says
/// whether it is a here-document.
pub fn find_programs(s: &[char], body: bool) -> (r: Vec<String>)
    ensures
        text::texts(r@) == programs(
            s@,
            0,
            if body {
                Quoting::Body
            } else {
                Quoting::Bare
            },
        ),
{
    let mut q = if body {
        Quoting::Body
    } else {
        Quoting::Bare
    };
    let ghost first = q;
    let mut out: Vec<String> = Vec::new();
    let mut i: usize = 0;
    assert(text::texts(out@) + programs(s@, 0, q) =~= programs(s@, 0, q));
    while i < s.len()
        invariant
            i <= s@.len(),
            text::texts(out@) + programs(s@, i as int, q) == programs(s@, 0, first),
        decreases s@.len() - i,
    {
        let ghost before = out@;
        let ghost at = i as int;
        let n = s.len();
        let more = n - i > 1;
        if s[i] == '\\' {
            i = if more {
                i + 2
            } else {
                n
            };
            assert(programs(s@, at + 2, q) == programs(s@, i as int, q));
        } else if s[i] == '\'' && q == Quoting::Bare {
            let rest = slice_subrange(s, i + 1, n);
            assert(rest@ =~= s@.skip(i + 1));
            let e = text::position(rest, '\'');
            i = if e < rest.len() {
                i + 2 + e
            } else {
                n
            };
            assert(programs(s@, at + 2 + e, q) == programs(s@, i as int, q));
        } else if s[i] == '"' && q == Quoting::Bare {
            q = Quoting::Double;
            i = i + 1;
        } else if s[i] == '"' && q == Quoting::Double {
            q = Quoting::Bare;
            i = i + 1;
        } else if s[i] == '`' {
            let e = find_unescaped(s, i + 1, '`');
            if e < n {
                let program = unquote_backquoted(slice_subrange(s, i + 1, e));
                out.push(program);
                assert(text::texts(out@) + programs(s@, e + 1, q) =~= text::texts(before)
                    + programs(s@, at, q));
                i = e + 1;
            } else {
                i = i + 1;
            }
        } else if s[i] == '$' && more && s[i + 1] == '\'' && q == Quoting::Bare {
            let e = find_unescaped(s, i + 2, '\'');
            i = if e < n {
                e + 1
            } else {
                n
            };
            assert(programs(s@, e + 1, q) == programs(s@, i as int, q));
        } else if s[i] == '$' && more && s[i + 1] == '(' {
            match find_closing(s, i + 2) {
                Some(e) => {
                    let program = text::string_of(slice_subrange(s, i + 2, e));
                    out.push(program);
                    assert(text::texts(out@) + programs(s@, e + 1, q) =~= text::texts(before)
                        + programs(s@, at, q));
                    i = e + 1;
                },
                None => {
                    i = i + 2;
                },
            }
        } else {
            i = i + 1;
        }
    }
    assert(text::texts(out@) + programs(s@, i as int, q) =~= text::texts(out@));
    out
}

// ---------------------------------------------------------------------------
// Laws

proof fn lemma_unescaped_shift(s: Seq<char>, i: int, from: int, c: char)
    requires
        0 <= i <= s.len(),
        0 <= from,
    ensures
        unescaped(s, i + from, c) == i + unescaped(s.skip(i), from, c),
    decreases s.len() + 1 - i - from,
{
    let t = s.skip(i);
    if i + from < s.len() {
        assert(t[from] == s[i + from]);
        if s[i + from] == '\\' {
            lemma_unescaped_shift(s, i, from + 2, c);
        } else if s[i + from] != c {
            lemma_unescaped_shift(s, i, from + 1, c);
        }
    }
}

proof fn lemma_closing_shift(s: Seq<char>, i: int, from: int, k: int)
    requires
        0 <= i <= s.len(),
        0 <= from <= k,
    ensures
        closing(s.skip(i), from, k) is None ==> closing(s, i + from, i + k) is None,
        closing(s.skip(i), from, k) matches Some(e) ==> closing(s, i + from, i + k) == Some(i + e),
    decreases s.len() - i - k,
{
    let t = s.skip(i);
    if i + k < s.len() {
        assert(t[k] == s[i + k]);
        assert(t.subrange(from, k) =~= s.subrange(i + from, i + k));
        assert(t.subrange(from, k + 1) =~= s.subrange(i + from, i + k + 1));
        if !closes(t, from, k) {
            lemma_closing_shift(s, i, from, k + 1);
        }
    }
}

proof fn lemma_programs_shift(s: Seq<char>, i: int, q: Quoting)
    requires
        0 <= i <= s.len(),
    ensures
        programs(s, i, q) == programs(s.skip(i), 0, q),
    decreases s.len() + 1 - i,
{
    let t = s.skip(i);
    if i < s.len() {
        assert(t[0] == s[i]);
        assert(i + 1 < s.len() ==> t[1] == s[i + 1]);
        assert(t.skip(1) =~= s.skip(i + 1));
        text::lemma_find(s.skip(i + 1), '\'');
        lemma_unescaped(s, i + 1, '`');
        lemma_unescaped_shift(s, i, 1, '`');
        lemma_closing(s, i + 2, i + 2);
        lemma_closing(t, 2, 2);
        lemma_closing_shift(s, i, 2, 2);
        if i + 2 <= s.len() {
            lemma_unescaped(s, i + 2, '\'');
            lemma_unescaped_shift(s, i, 2, '\'');
        }
        if s[i] == '\\' {
            lemma_step(s, i, 2, q);
        } else if s[i] == '\'' && q == Quoting::Bare {
            lemma_step(s, i, 2 + text::find(s.skip(i + 1), '\''), q);
        } else if s[i] == '"' && q == Quoting::Bare {
            lemma_step(s, i, 1, Quoting::Double);
        } else if s[i] == '"' && q == Quoting::Double {
            lemma_step(s, i, 1, Quoting::Bare);
        } else if s[i] == '`' {
            let e = unescaped(s, i + 1, '`');
            if e < s.len() {
                assert(s.subrange(i + 1, e) =~= t.subrange(1, e - i));
                lemma_step(s, i, e - i + 1, q);
            } else {
                lemma_step(s, i, 1, q);
            }
        } else if s[i] == '$' && i + 1 < s.len() && s[i + 1] == '\'' && q == Quoting::Bare {
            lemma_step(s, i, unescaped(s, i + 2, '\'') - i + 1, q);
        } else if s[i] == '$' && i + 1 < s.len() && s[i + 1] == '(' {
            match closing(s, i + 2, i + 2) {
                Some(e) => {
                    assert(s.subrange(i + 2, e) =~= t.subrange(2, e - i));
                    lemma_step(s, i, e - i + 1, q);
                },
                None => {
                    lemma_step(s, i, 2, q);
                },
            }
        } else {
            lemma_step(s, i, 1, q);
        }
    }
}

proof fn lemma_step(s: Seq<char>, i: int, d: int, q: Quoting)
    requires
        0 <= i < s.len(),
        1 <= d,
    ensures
        programs(s, i + d, q) == programs(s.skip(i), d, q),
    decreases s.len() + 1 - i, 0int,
{
    let t = s.skip(i);
    if i + d <= s.len() {
        lemma_programs_shift(s, i + d, q);
        if i > 0 {
            lemma_programs_shift(t, d, q);
        } else {
            assert(t =~= s);
        }
        assert(t.skip(d) =~= s.skip(i + d));
    }
}

/// The programs of a word go by its parts. A character that means nothing here and
/// one after a backslash hold none, and neither does text between single quotes
/// that are not quoted themselves. Double quotes hide nothing but single quotes. In
/// a here-document quotes are nothing.
pub proof fn law_what_holds_no_program(c: char, x: Seq<char>, rest: Seq<char>, q: Quoting)
    requires
        !x.contains('\''),
    ensures
        programs(seq![], 0, q).len() == 0,
        c != '\\' && c != '\'' && c != '"' && c != '`' && c != '$' ==> programs(
            seq![c] + rest,
            0,
            q,
        ) == programs(rest, 0, q),
        programs(seq!['\\', c] + rest, 0, q) == programs(rest, 0, q),
        programs(seq!['\''] + x + seq!['\''] + rest, 0, Quoting::Bare) == programs(
            rest,
            0,
            Quoting::Bare,
        ),
        programs(seq!['\''] + rest, 0, Quoting::Double) == programs(rest, 0, Quoting::Double),
        programs(seq!['\''] + rest, 0, Quoting::Body) == programs(rest, 0, Quoting::Body),
        programs(seq!['"'] + rest, 0, Quoting::Bare) == programs(rest, 0, Quoting::Double),
        programs(seq!['"'] + rest, 0, Quoting::Double) == programs(rest, 0, Quoting::Bare),
        programs(seq!['"'] + rest, 0, Quoting::Body) == programs(rest, 0, Quoting::Body),
        rest.len() == 0 || (rest[0] != '(' && rest[0] != '\'') ==> programs(seq!['$'] + rest, 0, q)
            == programs(rest, 0, q),
{
    let one = seq![c] + rest;
    assert(one.skip(1) =~= rest);
    lemma_programs_shift(one, 1, q);
    let two = seq!['\\', c] + rest;
    assert(two.skip(2) =~= rest);
    lemma_programs_shift(two, 2, q);
    let quoted = seq!['\''] + x + seq!['\''] + rest;
    let n = x.len() as int;
    assert(quoted.skip(n + 2) =~= rest);
    assert(quoted.skip(1)[n] == '\'');
    assert forall|k: int| 0 <= k < n implies quoted.skip(1)[k] != '\'' by {
        assert(quoted.skip(1)[k] == x[k]);
        assert(x.contains(x[k]));
    }
    text::lemma_find_unique(quoted.skip(1), '\'', n);
    lemma_programs_shift(quoted, n + 2, Quoting::Bare);
    let single = seq!['\''] + rest;
    assert(single.skip(1) =~= rest);
    lemma_programs_shift(single, 1, Quoting::Double);
    lemma_programs_shift(single, 1, Quoting::Body);
    let double = seq!['"'] + rest;
    assert(double.skip(1) =~= rest);
    lemma_programs_shift(double, 1, Quoting::Double);
    lemma_programs_shift(double, 1, Quoting::Bare);
    lemma_programs_shift(double, 1, Quoting::Body);
    let dollar = seq!['$'] + rest;
    assert(dollar.skip(1) =~= rest);
    assert(rest.len() > 0 ==> dollar[1] == rest[0]);
    lemma_programs_shift(dollar, 1, q);
}

/// What stands in `$(...)` is a program, quoted or not, and so is what stands
/// between backquotes; what follows is looked at in turn.
pub proof fn law_what_is_a_program(p: Seq<char>, x: Seq<char>, rest: Seq<char>, q: Quoting)
    requires
        parser::parsed(p) is Ok,
        parser::parsed(p.push(')')) is Err,
        forall|k: int|
            0 <= k < p.len() && #[trigger] p[k] == ')' ==> !(parser::parsed(p.take(k)) is Ok
                && parser::parsed(p.take(k + 1)) is Err),
        !x.contains('`') && !x.contains('\\'),
    ensures
        programs(seq!['$', '('] + p + seq![')'] + rest, 0, q) == seq![p] + programs(rest, 0, q),
        programs(seq!['`'] + x + seq!['`'] + rest, 0, q) == seq![x] + programs(rest, 0, q),
{
    let s = seq!['$', '('] + p + seq![')'] + rest;
    let n = p.len() as int;
    assert(s[0] == '$' && s[1] == '(' && s[n + 2] == ')');
    assert(s.subrange(2, n + 2) =~= p);
    lemma_closes_at(s, p, 2);
    assert(s.skip(n + 3) =~= rest);
    lemma_programs_shift(s, n + 3, q);
    let b = seq!['`'] + x + seq!['`'] + rest;
    let m = x.len() as int;
    lemma_plain_unescaped(b, 1, m + 1, '`', x);
    assert(b.subrange(1, m + 1) =~= x);
    lemma_plain_backquoted(x);
    assert(b.skip(m + 2) =~= rest);
    lemma_programs_shift(b, m + 2, q);
}

proof fn lemma_closes_at(s: Seq<char>, p: Seq<char>, k: int)
    requires
        2 <= k <= p.len() + 2 < s.len(),
        s.subrange(2, p.len() as int + 2) == p,
        s[p.len() as int + 2] == ')',
        parser::parsed(p) is Ok,
        parser::parsed(p.push(')')) is Err,
        forall|k: int|
            0 <= k < p.len() && #[trigger] p[k] == ')' ==> !(parser::parsed(p.take(k)) is Ok
                && parser::parsed(p.take(k + 1)) is Err),
    ensures
        closing(s, 2, k) == Some(p.len() as int + 2),
    decreases p.len() + 2 - k,
{
    let n = p.len() as int;
    if k < n + 2 {
        assert(p[k - 2] == s[k]) by {
            assert(s.subrange(2, n + 2)[k - 2] == s[k]);
        }
        assert(s.subrange(2, k) =~= p.take(k - 2));
        assert(s.subrange(2, k + 1) =~= p.take(k - 1));
        lemma_closes_at(s, p, k + 1);
    } else {
        assert(s.subrange(2, n + 3) =~= p.push(')'));
    }
}

proof fn lemma_plain_unescaped(s: Seq<char>, from: int, at: int, c: char, x: Seq<char>)
    requires
        1 <= from <= at < s.len(),
        at == x.len() + 1,
        s[at] == c,
        c != '\\',
        forall|k: int| 1 <= k < at ==> s[k] == x[k - 1],
        !x.contains(c) && !x.contains('\\'),
    ensures
        unescaped(s, from, c) == at,
    decreases at - from,
{
    if from < at {
        assert(x.contains(x[from - 1]));
        lemma_plain_unescaped(s, from + 1, at, c, x);
    }
}

proof fn lemma_plain_backquoted(x: Seq<char>)
    requires
        !x.contains('\\'),
    ensures
        between_backquotes(x) == x,
    decreases x.len(),
{
    if x.len() > 0 {
        let y = x.skip(1);
        assert(x.contains(x[0]));
        assert forall|k: int| 0 <= k < y.len() implies #[trigger] y[k] != '\\' by {
            assert(y[k] == x[k + 1]);
            assert(x.contains(x[k + 1]));
        }
        lemma_plain_backquoted(y);
        assert(between_backquotes(x) =~= x);
    } else {
        assert(between_backquotes(x) =~= x);
    }
}

/// Text in `$'...'` holds no program where it is not quoted itself; a backquote that
/// nothing closes stands for itself.
pub proof fn law_ansi_quotes_hold_no_program(x: Seq<char>, rest: Seq<char>, q: Quoting)
    requires
        !x.contains('\'') && !x.contains('\\') && !x.contains('`'),
    ensures
        programs(seq!['$', '\''] + x + seq!['\''] + rest, 0, Quoting::Bare) == programs(
            rest,
            0,
            Quoting::Bare,
        ),
        programs(seq!['`'] + x, 0, q) == programs(x, 0, q),
{
    let s = seq!['$', '\''] + x + seq!['\''] + rest;
    let n = x.len() as int;
    assert(s[0] == '$' && s[1] == '\'');
    let t = s.skip(1);
    assert forall|k: int| 1 <= k < n + 1 implies t[k] == x[k - 1] by {}
    lemma_plain_unescaped(t, 1, n + 1, '\'', x);
    lemma_unescaped_shift(s, 1, 1, '\'');
    assert(unescaped(s, 2, '\'') == n + 2);
    assert(s.skip(n + 3) =~= rest);
    lemma_programs_shift(s, n + 3, Quoting::Bare);
    let b = seq!['`'] + x;
    assert(b.skip(1) =~= x);
    lemma_none_unescaped(b, 1, '`', x);
    lemma_programs_shift(b, 1, q);
}

proof fn lemma_none_unescaped(s: Seq<char>, from: int, c: char, x: Seq<char>)
    requires
        1 <= from <= s.len(),
        s.len() == x.len() + 1,
        forall|k: int| 1 <= k < s.len() ==> s[k] == x[k - 1],
        !x.contains(c) && !x.contains('\\'),
    ensures
        unescaped(s, from, c) == s.len(),
    decreases s.len() - from,
{
    if from < s.len() {
        assert(x.contains(x[from - 1]));
        lemma_none_unescaped(s, from + 1, c, x);
    }
}

/// Between backquotes a backslash goes before `$`, a backquote and a backslash, and
/// stays before anything else.
pub proof fn law_what_backquotes_unescape(c: char, rest: Seq<char>)
    ensures
        c == '$' || c == '`' || c == '\\' ==> between_backquotes(seq!['\\', c] + rest) == seq![c]
            + between_backquotes(rest),
        c != '$' && c != '`' && c != '\\' ==> between_backquotes(seq!['\\', c] + rest) == seq![
            '\\',
            c,
        ] + between_backquotes(rest),
        c != '\\' ==> between_backquotes(seq![c] + rest) == seq![c] + between_backquotes(rest),
{
    let two = seq!['\\', c] + rest;
    assert(two.skip(2) =~= rest);
    assert(two.skip(1) =~= seq![c] + rest);
    assert((seq![c] + rest).skip(1) =~= rest);
    assert(two[0] == '\\' && two[1] == c);
    let one = seq![c] + rest;
    assert(one[0] == c);
    if c != '\\' {
        assert(between_backquotes(one) == seq![c] + between_backquotes(rest));
    }
    if c != '$' && c != '`' && c != '\\' {
        assert(between_backquotes(two) == seq!['\\'] + between_backquotes(one));
        assert(between_backquotes(two) =~= seq!['\\', c] + between_backquotes(rest));
    }
}

} // verus!
