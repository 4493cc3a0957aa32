//! What a shell expands of a word besides parameters and commands: patterns,
//! braces and the home directory. Only what is not quoted is expanded.

use vstd::prelude::*;

use crate::text;

verus! {

/// Which quotes a character of a word stands in.
#[derive(Clone, Copy, Debug, PartialEq, Eq, Structural)]
pub enum Quotes {
    /// None.
    Off,
    /// Single quotes.
    Single,
    /// Double quotes.
    Double,
}

/// The word `s` from `i` on, where the quotes are `q`, with a quote mark in place
/// of every character that is quoted, escaped or quotes others itself.
pub open spec fn masked(s: Seq<char>, i: int, q: Quotes) -> Seq<char>
    decreases s.len() + 1 - i,
{
    if !(0 <= i < s.len()) {
        seq![]
    } else if s[i] == '\\' && q != Quotes::Single {
        if i + 1 < s.len() {
            seq!['\'', '\''] + masked(s, i + 2, q)
        } else {
            seq!['\'']
        }
    } else if s[i] == '\'' && q != Quotes::Double {
        seq!['\''] + masked(
            s,
            i + 1,
            if q == Quotes::Off {
                Quotes::Single
            } else {
                Quotes::Off
            },
        )
    } else if s[i] == '"' && q != Quotes::Single {
        seq!['\''] + masked(
            s,
            i + 1,
            if q == Quotes::Off {
                Quotes::Double
            } else {
                Quotes::Off
            },
        )
    } else if q == Quotes::Off {
        seq![s[i]] + masked(s, i + 1, q)
    } else {
        seq!['\''] + masked(s, i + 1, q)
    }
}

/// The word `s` with a quote mark in place of every character that a shell takes
/// as it is.
pub open spec fn bare(s: Seq<char>) -> Seq<char> {
    masked(s, 0, Quotes::Off)
}

/// Whether a set of characters opens at `i`: there is a `]` after it, and
/// something between the two.
pub open spec fn set_at(b: Seq<char>, i: int) -> bool {
    b[i] == '[' && exists|j: int| i + 1 < j < b.len() && #[trigger] b[j] == ']'
}

/// Whether braces, of which `depth` are open inside them, are closed from `i` on
/// and hold alternatives, or have held some before: a `,` or a `..` that stands in
/// no braces inside them.
pub open spec fn alternatives(b: Seq<char>, i: int, depth: nat, held: bool) -> bool
    decreases b.len() - i,
{
    if !(0 <= i < b.len()) {
        false
    } else if b[i] == '{' {
        alternatives(b, i + 1, depth + 1, held)
    } else if b[i] == '}' {
        if depth == 0 {
            held
        } else {
            alternatives(b, i + 1, (depth - 1) as nat, held)
        }
    } else {
        alternatives(
            b,
            i + 1,
            depth,
            held || (depth == 0 && (b[i] == ',' || (b[i] == '.' && i + 1 < b.len() && b[i + 1]
                == '.'))),
        )
    }
}

/// Whether braces that a shell expands open at `i`.
pub open spec fn braces_at(b: Seq<char>, i: int) -> bool {
    b[i] == '{' && alternatives(b, i + 1, 0, false)
}

/// Whether a shell expands a word, quotes and all, to file names, to alternatives
/// or to a home directory: it has a `*`, a `?`, a set of characters or braces with
/// alternatives, or a `~` at its start, none of them quoted.
pub open spec fn expands(s: Seq<char>) -> bool {
    let b = bare(s);
    ||| b.contains('*')
    ||| b.contains('?')
    ||| exists|i: int| 0 <= i < b.len() && #[trigger] set_at(b, i)
    ||| exists|i: int| 0 <= i < b.len() && #[trigger] braces_at(b, i)
    ||| b.len() > 0 && b[0] == '~'
}

/// The word `s` with a quote mark in place of every character that a shell takes
/// as it is.
fn mask(s: &[char]) -> (r: Vec<char>)
    ensures
        r@ == bare(s@),
{
    let mut out: Vec<char> = Vec::new();
    let mut q = Quotes::Off;
    let mut i: usize = 0;
    assert(out@ + masked(s@, 0, q) =~= bare(s@));
    while i < s.len()
        invariant
            i <= s@.len(),
            out@ + masked(s@, i as int, q) == bare(s@),
        decreases s@.len() - i,
    {
        let ghost before = out@;
        let ghost at = i as int;
        let ghost was = q;
        if s[i] == '\\' && q != Quotes::Single {
            out.push('\'');
            i = i + 1;
            if i < s.len() {
                out.push('\'');
                i = i + 1;
            }
        } else if s[i] == '\'' && q != Quotes::Double {
            q = if q == Quotes::Off {
                Quotes::Single
            } else {
                Quotes::Off
            };
            out.push('\'');
            i = i + 1;
        } else if s[i] == '"' && q != Quotes::Single {
            q = if q == Quotes::Off {
                Quotes::Double
            } else {
                Quotes::Off
            };
            out.push('\'');
            i = i + 1;
        } else {
            out.push(
                if q == Quotes::Off {
                    s[i]
                } else {
                    '\''
                },
            );
            i = i + 1;
        }
        assert(out@ + masked(s@, i as int, q) =~= before + masked(s@, at, was));
    }
    assert(out@ + masked(s@, i as int, q) =~= out@);
    out
}

/// Whether braces that open before `from` are closed and hold alternatives.
fn hold_alternatives(b: &[char], from: usize) -> (r: bool)
    requires
        from <= b@.len(),
    ensures
        r == alternatives(b@, from as int, 0, false),
{
    let mut depth: usize = 0;
    let mut held: bool = false;
    let mut i: usize = from;
    while i < b.len()
        invariant
            from <= i <= b@.len(),
            depth <= i,
            alternatives(b@, from as int, 0, false) == alternatives(
                b@,
                i as int,
                depth as nat,
                held,
            ),
        decreases b@.len() - i,
    {
        if b[i] == '{' {
            depth = depth + 1;
        } else if b[i] == '}' {
            if depth == 0 {
                return held;
            }
            depth = depth - 1;
        } else if depth == 0 && (b[i] == ',' || (b[i] == '.' && b.len() - i > 1 && b[i + 1]
            == '.')) {
            held = true;
        }
        i = i + 1;
    }
    false
}

/// Whether a shell expands a word, quotes and all, to file names, to alternatives
/// or to a home directory.
pub fn is_expanded(s: &[char]) -> (r: bool)
    ensures
        r == expands(s@),
{
    let b = mask(s);
    if text::contains(&b, '*') || text::contains(&b, '?') || (b.len() > 0 && b[0] == '~') {
        return true;
    }
    let mut i: usize = 0;
    while i < b.len()
        invariant
            i <= b@.len(),
            b@ == bare(s@),
            !b@.contains('*') && !b@.contains('?') && !(b@.len() > 0 && b@[0] == '~'),
            forall|k: int| 0 <= k < i ==> !#[trigger] set_at(b@, k),
            forall|k: int| 0 <= k < i ==> !#[trigger] braces_at(b@, k),
        decreases b@.len() - i,
    {
        if b[i] == '[' && b.len() - i > 2 {
            let rest = vstd::slice::slice_subrange(&b, i + 2, b.len());
            assert forall|j: int| i + 1 < j < b@.len() implies b@[j] == rest@[j - i - 2] by {}
            if text::contains(rest, ']') {
                proof {
                    let j = choose|j: int| 0 <= j < rest@.len() && rest@[j] == ']';
                    assert(b@[i + 2 + j] == ']');
                    assert(set_at(b@, i as int));
                }
                return true;
            }
            assert(!set_at(b@, i as int)) by {
                if set_at(b@, i as int) {
                    let j = choose|j: int| i + 1 < j < b@.len() && #[trigger] b@[j] == ']';
                    assert(rest@[j - i - 2] == ']');
                }
            }
        }
        if b[i] == '{' && hold_alternatives(&b, i + 1) {
            assert(braces_at(b@, i as int));
            return true;
        }
        i = i + 1;
    }
    false
}

// ---------------------------------------------------------------------------
// Laws

proof fn lemma_masked_single(s: Seq<char>, i: int)
    requires
        1 <= i < s.len(),
        forall|k: int| 1 <= k < s.len() - 1 ==> #[trigger] s[k] != '\'',
        s.last() == '\'',
    ensures
        forall|k: int|
            0 <= k < masked(s, i, Quotes::Single).len() ==> #[trigger] masked(s, i, Quotes::Single)[k]
                == '\'',
    decreases s.len() - i,
{
    reveal_with_fuel(masked, 2);
    if i + 1 < s.len() {
        assert(s[i] != '\'');
        lemma_masked_single(s, i + 1);
        assert(masked(s, i, Quotes::Single) == seq!['\''] + masked(s, i + 1, Quotes::Single));
    } else {
        assert(masked(s, i, Quotes::Single) == seq!['\''] + masked(s, i + 1, Quotes::Off));
    }
}

/// Nothing of a word in single quotes is expanded.
pub proof fn law_single_quotes_keep_a_word(t: Seq<char>)
    requires
        !t.contains('\''),
    ensures
        !expands(seq!['\''] + t + seq!['\'']),
{
    let s = seq!['\''] + t + seq!['\''];
    assert forall|k: int| 1 <= k < s.len() - 1 implies #[trigger] s[k] != '\'' by {
        assert(s[k] == t[k - 1]);
    }
    lemma_masked_single(s, 1);
    let b = bare(s);
    assert(b == seq!['\''] + masked(s, 1, Quotes::Single));
    assert forall|k: int| 0 <= k < b.len() implies #[trigger] b[k] == '\'' by {}
}

proof fn lemma_masked_shift(s: Seq<char>, i: int, q: Quotes)
    requires
        0 <= i <= s.len(),
    ensures
        masked(s, i, q) == masked(s.skip(i), 0, q),
    decreases s.len() - i,
{
    let t = s.skip(i);
    if i < s.len() {
        assert(t[0] == s[i]);
        let next = if s[i] == '\\' && q != Quotes::Single && i + 1 < s.len() {
            2int
        } else {
            1int
        };
        let after = if s[i] == '\'' && q != Quotes::Double {
            if q == Quotes::Off {
                Quotes::Single
            } else {
                Quotes::Off
            }
        } else if s[i] == '"' && q != Quotes::Single {
            if q == Quotes::Off {
                Quotes::Double
            } else {
                Quotes::Off
            }
        } else {
            q
        };
        lemma_masked_shift(s, i + next, after);
        lemma_masked_shift(t, next, after);
        assert(t.skip(next) =~= s.skip(i + next));
    }
}

/// What a shell may expand of a word goes by its parts: a character that quotes
/// nothing stands for itself, a backslash hides the character after it, and quotes
/// hide what stands between them.
pub proof fn law_what_quoting_hides(c: char, x: Seq<char>, rest: Seq<char>)
    requires
        !x.contains('\'') && !x.contains('"') && !x.contains('\\'),
    ensures
        bare(seq![]).len() == 0,
        c != '\'' && c != '"' && c != '\\' ==> bare(seq![c] + rest) == seq![c] + bare(rest),
        bare(seq!['\\', c] + rest) == seq!['\'', '\''] + bare(rest),
        bare(seq!['\''] + x + seq!['\''] + rest) == Seq::new(x.len() + 2, |i: int| '\'') + bare(
            rest,
        ),
        bare(seq!['"'] + x + seq!['"'] + rest) == Seq::new(x.len() + 2, |i: int| '\'') + bare(
            rest,
        ),
{
    let one = seq![c] + rest;
    assert(one.skip(1) =~= rest);
    lemma_masked_shift(one, 1, Quotes::Off);
    let two = seq!['\\', c] + rest;
    assert(two.skip(2) =~= rest);
    lemma_masked_shift(two, 2, Quotes::Off);
    lemma_masked_run(x, rest, '\'', Quotes::Single);
    lemma_masked_run(x, rest, '"', Quotes::Double);
    let single = seq!['\''] + x + seq!['\''] + rest;
    let double = seq!['"'] + x + seq!['"'] + rest;
    assert(single.skip(1) =~= x + seq!['\''] + rest);
    assert(double.skip(1) =~= x + seq!['"'] + rest);
    lemma_masked_shift(single, 1, Quotes::Single);
    lemma_masked_shift(double, 1, Quotes::Double);
    assert(bare(single) =~= Seq::new(x.len() + 2, |i: int| '\'') + bare(rest));
    assert(bare(double) =~= Seq::new(x.len() + 2, |i: int| '\'') + bare(rest));
}

proof fn lemma_masked_run(x: Seq<char>, rest: Seq<char>, mark: char, q: Quotes)
    requires
        !x.contains('\'') && !x.contains('"') && !x.contains('\\'),
        (q == Quotes::Single && mark == '\'') || (q == Quotes::Double && mark == '"'),
    ensures
        masked(x + seq![mark] + rest, 0, q) == Seq::new(x.len() + 1, |i: int| '\'') + bare(rest),
    decreases x.len(),
{
    let s = x + seq![mark] + rest;
    if x.len() == 0 {
        assert(s[0] == mark);
        assert(s.skip(1) =~= rest);
        lemma_masked_shift(s, 1, Quotes::Off);
        assert(masked(s, 0, q) =~= Seq::new(x.len() + 1, |i: int| '\'') + bare(rest));
    } else {
        let y = x.skip(1);
        assert(x.contains(x[0]));
        assert forall|k: int| 0 <= k < y.len() implies y[k] != '\'' && y[k] != '"' && #[trigger] y[k]
            != '\\' by {
            assert(y[k] == x[k + 1]);
            assert(x.contains(x[k + 1]));
        }
        assert(s[0] == x[0]);
        assert(s.skip(1) =~= y + seq![mark] + rest);
        lemma_masked_run(y, rest, mark, q);
        lemma_masked_shift(s, 1, q);
        assert(masked(s, 0, q) =~= Seq::new(x.len() + 1, |i: int| '\'') + bare(rest));
    }
}

/// Of a word without quotes and backslashes a shell expands a `*`, a `?`, a set of
/// characters, a `~` at the start, and braces with alternatives, and nothing else
/// besides `$` and backquotes.
pub proof fn law_what_is_expanded(s: Seq<char>, a: Seq<char>, x: Seq<char>, y: Seq<char>, z: Seq<char>)
    requires
        !s.contains('\'') && !s.contains('"') && !s.contains('\\'),
        !x.contains('{') && !x.contains('}'),
        !y.contains('{') && !y.contains('}'),
    ensures
        bare(s) == s,
        s.contains('*') || s.contains('?') ==> expands(s),
        s.len() > 0 && s[0] == '~' ==> expands(s),
        forall|i: int, j: int|
            0 <= i && i + 1 < j < s.len() && #[trigger] s[i] == '[' && #[trigger] s[j] == ']'
                ==> expands(s),
        s == a + seq!['{'] + x + seq![','] + y + seq!['}'] + z ==> expands(s),
        s == a + seq!['{'] + x + seq!['.', '.'] + y + seq!['}'] + z ==> expands(s),
        !s.contains('*') && !s.contains('?') && !s.contains('[') && !s.contains('{') && !(s.len()
            > 0 && s[0] == '~') ==> !expands(s),
        !s.contains('*') && !s.contains('?') && !s.contains(']') && !s.contains('}') && !(s.len()
            > 0 && s[0] == '~') ==> !expands(s),
        !s.contains('*') && !s.contains('?') && !s.contains('[') && !s.contains(',') && !s.contains(
            '.',
        ) && !(s.len() > 0 && s[0] == '~') ==> !expands(s),
{
    lemma_plain_bare(s);
    assert forall|i: int, j: int|
        0 <= i && i + 1 < j < s.len() && #[trigger] s[i] == '[' && #[trigger] s[j] == ']' implies
        expands(s) by {
        assert(set_at(s, i));
    }
    let n = a.len() as int;
    if s == a + seq!['{'] + x + seq![','] + y + seq!['}'] + z {
        let at = n + 1 + x.len();
        assert(s[n] == '{' && s[at] == ',' && s[at + 1 + y.len()] == '}');
        assert forall|k: int| n < k < at implies s[k] != '{' && s[k] != '}' by {
            assert(s[k] == x[k - n - 1]);
            assert(x.contains(x[k - n - 1]));
        }
        assert forall|k: int| at < k < at + 1 + y.len() implies s[k] != '{' && s[k] != '}' by {
            assert(s[k] == y[k - at - 1]);
            assert(y.contains(y[k - at - 1]));
        }
        lemma_alternatives(s, n + 1, at, at + 1 + y.len(), false);
        assert(braces_at(s, n));
    }
    if s == a + seq!['{'] + x + seq!['.', '.'] + y + seq!['}'] + z {
        let at = n + 1 + x.len();
        assert(s[n] == '{' && s[at] == '.' && s[at + 1] == '.' && s[at + 2 + y.len()] == '}');
        assert forall|k: int| n < k < at implies s[k] != '{' && s[k] != '}' by {
            assert(s[k] == x[k - n - 1]);
            assert(x.contains(x[k - n - 1]));
        }
        assert forall|k: int| at < k < at + 2 + y.len() implies s[k] != '{' && s[k] != '}' by {
            if k > at + 1 {
                assert(s[k] == y[k - at - 2]);
                assert(y.contains(y[k - at - 2]));
            }
        }
        lemma_alternatives(s, n + 1, at, at + 2 + y.len(), false);
        assert(braces_at(s, n));
    }
    assert forall|i: int| 0 <= i < s.len() && #[trigger] set_at(s, i) implies s.contains('[')
        && s.contains(']') by {
        assert(s.contains(s[i]));
        let j = choose|j: int| i + 1 < j < s.len() && #[trigger] s[j] == ']';
        assert(s.contains(s[j]));
    }
    assert forall|i: int| 0 <= i < s.len() && #[trigger] braces_at(s, i) implies s.contains('{')
        && s.contains('}') && (s.contains(',') || s.contains('.')) by {
        assert(s.contains(s[i]));
        lemma_alternatives_need(s, i + 1, 0, false);
    }
}

proof fn lemma_plain_bare(s: Seq<char>)
    requires
        !s.contains('\'') && !s.contains('"') && !s.contains('\\'),
    ensures
        bare(s) == s,
    decreases s.len(),
{
    if s.len() > 0 {
        let t = s.skip(1);
        assert(s.contains(s[0]));
        assert forall|k: int| 0 <= k < t.len() implies t[k] != '\'' && t[k] != '"' && #[trigger] t[k]
            != '\\' by {
            assert(t[k] == s[k + 1]);
            assert(s.contains(s[k + 1]));
        }
        lemma_plain_bare(t);
        lemma_masked_shift(s, 1, Quotes::Off);
        assert(bare(s) =~= s);
    } else {
        assert(bare(s) =~= s);
    }
}

proof fn lemma_alternatives(b: Seq<char>, i: int, at: int, end: int, held: bool)
    requires
        0 <= i <= end < b.len(),
        b[end] == '}',
        forall|k: int| i <= k < end ==> b[k] != '{' && b[k] != '}',
        held || (i <= at < end && (b[at] == ',' || (b[at] == '.' && b[at + 1] == '.'))),
    ensures
        alternatives(b, i, 0, held),
    decreases end - i,
{
    if i < end {
        let now = held || b[i] == ',' || (b[i] == '.' && i + 1 < b.len() && b[i + 1] == '.');
        lemma_alternatives(b, i + 1, at, end, now);
    }
}

proof fn lemma_alternatives_need(b: Seq<char>, i: int, depth: nat, held: bool)
    requires
        0 <= i <= b.len(),
        alternatives(b, i, depth, held),
    ensures
        b.contains('}'),
        held || b.contains(',') || b.contains('.'),
    decreases b.len() - i,
{
    if i < b.len() {
        assert(b.contains(b[i]));
        if b[i] == '{' {
            lemma_alternatives_need(b, i + 1, depth + 1, held);
        } else if b[i] == '}' {
            if depth > 0 {
                lemma_alternatives_need(b, i + 1, (depth - 1) as nat, held);
            }
        } else {
            lemma_alternatives_need(
                b,
                i + 1,
                depth,
                held || (depth == 0 && (b[i] == ',' || (b[i] == '.' && i + 1 < b.len() && b[i + 1]
                    == '.'))),
            );
        }
    }
}

} // verus!
