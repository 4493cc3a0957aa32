//! Inline `# /// scriptbox ... # ///` metadata, PEP-723 style.
//!
//! The block lets a script carry its interpreter, an expected checksum and the
//! switches without the shebang line having to spell them out. Every line of it
//! is a `#` comment, so the script still runs under a plain interpreter.
//!
//! ```text
//! #!/usr/bin/env scriptbox
//! # /// scriptbox
//! # interpreter = "bash"
//! # checksum = "sha256:..."
//! # ///
//! ```

use crate::text;
use crate::text::CharClass;
use vstd::prelude::*;
use vstd::slice::slice_subrange;
use vstd::utf8::*;

verus! {

/// The fields that a block can set. Unknown keys are ignored, so the format can
/// grow without breaking older readers.
#[derive(Debug, PartialEq, Eq)]
pub struct Frontmatter {
    /// The interpreter to run the script with.
    pub interpreter: Option<String>,
    /// The checksum that the script must have.
    pub checksum: Option<String>,
    /// The raw value of the `argv0` switch.
    pub argv0: Option<String>,
    /// The raw value of the `subscripts` switch.
    pub subscripts: Option<String>,
}

/// A comment's text: what follows the `#` that the line starts with, trimmed.
/// `None` for a line that is no comment.
pub open spec fn comment_body(line: Seq<char>) -> Option<Seq<char>> {
    let t = text::trim_start(line, CharClass::White);
    if t.len() > 0 && t[0] == '#' {
        Some(text::trim(t.skip(1)))
    } else {
        None
    }
}

/// A comment's text: what follows the `#` that the line starts with, trimmed.
/// `None` for a line that is no comment.
pub fn comment_text(line: &[char]) -> (r: Option<&[char]>)
    ensures
        match r {
            Some(b) => comment_body(line@) == Some(b@),
            None => comment_body(line@) is None,
        },
{
    let t = text::strip_start(line, CharClass::White);
    if t.len() > 0 && t[0] == '#' {
        let after = slice_subrange(t, 1, t.len());
        assert(after@ =~= t@.skip(1));
        Some(text::strip(after))
    } else {
        None
    }
}

/// The text of the line that opens a block.
pub open spec fn opening() -> Seq<char> {
    "/// scriptbox"@
}

/// The text of the line that closes a block.
pub open spec fn closing() -> Seq<char> {
    "///"@
}

/// How much of `s` stands before its first line that is the comment `marker`:
/// all of it where there is no such line.
pub open spec fn before(s: Seq<char>, marker: Seq<char>) -> int
    decreases s.len(),
{
    if s.len() == 0 {
        0
    } else {
        proof {
            text::lemma_first_line(s);
        }
        let n = text::first_line_len(s);
        if comment_body(s.take(n)) == Some(marker) {
            0
        } else {
            n + before(s.skip(n), marker)
        }
    }
}

/// A script cut up at its first block.
pub struct Parts {
    /// What precedes the block.
    pub head: Seq<char>,
    /// The lines between the markers; up to the end of the script where the
    /// block is never closed.
    pub body: Seq<char>,
    /// What follows the block.
    pub tail: Seq<char>,
    /// Whether there is a line that closes the block.
    pub closed: bool,
}

/// `s` without its first line.
pub open spec fn after_line(s: Seq<char>) -> Seq<char> {
    if s.len() == 0 {
        s
    } else {
        s.skip(text::first_line_len(s))
    }
}

/// The script `s` cut up at its first block; `None` where it has none.
pub open spec fn split_block(s: Seq<char>) -> Option<Parts> {
    let open = before(s, opening());
    if open >= s.len() {
        None
    } else {
        let inner = after_line(s.skip(open));
        let close = before(inner, closing());
        Some(
            Parts {
                head: s.take(open),
                body: inner.take(close),
                tail: after_line(inner.skip(close)),
                closed: close < inner.len(),
            },
        )
    }
}

/// Whether what follows the closing quote of a setting leaves the value as it is:
/// it is nothing, or a comment after white space.
pub open spec fn ends_value(rest: Seq<char>) -> bool {
    rest.len() == 0 || {
        let t = text::trim_start(rest, CharClass::White);
        text::is_white(rest[0]) && t.len() > 0 && t[0] == '#'
    }
}

/// What a setting says: a value in quotes is what stands between them, and a
/// comment after them is no part of it. Otherwise quotes at either end go.
pub open spec fn unquoted_value(v: Seq<char>) -> Seq<char> {
    if v.len() > 0 && CharClass::Quote.holds(v[0]) && text::find(v.skip(1), v[0]) < v.len() - 1
        && ends_value(v.skip(text::find(v.skip(1), v[0]) + 2)) {
        v.skip(1).take(text::find(v.skip(1), v[0]))
    } else {
        text::trim_both(v, CharClass::Quote)
    }
}

/// The `key = value` that a line of a block holds, the value without the quotes
/// around it.
pub open spec fn entry(line: Seq<char>) -> Option<(Seq<char>, Seq<char>)> {
    match comment_body(line) {
        Some(b) => {
            let n = text::find(b, '=');
            if n < b.len() {
                Some(
                    (
                        text::trim(b.take(n)),
                        unquoted_value(text::trim(b.skip(n + 1))),
                    ),
                )
            } else {
                None
            }
        },
        None => None,
    }
}

/// The value that the last line to set `key` gives it.
pub open spec fn field(lines: Seq<Seq<char>>, key: Seq<char>) -> Option<Seq<char>>
    decreases lines.len(),
{
    if lines.len() == 0 {
        None
    } else {
        match entry(lines.last()) {
            Some((k, v)) if k == key => Some(v),
            _ => field(lines.drop_last(), key),
        }
    }
}

/// The value that the first block of the script `s` gives `key`.
pub open spec fn setting(s: Seq<char>, key: Seq<char>) -> Option<Seq<char>> {
    match split_block(s) {
        Some(p) => field(text::lines(p.body), key),
        None => None,
    }
}

/// The view of an optional string.
pub open spec fn opt(s: Option<String>) -> Option<Seq<char>> {
    match s {
        Some(s) => Some(s@),
        None => None,
    }
}

/// What the fields of a block say.
pub struct Settings {
    /// The interpreter.
    pub interpreter: Option<Seq<char>>,
    /// The expected checksum.
    pub checksum: Option<Seq<char>>,
    /// The mode for `$0`.
    pub argv0: Option<Seq<char>>,
    /// The mode for subscripts.
    pub subscripts: Option<Seq<char>>,
}

/// What the first block of the script `s` sets.
pub open spec fn settings(s: Seq<char>) -> Settings {
    Settings {
        interpreter: setting(s, "interpreter"@),
        checksum: setting(s, "checksum"@),
        argv0: setting(s, "argv0"@),
        subscripts: setting(s, "subscripts"@),
    }
}

impl View for Frontmatter {
    type V = Settings;

    open spec fn view(&self) -> Settings {
        Settings {
            interpreter: opt(self.interpreter),
            checksum: opt(self.checksum),
            argv0: opt(self.argv0),
            subscripts: opt(self.subscripts),
        }
    }
}

impl Frontmatter {
    /// Whether the fields are what the lines of a block set.
    pub open spec fn holds(self, lines: Seq<Seq<char>>) -> bool {
        &&& opt(self.interpreter) == field(lines, "interpreter"@)
        &&& opt(self.checksum) == field(lines, "checksum"@)
        &&& opt(self.argv0) == field(lines, "argv0"@)
        &&& opt(self.subscripts) == field(lines, "subscripts"@)
    }
}

impl Default for Frontmatter {
    fn default() -> (r: Frontmatter)
        ensures
            r.interpreter is None && r.checksum is None && r.argv0 is None && r.subscripts is None,
    {
        Frontmatter { interpreter: None, checksum: None, argv0: None, subscripts: None }
    }
}

/// How `before` divides a text.
pub proof fn lemma_before(s: Seq<char>, marker: Seq<char>)
    ensures
        0 <= before(s, marker) <= s.len(),
        before(s, marker) < s.len() ==> comment_body(
            s.skip(before(s, marker)).take(text::first_line_len(s.skip(before(s, marker)))),
        ) == Some(marker),
    decreases s.len(),
{
    if s.len() > 0 {
        text::lemma_first_line(s);
        let n = text::first_line_len(s);
        if comment_body(s.take(n)) == Some(marker) {
            assert(s.skip(0) =~= s);
        } else {
            lemma_before(s.skip(n), marker);
            let m = before(s.skip(n), marker);
            assert(s.skip(n).skip(m) =~= s.skip(n + m));
        }
    }
}

/// Where the first line of `s` from `from` on that is the comment `marker`
/// starts and ends; both are the end of `s` where there is no such line.
fn seek(s: &[char], from: usize, marker: &str) -> (r: (usize, usize))
    requires
        from <= s@.len(),
    ensures
        r.0 == from + before(s@.skip(from as int), marker@),
        r.0 <= r.1 <= s@.len(),
        r.0 < r.1 <==> r.0 < s@.len(),
        s@.skip(r.1 as int) == after_line(s@.skip(r.0 as int)),
{
    let ghost whole = s@.skip(from as int);
    let mut pos: usize = from;
    while pos < s.len()
        invariant
            from <= pos <= s@.len(),
            whole == s@.skip(from as int),
            before(whole, marker@) == pos - from + before(s@.skip(pos as int), marker@),
        decreases s@.len() - pos,
    {
        let end = text::line_end(s, pos);
        let ghost rest = s@.skip(pos as int);
        let line = slice_subrange(s, pos, end);
        assert(line@ =~= rest.take(text::first_line_len(rest)));
        assert(s@.skip(end as int) =~= rest.skip(text::first_line_len(rest)));
        if let Some(b) = comment_text(line) {
            if text::reads(b, marker) {
                return (pos, end);
            }
        }
        pos = end;
    }
    assert(s@.skip(pos as int) =~= seq![]);
    (pos, pos)
}

/// The positions at which a script is cut up: where the head ends, where the
/// body starts, where it ends, and where the tail starts.
pub struct Cuts {
    /// Where the head ends.
    pub head: usize,
    /// Where the body starts.
    pub body: usize,
    /// Where the body ends.
    pub body_end: usize,
    /// Where the tail starts.
    pub tail: usize,
    /// Whether there is a line that closes the block.
    pub closed: bool,
}

/// Where to cut the script `s` up at its first block; `None` where it has none.
pub fn find_block(s: &[char]) -> (r: Option<Cuts>)
    ensures
        match r {
            Some(c) => {
                &&& c.head <= c.body <= c.body_end <= c.tail <= s@.len()
                &&& split_block(s@) == Some(
                    Parts {
                        head: s@.take(c.head as int),
                        body: s@.subrange(c.body as int, c.body_end as int),
                        tail: s@.skip(c.tail as int),
                        closed: c.closed,
                    },
                )
            },
            None => split_block(s@) is None,
        },
{
    let open = seek(s, 0, "/// scriptbox");
    assert(s@.skip(0) =~= s@);
    if open.0 == s.len() {
        return None;
    }
    let close = seek(s, open.1, "///");
    proof {
        let inner = s@.skip(open.1 as int);
        lemma_before(inner, closing());
        let n = before(inner, closing());
        assert(inner.take(n) =~= s@.subrange(open.1 as int, close.0 as int));
        assert(inner.skip(n) =~= s@.skip(close.0 as int));
    }
    Some(
        Cuts {
            head: open.0,
            body: open.1,
            body_end: close.0,
            tail: close.1,
            closed: close.0 < s.len(),
        },
    )
}

/// What a setting says, without the quotes around it.
fn unquote_value(v: &[char]) -> (r: &[char])
    ensures
        r@ == unquoted_value(v@),
{
    if v.len() > 0 && CharClass::Quote.has(v[0]) {
        let rest = slice_subrange(v, 1, v.len());
        assert(rest@ =~= v@.skip(1));
        let n = text::position(rest, v[0]);
        if n < rest.len() {
            let after = slice_subrange(rest, n + 1, rest.len());
            assert(after@ =~= v@.skip(n + 2));
            if after.len() > 0 {
                let comment = text::strip_start(after, CharClass::White);
                if !(text::is_white_space(after[0]) && comment.len() > 0 && comment[0] == '#') {
                    return text::strip_both(v, CharClass::Quote);
                }
            }
            let value = slice_subrange(rest, 0, n);
            assert(value@ =~= v@.skip(1).take(n as int));
            return value;
        }
    }
    text::strip_both(v, CharClass::Quote)
}

/// The key and the value of a line of a block.
fn entry_of(line: &[char]) -> (r: Option<(&[char], &[char])>)
    ensures
        match r {
            Some((k, v)) => entry(line@) == Some((k@, v@)),
            None => entry(line@) is None,
        },
{
    match comment_text(line) {
        Some(b) => {
            let n = text::position(b, '=');
            if n < b.len() {
                let left = slice_subrange(b, 0, n);
                let right = slice_subrange(b, n + 1, b.len());
                assert(left@ =~= b@.take(n as int));
                assert(right@ =~= b@.skip(n + 1));
                Some((text::strip(left), unquote_value(text::strip(right))))
            } else {
                None
            }
        },
        None => None,
    }
}

/// The fields that the lines of `body` set.
fn read_fields(body: &[char]) -> (r: Frontmatter)
    ensures
        r.holds(text::lines(body@)),
{
    let mut fm = Frontmatter::default();
    let mut pos: usize = 0;
    let ghost mut done: Seq<Seq<char>> = seq![];
    assert(body@.skip(0) =~= body@);
    assert(done + text::lines(body@) =~= text::lines(body@));
    while pos < body.len()
        invariant
            pos <= body@.len(),
            text::lines(body@) == done + text::lines(body@.skip(pos as int)),
            fm.holds(done),
        decreases body@.len() - pos,
    {
        let end = text::line_end(body, pos);
        let ghost rest = body@.skip(pos as int);
        let line = slice_subrange(body, pos, end);
        proof {
            text::lemma_first_line(rest);
            assert(line@ =~= rest.take(text::first_line_len(rest)));
            assert(body@.skip(end as int) =~= rest.skip(text::first_line_len(rest)));
            assert(done.push(line@).drop_last() =~= done);
            assert(done.push(line@) + text::lines(body@.skip(end as int)) =~= done + text::lines(
                rest,
            ));
            reveal_strlit("interpreter");
            reveal_strlit("checksum");
            reveal_strlit("argv0");
            reveal_strlit("subscripts");
        }
        if let Some((key, val)) = entry_of(line) {
            if text::reads(key, "interpreter") {
                fm.interpreter = Some(text::string_of(val));
            } else if text::reads(key, "checksum") {
                fm.checksum = Some(text::string_of(val));
            } else if text::reads(key, "argv0") {
                fm.argv0 = Some(text::string_of(val));
            } else if text::reads(key, "subscripts") {
                fm.subscripts = Some(text::string_of(val));
            }
        }
        proof {
            assert("interpreter"@.len() == 11);
            assert("checksum"@.len() == 8);
            assert("argv0"@.len() == 5);
            assert("subscripts"@.len() == 10);
            let next = done.push(line@);
            assert(next.last() == line@);
            assert(opt(fm.interpreter) == field(next, "interpreter"@));
            assert(opt(fm.checksum) == field(next, "checksum"@));
            assert(opt(fm.argv0) == field(next, "argv0"@));
            assert(opt(fm.subscripts) == field(next, "subscripts"@));
            done = next;
        }
        pos = end;
    }
    assert(body@.skip(pos as int) =~= seq![]);
    assert(done + text::lines(seq![]) =~= done);
    fm
}

/// The fields that the first block of the script `s` sets; none where it has no
/// block.
pub fn parse_text(s: &[char]) -> (r: Frontmatter)
    ensures
        r@ == settings(s@),
{
    match find_block(s) {
        Some(c) => read_fields(slice_subrange(s, c.body, c.body_end)),
        None => Frontmatter::default(),
    }
}

/// The fields that the first `# /// scriptbox` block in `bytes` sets; none where
/// there is no block. Bytes that are not UTF-8 are read as replacement
/// characters.
pub fn parse(bytes: &[u8]) -> (r: Frontmatter)
    ensures
        r@ == settings(text::utf8_lossy(bytes@)),
        valid_utf8(bytes@) ==> text::utf8_lossy(bytes@) == decode_utf8(bytes@),
{
    let s = text::from_utf8_lossy(bytes);
    let chars = text::chars_of(s.as_str());
    parse_text(&chars)
}

// ---------------------------------------------------------------------------
// Laws

/// One whole line, with the line feed that ends it.
pub open spec fn is_line(s: Seq<char>) -> bool {
    s.len() > 0 && text::find(s, '\n') == s.len() - 1
}

/// One line before `rest`: whole, or the last one of all, which may lack its line
/// feed.
pub open spec fn line_before(line: Seq<char>, rest: Seq<char>) -> bool {
    is_line(line) || (rest.len() == 0 && text::find(line, '\n') == line.len())
}

/// After whole lines none of which is the marker, the search goes on in the
/// rest.
pub proof fn lemma_before_concat(a: Seq<char>, b: Seq<char>, marker: Seq<char>)
    requires
        text::whole_lines(a),
        before(a, marker) == a.len(),
    ensures
        before(a + b, marker) == a.len() + before(b, marker),
    decreases a.len(),
{
    if a.len() == 0 {
        assert(a + b =~= b);
    } else {
        text::lemma_find(a, '\n');
        text::lemma_first_line(a);
        let n = text::find(a, '\n');
        if n >= a.len() {
            assert(a[a.len() - 1] != '\n');
        }
        text::lemma_find_unique(a + b, '\n', n);
        assert((a + b).take(n + 1) =~= a.take(n + 1));
        assert((a + b).skip(n + 1) =~= a.skip(n + 1) + b);
        lemma_before(a.skip(n + 1), marker);
        lemma_before_concat(a.skip(n + 1), b, marker);
    }
}

/// Before a line that is the marker, there is nothing; after it comes the rest.
pub proof fn lemma_before_line(line: Seq<char>, rest: Seq<char>, marker: Seq<char>)
    requires
        line_before(line, rest),
        comment_body(line) == Some(marker),
    ensures
        before(line + rest, marker) == 0,
        after_line(line + rest) == rest,
{
    let s = line + rest;
    text::lemma_find(line, '\n');
    if is_line(line) {
        text::lemma_find_unique(s, '\n', line.len() - 1);
    } else {
        assert(s =~= line);
    }
    assert(s.take(line.len() as int) =~= line);
    assert(s.skip(line.len() as int) =~= rest);
}

/// What is searched for is the first line that is the marker: no line before it
/// is, and it starts a line.
pub proof fn lemma_before_lines(s: Seq<char>, marker: Seq<char>)
    ensures
        0 <= before(s, marker) <= s.len(),
        text::whole_lines(s.take(before(s, marker))) || before(s, marker) == s.len(),
        text::lines(s.take(before(s, marker))) + text::lines(s.skip(before(s, marker)))
            == text::lines(s),
        forall|i: int|
            0 <= i < text::lines(s.take(before(s, marker))).len() ==> comment_body(
                #[trigger] text::lines(s.take(before(s, marker)))[i],
            ) != Some(marker),
        before(s, marker) < s.len() ==> text::lines(s.skip(before(s, marker))).len() > 0
            && comment_body(text::lines(s.skip(before(s, marker)))[0]) == Some(marker),
        before(s, marker) == s.len() <==> forall|i: int|
            0 <= i < text::lines(s).len() ==> comment_body(#[trigger] text::lines(s)[i]) != Some(
                marker,
            ),
        before(s.take(before(s, marker)), marker) == before(s, marker),
    decreases s.len(),
{
    let b = before(s, marker);
    if s.len() == 0 {
        assert(s.take(0) =~= s && s.skip(0) =~= s);
    } else {
        text::lemma_first_line(s);
        let n = text::first_line_len(s);
        let line = s.take(n);
        let rest = s.skip(n);
        text::lemma_find(s, '\n');
        if comment_body(line) == Some(marker) {
            assert(s.take(0) =~= seq![]);
            assert(s.skip(0) =~= s);
            assert(text::lines(s)[0] == line);
            assert(text::lines(s.take(0)) + text::lines(s) =~= text::lines(s));
        } else {
            lemma_before_lines(rest, marker);
            let m = before(rest, marker);
            let head = s.take(b);
            assert(s.skip(b) =~= rest.skip(m));
            assert(head =~= line + rest.take(m));
            if n < s.len() {
                assert(text::whole_lines(line));
                text::lemma_lines_concat(line, rest.take(m));
                text::lemma_find_unique(line, '\n', n - 1);
                assert(line.take(n) =~= line && line.skip(n) =~= seq![]);
                assert(text::lines(line.skip(n)) =~= seq![]);
                assert(text::lines(line) =~= seq![line]);
                assert(text::whole_lines(head) || b == s.len()) by {
                    if m > 0 && m < rest.len() {
                        assert(head.last() == rest.take(m).last());
                    } else if m == 0 {
                        assert(head =~= line);
                    }
                }
            } else {
                assert(rest =~= seq![]);
                assert(head =~= s);
                assert(text::lines(s.skip(b)) =~= seq![]);
            }
            assert(text::lines(head) =~= seq![line] + text::lines(rest.take(m)));
            assert(text::lines(head) + text::lines(s.skip(b)) =~= text::lines(s));
            assert forall|i: int| 0 <= i < text::lines(head).len() implies comment_body(
                #[trigger] text::lines(head)[i],
            ) != Some(marker) by {
                if i > 0 {
                    assert(text::lines(head)[i] == text::lines(rest.take(m))[i - 1]);
                }
            }
            assert(before(head, marker) == b) by {
                text::lemma_find(head, '\n');
                if n < s.len() {
                    text::lemma_find_unique(head, '\n', n - 1);
                } else {
                    assert(head =~= s);
                }
                assert(head.take(n) =~= line);
                assert(head.skip(n) =~= rest.take(m));
            }
            if b == s.len() {
                assert(head =~= s);
            } else {
                let k = text::lines(head).len() as int;
                assert(text::lines(s)[k] == text::lines(s.skip(b))[0]);
            }
        }
    }
}

/// What follows the line of the marker has the lines that follow it.
pub proof fn lemma_lines_after(s: Seq<char>, marker: Seq<char>)
    requires
        before(s, marker) < s.len(),
    ensures
        exists|n: int|
            0 <= n < text::lines(s).len() && comment_body(#[trigger] text::lines(s)[n]) == Some(
                marker,
            ) && (forall|i: int|
                0 <= i < n ==> comment_body(#[trigger] text::lines(s)[i]) != Some(marker))
                && text::lines(after_line(s.skip(before(s, marker)))) == text::lines(s).skip(n + 1),
{
    lemma_before_lines(s, marker);
    let b = before(s, marker);
    let rest = s.skip(b);
    let n = text::lines(s.take(b)).len() as int;
    text::lemma_first_line(rest);
    assert(text::lines(s)[n] == text::lines(rest)[0]);
    assert forall|i: int| 0 <= i < n implies comment_body(#[trigger] text::lines(s)[i]) != Some(
        marker,
    ) by {
        assert(text::lines(s)[i] == text::lines(s.take(b))[i]);
    }
    assert(text::lines(after_line(rest)) =~= text::lines(s).skip(n + 1));
}

/// A script with a block is made up of what `split_block` says and of the two
/// lines that open and close the block; where the second one starts.
pub proof fn lemma_block_parts(s: Seq<char>) -> (at: int)
    requires
        split_block(s) is Some,
        split_block(s)->0.closed,
    ensures
        ({
            let p = split_block(s)->0;
            let open = s.subrange(p.head.len() as int, at - p.body.len());
            let close = s.subrange(at, s.len() - p.tail.len());
            &&& 0 <= p.head.len() <= at - p.body.len() <= at <= s.len() - p.tail.len()
            &&& s == p.head + (open + (p.body + (close + p.tail)))
            &&& text::whole_lines(p.head)
            &&& before(p.head, opening()) == p.head.len()
            &&& is_line(open)
            &&& comment_body(open) == Some(opening())
            &&& text::whole_lines(p.body)
            &&& before(p.body, closing()) == p.body.len()
            &&& line_before(close, p.tail)
            &&& comment_body(close) == Some(closing())
        }),
{
    let p = split_block(s)->0;
    let a = before(s, opening());
    let rest = s.skip(a);
    lemma_before_lines(s, opening());
    lemma_before(s, opening());
    text::lemma_first_line(rest);
    text::lemma_find(rest, '\n');
    let n = text::first_line_len(rest);
    let inner = rest.skip(n);
    lemma_before_lines(inner, closing());
    lemma_before(inner, closing());
    let b = before(inner, closing());
    let last = inner.skip(b);
    text::lemma_first_line(last);
    text::lemma_find(last, '\n');
    let m = text::first_line_len(last);
    let at = a + n + b;
    let open = s.subrange(a, a + n);
    let close = s.subrange(at, at + m);
    assert(open =~= rest.take(n));
    assert(close =~= last.take(m));
    assert(p.tail =~= s.skip(at + m));
    assert(p.body =~= s.subrange(a + n, at));
    text::lemma_find_unique(open, '\n', n - 1);
    if text::find(last, '\n') < last.len() {
        text::lemma_find_unique(close, '\n', m - 1);
    } else {
        text::lemma_find_unique(close, '\n', m);
    }
    assert(s =~= p.head + (open + (p.body + (close + p.tail))));
    at
}

/// A script made of a head without a block, a block and a tail is cut up into
/// just these, whatever the lines of the block and whatever the tail.
pub proof fn law_block_is_found(
    head: Seq<char>,
    open: Seq<char>,
    body: Seq<char>,
    close: Seq<char>,
    tail: Seq<char>,
)
    requires
        text::whole_lines(head),
        before(head, opening()) == head.len(),
        is_line(open),
        comment_body(open) == Some(opening()),
        text::whole_lines(body),
        before(body, closing()) == body.len(),
        line_before(close, tail),
        comment_body(close) == Some(closing()),
    ensures
        split_block(head + (open + (body + (close + tail)))) == Some(
            Parts { head, body, tail, closed: true },
        ),
{
    let inner = body + (close + tail);
    let s = head + (open + inner);
    lemma_before_line(open, inner, opening());
    lemma_before_concat(head, open + inner, opening());
    assert(s.skip(head.len() as int) =~= open + inner);
    assert(s.take(head.len() as int) =~= head);
    assert(close.len() > 0) by {
        if close.len() == 0 {
            assert(text::trim_start(close, CharClass::White) == close);
        }
    }
    lemma_before_line(close, tail, closing());
    lemma_before_concat(body, close + tail, closing());
    assert(inner.take(body.len() as int) =~= body);
    assert(inner.skip(body.len() as int) =~= close + tail);
}

/// Lines after the one that closes the block set nothing: two scripts that
/// differ only in what follows their block have the same settings.
pub proof fn law_settings_stop_at_the_end_marker(
    head: Seq<char>,
    open: Seq<char>,
    body: Seq<char>,
    close: Seq<char>,
    tail: Seq<char>,
    key: Seq<char>,
)
    requires
        text::whole_lines(head),
        before(head, opening()) == head.len(),
        is_line(open),
        comment_body(open) == Some(opening()),
        text::whole_lines(body),
        before(body, closing()) == body.len(),
        line_before(close, tail),
        comment_body(close) == Some(closing()),
    ensures
        setting(head + (open + (body + (close + tail))), key) == field(text::lines(body), key),
{
    law_block_is_found(head, open, body, close, tail);
}

/// A script without the line that opens a block sets nothing.
pub proof fn law_no_block_sets_nothing(s: Seq<char>, key: Seq<char>)
    requires
        before(s, opening()) == s.len(),
    ensures
        setting(s, key) is None,
{
}

/// The line of a block that sets `key` to `value`.
pub open spec fn setting_line(key: Seq<char>, value: Seq<char>) -> Seq<char> {
    "# "@ + key + " = \""@ + value + "\"\n"@
}

/// Whether `key` can stand before the `=` of a line and be found again: it has
/// no `=` and no line feed, and starts and ends with something other than white
/// space.
pub open spec fn plain_key(key: Seq<char>) -> bool {
    &&& key.len() > 0
    &&& !text::is_white(key[0])
    &&& !text::is_white(key.last())
    &&& forall|k: int| 0 <= k < key.len() ==> key[k] != '=' && key[k] != '\n'
}

/// Whether `value` can stand in double quotes on one line and be found again: it
/// has no line feed and no double quote.
pub open spec fn plain_value(value: Seq<char>) -> bool {
    forall|k: int| 0 <= k < value.len() ==> value[k] != '\n' && value[k] != '"'
}

/// White space at the end, and a comment after white space, leave a value as it
/// is.
pub open spec fn trailing(rest: Seq<char>) -> bool {
    text::trim_start(rest, CharClass::White).len() == 0 || ends_value(rest)
}

proof fn lemma_trailing(rest: Seq<char>)
    requires
        trailing(rest),
    ensures
        ends_value(text::trim_end(rest, CharClass::White)),
{
    let white = CharClass::White;
    let end = text::trim_end(rest, white);
    text::lemma_trim_start_stops(rest, white);
    let t = text::trim_start(rest, white);
    let k = rest.len() - t.len();
    if t.len() == 0 {
        text::lemma_trim_end_all(rest, white);
    } else {
        let a = rest.take(k + 1);
        let b = rest.skip(k + 1);
        assert(rest =~= a + b);
        assert(rest[k] == t[0]);
        assert(a.last() == '#');
        text::lemma_trim_end_concat(a, b, white);
        text::lemma_trim_start(end, white, k);
        assert(end[0] == rest[0]);
        assert(end[k] == '#');
    }
}

/// What follows the closing quote of a setting is no part of the value where it
/// is white space, or a comment after white space.
pub proof fn law_comment_after_the_quote_is_ignored(
    key: Seq<char>,
    value: Seq<char>,
    rest: Seq<char>,
)
    requires
        plain_key(key),
        plain_value(value),
        trailing(rest),
    ensures
        entry("# "@ + key + " = \""@ + value + seq!['"'] + rest) == Some((key, value)),
{
    reveal_strlit("# ");
    reveal_strlit(" = \"");
    let white = CharClass::White;
    let line = "# "@ + key + " = \""@ + value + seq!['"'] + rest;
    let nk = key.len() as int;
    let nv = value.len() as int;
    let setting = key + " = \""@ + value + seq!['"'];
    let end = text::trim_end(rest, white);

    // The comment.
    assert(line[0] == '#' && line[1] == ' ');
    assert(text::trim_start(line, white) == line);
    let after = line.skip(1);
    assert(after.skip(1) =~= setting + rest);
    assert(setting[0] == key[0]);
    assert((setting + rest)[0] == key[0]);
    assert(text::trim_start(setting + rest, white) == setting + rest);
    assert(text::trim_start(after, white) == setting + rest);
    assert(setting.last() == '"');
    text::lemma_trim_end_concat(setting, rest, white);
    let body = setting + end;
    assert(comment_body(line) == Some(body));

    // The key.
    assert forall|k: int| 0 <= k < nk implies body[k] == key[k] by {}
    assert(body[nk] == ' ' && body[nk + 1] == '=' && body[nk + 2] == ' ' && body[nk + 3] == '"');
    text::lemma_find_unique(body, '=', nk + 1);
    let left = body.take(nk + 1);
    assert(left[nk - 1] == key.last());
    text::lemma_trim_both(left, white, 0, nk);
    assert(left.subrange(0, nk) =~= key);

    // The value.
    let quoted = seq!['"'] + value + seq!['"'];
    let right = body.skip(nk + 2);
    assert(right =~= seq![' '] + (quoted + end));
    assert(right.skip(1) =~= quoted + end);
    assert((quoted + end)[0] == '"');
    assert(text::trim_start(right, white) == text::trim_start(quoted + end, white));
    assert(text::trim_start(quoted + end, white) == quoted + end);
    assert(quoted.last() == '"');
    text::lemma_trim_end_concat(quoted, end, white);
    text::lemma_trim_end_again(rest, white);
    let v = quoted + end;
    assert(text::trim(right) == v);
    assert forall|k: int| 0 <= k < nv implies v.skip(1)[k] != '"' by {
        assert(v.skip(1)[k] == value[k]);
    }
    assert(v.skip(1)[nv] == '"');
    text::lemma_find_unique(v.skip(1), '"', nv);
    assert(v.skip(1).take(nv) =~= value);
    assert(v.skip(nv + 2) =~= end);
    lemma_trailing(rest);
}

/// A setting that is written into a block is read back as it was written.
pub proof fn law_setting_reads_back(key: Seq<char>, value: Seq<char>)
    requires
        plain_key(key),
        plain_value(value),
    ensures
        is_line(setting_line(key, value)),
        entry(setting_line(key, value)) == Some((key, value)),
{
    reveal_strlit("# ");
    reveal_strlit(" = \"");
    reveal_strlit("\"\n");
    let line = setting_line(key, value);
    let nk = key.len() as int;
    let nv = value.len() as int;
    assert(line.len() == nk + nv + 8);
    assert forall|k: int| 0 <= k < line.len() - 1 implies line[k] != '\n' by {
        if 2 <= k < nk + 2 {
            assert(line[k] == key[k - 2]);
        } else if nk + 6 <= k < nk + nv + 6 {
            assert(line[k] == value[k - nk - 6]);
        }
    }
    text::lemma_find_unique(line, '\n', line.len() - 1);
    assert(seq!['\n'].skip(1) =~= seq![]);
    assert(text::trim_start(seq!['\n'].skip(1), CharClass::White).len() == 0);
    law_comment_after_the_quote_is_ignored(key, value, seq!['\n']);
    assert(line =~= "# "@ + key + " = \""@ + value + seq!['"'] + seq!['\n']);
}

/// Of two runs of lines, the later one decides where it sets the key at all.
pub proof fn lemma_field_concat(a: Seq<Seq<char>>, b: Seq<Seq<char>>, key: Seq<char>)
    ensures
        field(b, key) is Some ==> field(a + b, key) == field(b, key),
        field(b, key) is None ==> field(a + b, key) == field(a, key),
    decreases b.len(),
{
    if b.len() == 0 {
        assert(a + b =~= a);
    } else {
        assert((a + b).drop_last() =~= a + b.drop_last());
        assert((a + b).last() == b.last());
        lemma_field_concat(a, b.drop_last(), key);
    }
}

/// The last line to set a key wins.
pub proof fn law_last_setting_wins(
    lines: Seq<Seq<char>>,
    key: Seq<char>,
    value: Seq<char>,
)
    requires
        plain_key(key),
        plain_value(value),
    ensures
        field(lines.push(setting_line(key, value)), key) == Some(value),
        forall|other: Seq<char>| other != key ==> field(
            lines.push(setting_line(key, value)),
            other,
        ) == #[trigger] field(lines, other),
{
    law_setting_reads_back(key, value);
    let all = lines.push(setting_line(key, value));
    assert(all.last() == setting_line(key, value));
    assert(all.drop_last() =~= lines);
}

// ---------------------------------------------------------------------------
// What lines say

/// A comment is a line whose first character other than white space is `#`; its
/// text is what follows, without white space at either end.
pub proof fn law_what_a_comment_is(space: Seq<char>, rest: Seq<char>)
    requires
        forall|k: int| 0 <= k < space.len() ==> text::is_white(#[trigger] space[k]),
    ensures
        comment_body(space + seq!['#'] + rest) == Some(text::trim(rest)),
        rest.len() > 0 && rest[0] != '#' && !text::is_white(rest[0]) ==> comment_body(space + rest)
            is None,
        comment_body(space) is None,
{
    let white = CharClass::White;
    let line = space + seq!['#'] + rest;
    assert forall|k: int| 0 <= k < space.len() implies white.holds(#[trigger] line[k]) by {
        assert(line[k] == space[k]);
    }
    assert(line[space.len() as int] == '#');
    text::lemma_trim_start(line, white, space.len() as int);
    assert(line.skip(space.len() as int).skip(1) =~= rest);
    if rest.len() > 0 && rest[0] != '#' && !text::is_white(rest[0]) {
        let other = space + rest;
        assert forall|k: int| 0 <= k < space.len() implies white.holds(#[trigger] other[k]) by {
            assert(other[k] == space[k]);
        }
        assert(other[space.len() as int] == rest[0]);
        text::lemma_trim_start(other, white, space.len() as int);
        assert(other.skip(space.len() as int)[0] == rest[0]);
    }
    text::lemma_trim_start_stops(space, white);
    let t = text::trim_start(space, white);
    if t.len() > 0 {
        assert(t[0] == space[space.len() - t.len()]);
    }
}

/// Whether a value can stand on a line as it is: it has no line feed, no quote at
/// either end and no white space there.
pub open spec fn bare_value(value: Seq<char>) -> bool {
    &&& value.len() > 0
    &&& !text::is_white(value[0]) && !text::is_white(value.last())
    &&& value[0] != '"' && value[0] != '\'' && value.last() != '"' && value.last() != '\''
}

/// A setting is read the same with and without quotes, of either kind, and with any
/// white space around its parts.
pub proof fn law_settings_are_read_with_and_without_quotes(
    key: Seq<char>,
    value: Seq<char>,
    a: Seq<char>,
    b: Seq<char>,
    c: Seq<char>,
    quote: char,
)
    requires
        plain_key(key),
        bare_value(value),
        quote == '"' || quote == '\'',
        !value.contains(quote),
        forall|k: int| 0 <= k < a.len() ==> text::is_white(#[trigger] a[k]),
        forall|k: int| 0 <= k < b.len() ==> text::is_white(#[trigger] b[k]),
        forall|k: int| 0 <= k < c.len() ==> text::is_white(#[trigger] c[k]),
    ensures
        entry(seq!['#'] + (a + key + b + seq!['='] + c + value)) == Some((key, value)),
        entry(seq!['#'] + (a + key + b + seq!['='] + c + (seq![quote] + value + seq![quote])))
            == Some((key, value)),
{
    lemma_entry(key, value, a, b, c);
    assert(text::trim_both(value, CharClass::Quote) == value) by {
        text::lemma_trim_both(value, CharClass::Quote, 0, value.len() as int);
        assert(value.subrange(0, value.len() as int) =~= value);
    }
    assert(unquoted_value(value) == value);
    let quoted = seq![quote] + value + seq![quote];
    lemma_entry(key, quoted, a, b, c);
    assert forall|k: int| 0 <= k < value.len() implies quoted.skip(1)[k] != quote by {
        assert(quoted.skip(1)[k] == value[k]);
        assert(value.contains(value[k]));
    }
    assert(quoted.skip(1)[value.len() as int] == quote);
    text::lemma_find_unique(quoted.skip(1), quote, value.len() as int);
    assert(quoted.skip(1).take(value.len() as int) =~= value);
    assert(quoted.skip(value.len() as int + 2) =~= seq![]);
    assert(unquoted_value(quoted) == value);
}

proof fn lemma_entry(key: Seq<char>, v: Seq<char>, a: Seq<char>, b: Seq<char>, c: Seq<char>)
    requires
        plain_key(key),
        v.len() > 0,
        !text::is_white(v[0]) && !text::is_white(v.last()),
        forall|k: int| 0 <= k < a.len() ==> text::is_white(#[trigger] a[k]),
        forall|k: int| 0 <= k < b.len() ==> text::is_white(#[trigger] b[k]),
        forall|k: int| 0 <= k < c.len() ==> text::is_white(#[trigger] c[k]),
    ensures
        entry(seq!['#'] + (a + key + b + seq!['='] + c + v)) == Some((key, unquoted_value(v))),
{
    let white = CharClass::White;
    let rest = a + key + b + seq!['='] + c + v;
    law_what_a_comment_is(seq![], rest);
    assert(Seq::<char>::empty() + seq!['#'] + rest =~= seq!['#'] + rest);
    let body = key + b + seq!['='] + c + v;
    let na = a.len() as int;
    let n = rest.len() as int;
    assert(rest[na] == key[0]);
    assert(rest[n - 1] == v.last());
    assert forall|k: int| 0 <= k < na || n <= k < rest.len() implies white.holds(
        #[trigger] rest[k],
    ) by {
        if k < na {
            assert(rest[k] == a[k]);
        }
    }
    text::lemma_trim_both(rest, white, na, n);
    assert(rest.subrange(na, n) =~= body);
    let e = (key.len() + b.len()) as int;
    assert(body[e] == '=');
    assert forall|k: int| 0 <= k < e implies body[k] != '=' by {
        if k < key.len() {
            assert(body[k] == key[k]);
        } else {
            assert(body[k] == b[k - key.len()]);
        }
    }
    text::lemma_find_unique(body, '=', e);
    let left = body.take(e);
    assert(left[0] == key[0] && left[key.len() - 1] == key.last());
    assert forall|k: int| key.len() <= k < left.len() implies white.holds(#[trigger] left[k]) by {
        assert(left[k] == b[k - key.len()]);
    }
    text::lemma_trim_both(left, white, 0, key.len() as int);
    assert(left.subrange(0, key.len() as int) =~= key);
    let right = body.skip(e + 1);
    let nc = c.len() as int;
    assert(right =~= c + v);
    assert(right[nc] == v[0] && right[right.len() - 1] == v.last());
    assert forall|k: int| 0 <= k < nc implies white.holds(#[trigger] right[k]) by {
        assert(right[k] == c[k]);
    }
    text::lemma_trim_both(right, white, nc, right.len() as int);
    assert(right.subrange(nc, right.len() as int) =~= v);
}

/// A key has the value of the last line that sets it, and none where no line does.
pub proof fn law_the_last_line_for_a_key_counts(lines: Seq<Seq<char>>, key: Seq<char>, i: int)
    ensures
        (forall|k: int|
            0 <= k < lines.len() ==> (#[trigger] entry(lines[k]) is Some ==> (entry(lines[k])->0).0
                != key)) ==> field(lines, key) is None,
        0 <= i < lines.len() && entry(lines[i]) is Some && (entry(lines[i])->0).0 == key && (forall|
            k: int,
        |
            i < k < lines.len() ==> (#[trigger] entry(lines[k]) is Some ==> (entry(lines[k])->0).0
                != key)) ==> field(lines, key) == Some((entry(lines[i])->0).1),
    decreases lines.len(),
{
    if lines.len() > 0 {
        let init = lines.drop_last();
        assert(forall|k: int| 0 <= k < init.len() ==> init[k] == lines[k]);
        assert(lines.last() == lines[lines.len() - 1]);
        law_the_last_line_for_a_key_counts(init, key, i);
        if forall|k: int|
            0 <= k < lines.len() ==> (#[trigger] entry(lines[k]) is Some ==> (entry(lines[k])->0).0
                != key) {
            assert(entry(lines[lines.len() - 1]) is Some ==> (entry(lines.last())->0).0 != key);
            assert forall|k: int| 0 <= k < init.len() && #[trigger] entry(init[k]) is Some implies (
            entry(init[k])->0).0 != key by {
                assert(entry(lines[k]) is Some);
            }
        }
        if 0 <= i < init.len() && (forall|k: int|
            i < k < lines.len() ==> (#[trigger] entry(lines[k]) is Some ==> (entry(lines[k])->0).0
                != key)) {
            assert(entry(lines[lines.len() - 1]) is Some ==> (entry(lines.last())->0).0 != key);
            assert forall|k: int| i < k < init.len() && #[trigger] entry(init[k]) is Some implies (
            entry(init[k])->0).0 != key by {
                assert(entry(lines[k]) is Some);
            }
        }
    }
}

/// Each field has its own key.
pub proof fn law_each_field_has_its_key(s: Seq<char>)
    ensures
        settings(s).interpreter == setting(s, "interpreter"@),
        settings(s).checksum == setting(s, "checksum"@),
        settings(s).argv0 == setting(s, "argv0"@),
        settings(s).subscripts == setting(s, "subscripts"@),
{
}

/// A block goes from the first line that opens one to the first line after it that
/// closes it, or to the end of the script; what it sets is set by the lines in
/// between.
pub proof fn law_where_the_block_is(s: Seq<char>, key: Seq<char>)
    ensures
        ({
            let lines = text::lines(s);
            &&& (forall|i: int|
                0 <= i < lines.len() ==> comment_body(#[trigger] lines[i]) != Some(
                    "/// scriptbox"@,
                )) ==> setting(s, key) is None
            &&& forall|i: int, j: int|
                #![trigger lines[i], lines[j]]
                0 <= i < j < lines.len() && comment_body(lines[i]) == Some("/// scriptbox"@) && (
                forall|k: int|
                    0 <= k < i ==> comment_body(#[trigger] lines[k]) != Some("/// scriptbox"@))
                    && comment_body(lines[j]) == Some("///"@) && (forall|k: int|
                    i < k < j ==> comment_body(#[trigger] lines[k]) != Some("///"@)) ==> setting(
                    s,
                    key,
                ) == field(lines.subrange(i + 1, j), key)
            &&& forall|i: int|
                #![trigger lines[i]]
                0 <= i < lines.len() && comment_body(lines[i]) == Some("/// scriptbox"@) && (forall|
                    k: int,
                |
                    0 <= k < i ==> comment_body(#[trigger] lines[k]) != Some("/// scriptbox"@)) && (
                forall|k: int| i < k < lines.len() ==> comment_body(#[trigger] lines[k]) != Some("///"@))
                    ==> setting(s, key) == field(lines.skip(i + 1), key)
        }),
{
    let lines = text::lines(s);
    lemma_before_lines(s, opening());
    let open = before(s, opening());
    if open < s.len() {
        lemma_lines_after(s, opening());
        let n = choose|n: int|
            0 <= n < lines.len() && comment_body(#[trigger] lines[n]) == Some(opening()) && (forall|
                i: int,
            |
                0 <= i < n ==> comment_body(#[trigger] lines[i]) != Some(opening())) && text::lines(
                after_line(s.skip(open)),
            ) == lines.skip(n + 1);
        let inner = after_line(s.skip(open));
        lemma_before_lines(inner, closing());
        let body = inner.take(before(inner, closing()));
        let found = text::lines(body);
        assert(found + text::lines(inner.skip(before(inner, closing()))) == lines.skip(n + 1));
        assert(setting(s, key) == field(found, key));
        assert forall|i: int, j: int|
            #![trigger lines[i], lines[j]]
            0 <= i < j < lines.len() && comment_body(lines[i]) == Some("/// scriptbox"@) && (forall|
                k: int,
            |
                0 <= k < i ==> comment_body(#[trigger] lines[k]) != Some("/// scriptbox"@))
                && comment_body(lines[j]) == Some("///"@) && (forall|k: int|
                i < k < j ==> comment_body(#[trigger] lines[k]) != Some("///"@)) implies setting(
            s,
            key,
        ) == field(lines.subrange(i + 1, j), key) by {
            assert(i == n) by {
                if i < n {
                    assert(comment_body(lines[i]) != Some(opening()));
                }
            }
            let m = found.len() as int;
            assert(lines.skip(n + 1)[j - n - 1] == lines[j]);
            if m > j - n - 1 {
                assert(found[j - n - 1] == lines[j]);
            }
            if m < j - n - 1 {
                let rest = text::lines(inner.skip(before(inner, closing())));
                assert(before(inner, closing()) < inner.len()) by {
                    if before(inner, closing()) == inner.len() {
                        assert(inner.skip(inner.len() as int) =~= seq![]);
                        assert(rest.len() == 0);
                        assert(lines.skip(n + 1).len() == m);
                    }
                }
                assert(lines.skip(n + 1)[m] == rest[0]);
                assert(lines[n + 1 + m] == rest[0]);
            }
            assert(found =~= lines.subrange(i + 1, j)) by {
                assert forall|k: int| 0 <= k < m implies found[k] == lines[n + 1 + k] by {
                    assert(lines.skip(n + 1)[k] == found[k]);
                }
            }
        }
        assert forall|i: int|
            #![trigger lines[i]]
            0 <= i < lines.len() && comment_body(lines[i]) == Some("/// scriptbox"@) && (forall|
                k: int,
            |
                0 <= k < i ==> comment_body(#[trigger] lines[k]) != Some("/// scriptbox"@)) && (
            forall|k: int| i < k < lines.len() ==> comment_body(#[trigger] lines[k]) != Some("///"@))
            implies setting(s, key) == field(lines.skip(i + 1), key) by {
            assert(i == n) by {
                if i < n {
                    assert(comment_body(lines[i]) != Some(opening()));
                }
            }
            let all = text::lines(inner);
            assert forall|k: int| 0 <= k < all.len() implies comment_body(#[trigger] all[k])
                != Some(closing()) by {
                assert(all[k] == lines[n + 1 + k]);
            }
            assert(before(inner, closing()) == inner.len());
            assert(body =~= inner);
        }
    }
}

/// Quotes that do not enclose a whole value go at either end, as many as there are,
/// and those inside stay.
pub proof fn law_stray_quotes_are_trimmed(a: Seq<char>, x: Seq<char>, b: Seq<char>)
    requires
        x.len() > 0,
        x[0] != '"' && x[0] != '\'' && x.last() != '"' && x.last() != '\'',
        forall|k: int| 0 <= k < a.len() ==> #[trigger] a[k] == '"' || a[k] == '\'',
        forall|k: int| 0 <= k < b.len() ==> #[trigger] b[k] == '"' || b[k] == '\'',
        !x.contains('#'),
        !x.contains('"') && !x.contains('\''),
    ensures
        a.len() == 0 || b.len() == 0 ==> unquoted_value(a + x + b) == x,
        a.len() == b.len() && (forall|k: int| 0 <= k < a.len() ==> #[trigger] a[k] == '"') && (
        forall|k: int| 0 <= k < b.len() ==> #[trigger] b[k] == '"') ==> unquoted_value(a + x + b)
            == x,
{
    let v = a + x + b;
    let quote = CharClass::Quote;
    let n = a.len() as int;
    let m = (a.len() + x.len()) as int;
    assert(v[n] == x[0] && v[m - 1] == x.last());
    assert forall|k: int| 0 <= k < n || m <= k < v.len() implies quote.holds(#[trigger] v[k]) by {
        if k < n {
            assert(v[k] == a[k]);
        } else {
            assert(v[k] == b[k - m]);
        }
    }
    text::lemma_trim_both(v, quote, n, m);
    assert(v.subrange(n, m) =~= x);
    if v.len() > 0 && quote.holds(v[0]) && text::find(v.skip(1), v[0]) < v.len() - 1 {
        let c = v[0];
        text::lemma_find(v.skip(1), c);
        let f = text::find(v.skip(1), c);
        assert(v.skip(1)[f] == v[f + 1]);
        let rest = v.skip(f + 2);
        if ends_value(rest) && rest.len() > 0 {
            let t = text::trim_start(rest, CharClass::White);
            text::lemma_trim_start_stops(rest, CharClass::White);
            let at = v.len() - t.len();
            assert(t[0] == v[at]);
            if n <= at < m {
                assert(x.contains(x[at - n]));
            }
        }
        if ends_value(rest) && rest.len() == 0 {
            assert(f + 2 == v.len());
            if a.len() == b.len() && n >= 1 && (forall|k: int|
                0 <= k < a.len() ==> #[trigger] a[k] == '"') {
                assert(v[0] == a[0]);
                if n >= 2 {
                    assert(v[1] == a[1] && v.skip(1)[0] == v[1]);
                    assert(f == 0);
                }
                assert(n == 1);
                assert(v.skip(1).take(f) =~= x);
            }
            if b.len() == 0 {
                assert(f + 1 == m - 1);
            }
        }
    }
}

/// A line that is no comment, or a comment without `=`, sets nothing; a key with
/// nothing after its `=` is set to the empty text.
pub proof fn law_what_sets_nothing(
    line: Seq<char>,
    key: Seq<char>,
    a: Seq<char>,
    b: Seq<char>,
    c: Seq<char>,
)
    requires
        plain_key(key),
        forall|k: int| 0 <= k < a.len() ==> text::is_white(#[trigger] a[k]),
        forall|k: int| 0 <= k < b.len() ==> text::is_white(#[trigger] b[k]),
        forall|k: int| 0 <= k < c.len() ==> text::is_white(#[trigger] c[k]),
    ensures
        comment_body(line) is None ==> entry(line) is None,
        comment_body(line) is Some && !(comment_body(line)->0).contains('=') ==> entry(line)
            is None,
        entry(seq!['#'] + (a + key + b + seq!['='] + c)) == Some((key, Seq::<char>::empty())),
{
    if comment_body(line) is Some && !(comment_body(line)->0).contains('=') {
        let t = comment_body(line)->0;
        assert forall|k: int| 0 <= k < t.len() implies t[k] != '=' by {
            assert(t.contains(t[k]));
        }
        text::lemma_find_unique(t, '=', t.len() as int);
    }
    let white = CharClass::White;
    let rest = a + key + b + seq!['='] + c;
    law_what_a_comment_is(seq![], rest);
    assert(Seq::<char>::empty() + seq!['#'] + rest =~= seq!['#'] + rest);
    let na = a.len() as int;
    let e = (key.len() + b.len()) as int;
    let n = na + e + 1;
    let body = key + b + seq!['='];
    assert(rest[na] == key[0]);
    assert(rest[n - 1] == '=');
    assert forall|k: int| 0 <= k < na || n <= k < rest.len() implies white.holds(
        #[trigger] rest[k],
    ) by {
        if k < na {
            assert(rest[k] == a[k]);
        } else {
            assert(rest[k] == c[k - n]);
        }
    }
    text::lemma_trim_both(rest, white, na, n);
    assert(rest.subrange(na, n) =~= body);
    assert(body[e] == '=');
    assert forall|k: int| 0 <= k < e implies body[k] != '=' by {
        if k < key.len() {
            assert(body[k] == key[k]);
        } else {
            assert(body[k] == b[k - key.len()]);
        }
    }
    text::lemma_find_unique(body, '=', e);
    let left = body.take(e);
    assert(left[0] == key[0] && left[key.len() - 1] == key.last());
    assert forall|k: int| key.len() <= k < left.len() implies white.holds(#[trigger] left[k]) by {
        assert(left[k] == b[k - key.len()]);
    }
    text::lemma_trim_both(left, white, 0, key.len() as int);
    assert(left.subrange(0, key.len() as int) =~= key);
    assert(body.skip(e + 1) =~= Seq::<char>::empty());
    assert(text::trim(Seq::<char>::empty()) =~= Seq::<char>::empty());
    assert(unquoted_value(Seq::<char>::empty()) =~= Seq::<char>::empty());
}

} // verus!
