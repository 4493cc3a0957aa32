//! From the text of a shell program to its simple commands and its words, by
//! `brush-parser`.
//!
//! The outside parser works in two steps, from text to tokens and from tokens to
//! a tree. Some texts with here-documents make the first step panic or go on
//! forever, and two kinds of tokens make the second one panic; they are dealt
//! with before each step.

use vstd::prelude::*;
use vstd::string::*;

use crate::shell;
use crate::text;

verus! {

/// `brush_parser::Token`: a word or an operator, and where it stands.
#[verifier::external_type_specification]
pub struct ExToken(brush_parser::Token);

/// A position in a program.
pub struct Position {
    /// The index of the character.
    pub index: usize,
    /// The line, counted from 1.
    pub line: usize,
    /// The column, counted from 1.
    pub column: usize,
}

/// The model of a token.
pub struct TokenModel {
    /// Whether it is an operator; else it is a word.
    pub operator: bool,
    /// The text.
    pub text: Seq<char>,
    /// Where it starts.
    pub start: Position,
    /// Where it ends.
    pub end: Position,
}

/// A position of the outside crate.
pub open spec fn position_of(p: brush_parser::SourcePosition) -> Position {
    Position { index: p.index, line: p.line, column: p.column }
}

/// A token of the outside crate.
pub open spec fn token_of(t: brush_parser::Token) -> TokenModel {
    match t {
        brush_parser::Token::Operator(s, l) => TokenModel {
            operator: true,
            text: s@,
            start: position_of(*l.start),
            end: position_of(*l.end),
        },
        brush_parser::Token::Word(s, l) => TokenModel {
            operator: false,
            text: s@,
            start: position_of(*l.start),
            end: position_of(*l.end),
        },
    }
}

/// The tokens of the outside crate.
pub open spec fn tokens_of(tokens: Seq<brush_parser::Token>) -> Seq<TokenModel> {
    tokens.map_values(|t: brush_parser::Token| token_of(t))
}

/// What `brush_parser::tokenize_str` makes of a text: its tokens, or the message
/// of the error.
pub uninterp spec fn shell_tokens(text: Seq<char>) -> Result<Seq<TokenModel>, Seq<char>>;

/// The simple commands, in order, of the program that
/// `brush_parser::parse_tokens` makes of tokens, or the message of the error.
pub uninterp spec fn shell_commands(tokens: Seq<TokenModel>) -> Result<
    Seq<shell::InvocationModel>,
    Seq<char>,
>;

/// Whether a text can hold a here-document: two `<` stand side by side.
pub open spec fn has_here_document(s: Seq<char>) -> bool {
    exists|i: int| 0 <= i < s.len() - 1 && #[trigger] s[i] == '<' && s[i + 1] == '<'
}

/// Whether from `k` on a text has nothing but line feeds, more than twice as many
/// as it has characters before them.
pub open spec fn quiet_from(s: Seq<char>, k: int) -> bool {
    &&& 0 <= k
    &&& 3 * k + 3 <= s.len()
    &&& forall|j: int| k <= j < s.len() ==> #[trigger] s[j] == '\n'
}

/// Whether a text has so many line feeds at its end that every here-document that
/// line feeds can end is over before the text is.
pub open spec fn ends_quietly(s: Seq<char>) -> bool {
    exists|k: int| #[trigger] quiet_from(s, k)
}

/// `brush_parser::tokenize_str`, with the error as its message. Which tokens a
/// text has is left to the outside crate. At the end of a text the outside
/// function does not return where a here-document with an empty tag was just
/// opened, and panics where tokens that it has held back for a here-document say
/// that a bracket follows. Line feeds at the end keep it from both. A
/// here-document needs at most two of them and one for each line feed in its own
/// tag, and a token that was held back, of which there is one at most for each
/// closing bracket, takes one; so there are enough where there are more than
/// twice as many as characters before them. A text without `<<` needs none.
/// Nothing is said of texts that are nested too deeply for the stack.
#[verifier::external_body]
fn tokenize(src: &str) -> (r: Result<Vec<brush_parser::Token>, String>)
    requires
        !has_here_document(src@) || ends_quietly(src@),
    ensures
        match r {
            Ok(t) => shell_tokens(src@) == Ok::<Seq<TokenModel>, Seq<char>>(tokens_of(t@)),
            Err(e) => shell_tokens(src@) == Err::<Seq<TokenModel>, Seq<char>>(e@),
        },
{
    brush_parser::tokenize_str(src).map_err(|e| e.to_string())
}

/// The text with line feeds after it, so many that it ends quietly.
pub open spec fn eased_out(s: Seq<char>) -> Seq<char> {
    s + Seq::new(2 * s.len() + 3, |i: int| '\n')
}

/// Whether a text can hold a here-document.
pub fn can_hold_here_document(src: &str) -> (r: bool)
    ensures
        r == has_here_document(src@),
{
    let chars = text::chars_of(src);
    let mut i: usize = 1;
    while i < chars.len()
        invariant
            1 <= i,
            i <= chars@.len() || i == 1,
            chars@ == src@,
            forall|k: int|
                0 <= k < i - 1 && #[trigger] chars@[k] == '<' ==> chars@[k + 1] != '<',
        decreases chars@.len() - i,
    {
        if chars[i - 1] == '<' && chars[i] == '<' {
            assert(src@[i - 1] == '<');
            return true;
        }
        i = i + 1;
    }
    false
}

/// The text with line feeds after it, so many that it ends quietly.
pub fn ease_out(src: &str) -> (r: String)
    ensures
        r@ == eased_out(src@),
        ends_quietly(r@),
{
    let chars = text::chars_of(src);
    let ghost feeds = Seq::new(2 * src@.len() + 3, |i: int| '\n');
    let mut out = src.to_owned();
    let mut j: usize = 0;
    assert(out@ =~= src@ + feeds.take(0));
    while j < chars.len()
        invariant
            j <= chars@.len(),
            chars@ == src@,
            feeds == Seq::new(2 * src@.len() + 3, |i: int| '\n'),
            out@ == src@ + feeds.take(2 * j),
        decreases chars@.len() - j,
    {
        out.push('\n');
        out.push('\n');
        j = j + 1;
        assert(out@ =~= src@ + feeds.take(2 * j));
    }
    out.append("\n\n\n");
    proof {
        reveal_strlit("\n\n\n");
        assert(out@ =~= src@ + feeds);
        assert(quiet_from(out@, src@.len() as int));
    }
    out
}

// ---------------------------------------------------------------------------
// The tokens of a text, with or without line feeds after it

/// Whether a token is a line feed.
pub open spec fn is_line_feed(t: TokenModel) -> bool {
    t.operator && t.text == "\n"@
}

/// Whether the first of the line feeds after a text of `n` characters is a token
/// of its own.
pub open spec fn ends_a_line(tokens: Seq<TokenModel>, n: nat) -> bool {
    exists|i: int|
        0 <= i < tokens.len() && is_line_feed(#[trigger] tokens[i]) && tokens[i].end.index == n + 1
}

/// Whether the token at `i` is an empty here-document with an empty tag that
/// follows, among the line feeds after a text of `n` characters, on another
/// here-document: the end of the text ends both.
pub open spec fn ends_at_once(tokens: Seq<TokenModel>, n: nat, i: int) -> bool {
    &&& is_body(tokens, i)
    &&& tokens[i].text.len() == 0
    &&& unquoted(tokens[i - 1].text).len() == 0
    &&& !ends_a_line(tokens, n)
}

/// Whether the token at `i` has taken line feeds after a text of `n` characters,
/// but for the first, that go into something which the text leaves open.
pub open spec fn left_open(tokens: Seq<TokenModel>, n: nat, i: int) -> bool {
    &&& !is_line_feed(tokens[i])
    &&& tokens[i].end.index > n + 1
    &&& !ends_at_once(tokens, n, i)
    &&& !(i > 0 && ends_at_once(tokens, n, i - 1))
}

/// Whether a text of `n` characters leaves something open.
pub open spec fn broken_off(tokens: Seq<TokenModel>, n: nat) -> bool {
    exists|i: int| 0 <= i < tokens.len() && #[trigger] left_open(tokens, n, i)
}

/// The tokens without the line feeds at the end that are no part of a text of `n`
/// characters.
pub open spec fn within(tokens: Seq<TokenModel>, n: nat) -> Seq<TokenModel>
    decreases tokens.len(),
{
    if tokens.len() > 0 && is_line_feed(tokens.last()) && tokens.last().end.index > n {
        within(tokens.drop_last(), n)
    } else {
        tokens
    }
}

/// The line on which a text ends, counted from 1.
pub open spec fn end_line(s: Seq<char>) -> nat
    decreases s.len(),
{
    if s.len() == 0 {
        1
    } else if s.last() == '\n' {
        end_line(s.drop_last()) + 1
    } else {
        end_line(s.drop_last())
    }
}

/// The column at which a text ends, counted from 1.
pub open spec fn end_column(s: Seq<char>) -> nat
    decreases s.len(),
{
    if s.len() == 0 || s.last() == '\n' {
        1
    } else {
        end_column(s.drop_last()) + 1
    }
}

/// A place as messages name it.
pub open spec fn place(line: nat, column: nat) -> Seq<char> {
    text::decimal(line) + ","@ + text::decimal(column)
}

/// A position, or the end of the text `s` where it lies beyond that.
pub open spec fn position_in(p: Position, s: Seq<char>) -> Position {
    if p.index > s.len() {
        Position {
            index: s.len() as usize,
            line: end_line(s) as usize,
            column: end_column(s) as usize,
        }
    } else {
        p
    }
}

/// A token with its places in the text `s`.
pub open spec fn token_in(t: TokenModel, s: Seq<char>) -> TokenModel {
    TokenModel { start: position_in(t.start, s), end: position_in(t.end, s), ..t }
}

/// The tags, among the first `m` tokens, of the here-documents that a text of `n`
/// characters leaves open: after the first one, all that end beyond it.
pub open spec fn open_tags(tokens: Seq<TokenModel>, n: nat, m: int) -> Seq<TokenModel>
    decreases m,
{
    if m <= 0 {
        seq![]
    } else if is_body(tokens, m - 1) && (left_open(tokens, n, m - 1) || (tokens[m - 1].end.index
        > n + 1 && open_tags(tokens, n, m - 1).len() > 0)) {
        open_tags(tokens, n, m - 1).push(tokens[m - 2])
    } else {
        open_tags(tokens, n, m - 1)
    }
}

/// The tags, with commas between them.
pub open spec fn tag_names(tags: Seq<TokenModel>) -> Seq<char>
    decreases tags.len(),
{
    if tags.len() == 0 {
        seq![]
    } else if tags.len() == 1 {
        text::trim(tags[0].text)
    } else {
        tag_names(tags.drop_last()) + ", "@ + text::trim(tags.last().text)
    }
}

/// The places at which tags end, with commas between them.
pub open spec fn tag_places(tags: Seq<TokenModel>) -> Seq<char>
    decreases tags.len(),
{
    if tags.len() == 0 {
        seq![]
    } else {
        let last = place(tags.last().end.line as nat, tags.last().end.column as nat);
        if tags.len() == 1 {
            last
        } else {
            tag_places(tags.drop_last()) + ", "@ + last
        }
    }
}

/// The message for a text that leaves here-documents open.
pub open spec fn open_message(tags: Seq<TokenModel>) -> Seq<char> {
    "unterminated here document sequence; tag(s) ["@ + tag_names(tags) + "] found at: ["@
        + tag_places(tags) + "]"@
}

/// Whether a backslash at the end of the text `s` has taken the first of the line
/// feeds after it.
pub open spec fn ends_in_escape(tokens: Seq<TokenModel>, s: Seq<char>) -> bool {
    let tags = open_tags(tokens, s.len(), tokens.len() as int);
    &&& s.len() > 0 && s.last() == '\\'
    &&& if broken_off(tokens, s.len()) {
        tags.len() > 0 && tags.last().end.index > s.len()
    } else {
        !ends_a_line(tokens, s.len())
    }
}

/// The tokens of the text `s`, of those that it has with line feeds after it, or
/// why it has none: a backslash at the end has nothing after it, or a
/// here-document is broken off.
pub open spec fn own_tokens(tokens: Seq<TokenModel>, s: Seq<char>) -> Result<
    Seq<TokenModel>,
    Seq<char>,
> {
    if ends_in_escape(tokens, s) {
        Err("unterminated escape sequence"@)
    } else if broken_off(tokens, s.len()) {
        Err(open_message(open_tags(tokens, s.len(), tokens.len() as int)))
    } else {
        Ok(within(tokens, s.len()).map_values(|t: TokenModel| token_in(t, s)))
    }
}

/// The message for the text `s`, of that for the text with line feeds after it: a
/// place among the line feeds is the end of the text, and a tag there was led on
/// by a backslash at the end.
pub open spec fn own_message(e: Seq<char>, s: Seq<char>) -> Seq<char> {
    if "unterminated extglob near "@.is_prefix_of(e) {
        "unterminated extglob near "@ + place(end_line(s), end_column(s))
    } else if s.len() > 0 && s.last() == '\\'
        && "unterminated here document sequence"@.is_prefix_of(e) && (place(end_line(s) + 1, 1)
        + "]"@).is_suffix_of(e) {
        "unterminated escape sequence"@
    } else {
        e
    }
}

/// The tokens of a text, or why it has none.
pub open spec fn tokens_in(s: Seq<char>) -> Result<Seq<TokenModel>, Seq<char>> {
    if !has_here_document(s) {
        shell_tokens(s)
    } else {
        match shell_tokens(eased_out(s)) {
            Ok(tokens) => own_tokens(tokens, s),
            Err(e) => Err(own_message(e, s)),
        }
    }
}

/// The line and the column at which a text ends.
fn find_end(s: &[char]) -> (r: (u128, u128))
    ensures
        r.0 == end_line(s@),
        r.1 == end_column(s@),
        r.0 <= s@.len() + 1,
        r.1 <= s@.len() + 1,
{
    let mut line: u128 = 1;
    let mut column: u128 = 1;
    let mut i: usize = 0;
    assert(s@.take(0) =~= seq![]);
    while i < s.len()
        invariant
            i <= s@.len(),
            line == end_line(s@.take(i as int)),
            column == end_column(s@.take(i as int)),
            line <= i + 1,
            column <= i + 1,
        decreases s@.len() - i,
    {
        assert(s@.take(i + 1).drop_last() =~= s@.take(i as int));
        if s[i] == '\n' {
            line = line + 1;
            column = 1;
        } else {
            column = column + 1;
        }
        i = i + 1;
    }
    assert(s@.take(i as int) =~= s@);
    (line, column)
}

/// A place as messages name it.
fn place_of(line: u128, column: u128) -> (r: String)
    ensures
        r@ == place(line as nat, column as nat),
{
    let mut out = text::decimal_of(line);
    out.append(",");
    let column = text::decimal_of(column);
    out.append(column.as_str());
    out
}

/// The message for the text `src`, of that for the text with line feeds after it.
pub fn keep_message(e: String, src: &str) -> (r: String)
    ensures
        r@ == own_message(e@, src@),
{
    let message = text::chars_of(e.as_str());
    let chars = text::chars_of(src);
    let (line, column) = find_end(&chars);
    if text::starts_with(&message, "unterminated extglob near ") {
        let mut out = "unterminated extglob near ".to_owned();
        let at = place_of(line, column);
        out.append(at.as_str());
        return out;
    }
    let n = chars.len();
    if n > 0 && chars[n - 1] == '\\' && text::starts_with(
        &message,
        "unterminated here document sequence",
    ) {
        let mut after = place_of(line + 1, 1);
        after.append("]");
        if text::ends_with(&message, after.as_str()) {
            return "unterminated escape sequence".to_owned();
        }
    }
    e
}

/// Whether a token is a line feed, and where it ends.
fn read_end(token: &brush_parser::Token) -> (r: (bool, usize))
    ensures
        r.0 == is_line_feed(token_of(*token)),
        r.1 == token_of(*token).end.index,
{
    match token {
        brush_parser::Token::Operator(s, l) => {
            let chars = text::chars_of(s.as_str());
            (text::reads(&chars, "\n"), l.end.index)
        },
        brush_parser::Token::Word(_, l) => (false, l.end.index),
    }
}

/// A position, or the end of a text where it lies beyond that; `end` is the line
/// and the column of the end.
fn keep_position(p: &brush_parser::SourcePosition, src: &[char], end: (u128, u128)) -> (r:
    std::sync::Arc<brush_parser::SourcePosition>)
    requires
        end.0 == end_line(src@) <= src@.len() + 1,
        end.1 == end_column(src@) <= src@.len() + 1,
    ensures
        position_of(*r) == position_in(position_of(*p), src@),
{
    let (index, line, column): (usize, usize, usize) = if p.index > src.len() {
        (src.len(), end.0 as usize, end.1 as usize)
    } else {
        (p.index, p.line, p.column)
    };
    std::sync::Arc::new(brush_parser::SourcePosition { index, line, column })
}

/// A token with its places in a text.
fn keep_token(t: &brush_parser::Token, src: &[char], end: (u128, u128)) -> (r: brush_parser::Token)
    requires
        end.0 == end_line(src@) <= src@.len() + 1,
        end.1 == end_column(src@) <= src@.len() + 1,
    ensures
        token_of(r) == token_in(token_of(*t), src@),
{
    match t {
        brush_parser::Token::Operator(s, l) => brush_parser::Token::Operator(
            s.as_str().to_owned(),
            brush_parser::SourceSpan {
                start: keep_position(&l.start, src, end),
                end: keep_position(&l.end, src, end),
            },
        ),
        brush_parser::Token::Word(s, l) => brush_parser::Token::Word(
            s.as_str().to_owned(),
            brush_parser::SourceSpan {
                start: keep_position(&l.start, src, end),
                end: keep_position(&l.end, src, end),
            },
        ),
    }
}

/// Whether the token at `i` is an empty here-document with an empty tag that the
/// end of a text ends together with another one; `ended` says whether the first of
/// the line feeds after the text is a token of its own.
fn is_ended_at_once(
    tokens: &Vec<brush_parser::Token>,
    n: usize,
    i: usize,
    ended: bool,
) -> (r: bool)
    requires
        i < tokens@.len(),
        ended == ends_a_line(tokens_of(tokens@), n as nat),
    ensures
        r == ends_at_once(tokens_of(tokens@), n as nat, i as int),
{
    if ended || !holds_body(tokens, i) {
        return false;
    }
    let body = read_text(&tokens[i]);
    let tag = text::string_of(&read_text(&tokens[i - 1]));
    let name = text::chars_of(brush_parser::unquote_str(tag.as_str()).as_str());
    body.len() == 0 && name.len() == 0
}

/// Whether the token at `i` has taken line feeds after a text of `n` characters
/// that go into something which the text leaves open.
fn is_left_open(tokens: &Vec<brush_parser::Token>, n: usize, i: usize, ended: bool) -> (r: bool)
    requires
        i < tokens@.len(),
        ended == ends_a_line(tokens_of(tokens@), n as nat),
    ensures
        r == left_open(tokens_of(tokens@), n as nat, i as int),
{
    let (feed, end) = read_end(&tokens[i]);
    !feed && end > n && end - 1 > n && !is_ended_at_once(tokens, n, i, ended) && !(i > 0
        && is_ended_at_once(tokens, n, i - 1, ended))
}

/// What is said of the tags of the here-documents that a text of `n` characters
/// leaves open: the names, the places, and whether the last ends beyond the text.
fn read_open_tags(tokens: &Vec<brush_parser::Token>, n: usize, ended: bool) -> (r: (
    String,
    String,
    bool,
))
    requires
        ended == ends_a_line(tokens_of(tokens@), n as nat),
    ensures
        ({
            let tags = open_tags(tokens_of(tokens@), n as nat, tokens@.len() as int);
            &&& r.0@ == tag_names(tags)
            &&& r.1@ == tag_places(tags)
            &&& r.2 == (tags.len() > 0 && tags.last().end.index > n)
        }),
{
    let ghost all = tokens_of(tokens@);
    let mut names = String::new();
    let mut places = String::new();
    let mut count: usize = 0;
    let mut beyond: bool = false;
    let mut i: usize = 0;
    while i < tokens.len()
        invariant
            i <= tokens@.len(),
            count <= i,
            all == tokens_of(tokens@),
            ended == ends_a_line(all, n as nat),
            names@ == tag_names(open_tags(all, n as nat, i as int)),
            places@ == tag_places(open_tags(all, n as nat, i as int)),
            count == open_tags(all, n as nat, i as int).len(),
            beyond == (count > 0 && open_tags(all, n as nat, i as int).last().end.index > n),
        decreases tokens@.len() - i,
    {
        let ghost tags = open_tags(all, n as nat, i as int);
        let (_, end) = read_end(&tokens[i]);
        if holds_body(tokens, i) && (is_left_open(tokens, n, i, ended) || (end > n && end - 1 > n
            && count > 0)) {
            let ghost more = tags.push(all[i - 1]);
            assert(more.drop_last() =~= tags);
            assert(more == open_tags(all, n as nat, i + 1));
            let tag = read_text(&tokens[i - 1]);
            let at = end_of(&tokens[i - 1]);
            if count > 0 {
                names.append(", ");
                places.append(", ");
            }
            let name = text::string_of(text::strip(&tag));
            names.append(name.as_str());
            let spot = place_of(at.line as u128, at.column as u128);
            places.append(spot.as_str());
            beyond = at.index > n;
            count = count + 1;
            proof {
                if tags.len() == 0 {
                    assert(names@ =~= text::trim(more[0].text));
                    assert(places@ =~= place(more[0].end.line as nat, more[0].end.column as nat));
                }
            }
        }
        i = i + 1;
    }
    (names, places, beyond)
}

/// Where a token ends.
fn end_of(t: &brush_parser::Token) -> (r: Position)
    ensures
        r == token_of(*t).end,
{
    match t {
        brush_parser::Token::Operator(_, l) => Position {
            index: l.end.index,
            line: l.end.line,
            column: l.end.column,
        },
        brush_parser::Token::Word(_, l) => Position {
            index: l.end.index,
            line: l.end.line,
            column: l.end.column,
        },
    }
}

/// The tokens of the text `src`, of those that it has with line feeds after it,
/// or why it has none.
pub fn keep_own(tokens: Vec<brush_parser::Token>, src: &str) -> (r: Result<
    Vec<brush_parser::Token>,
    String,
>)
    ensures
        match r {
            Ok(t) => own_tokens(tokens_of(tokens@), src@) == Ok::<Seq<TokenModel>, Seq<char>>(
                tokens_of(t@),
            ),
            Err(e) => own_tokens(tokens_of(tokens@), src@) == Err::<Seq<TokenModel>, Seq<char>>(
                e@,
            ),
        },
{
    let ghost all = tokens_of(tokens@);
    let chars = text::chars_of(src);
    let n = chars.len();
    let mut ended: bool = false;
    let mut i: usize = 0;
    while i < tokens.len()
        invariant
            i <= tokens@.len(),
            all == tokens_of(tokens@),
            ended <==> exists|k: int|
                0 <= k < i && is_line_feed(#[trigger] all[k]) && all[k].end.index == n + 1,
        decreases tokens@.len() - i,
    {
        let (feed, end) = read_end(&tokens[i]);
        assert(all[i as int] == token_of(tokens@[i as int]));
        if feed && end > n && end - 1 == n {
            ended = true;
        }
        i = i + 1;
    }
    let mut broken: bool = false;
    i = 0;
    while i < tokens.len()
        invariant
            i <= tokens@.len(),
            all == tokens_of(tokens@),
            ended == ends_a_line(all, n as nat),
            broken <==> exists|k: int| 0 <= k < i && #[trigger] left_open(all, n as nat, k),
        decreases tokens@.len() - i,
    {
        if is_left_open(&tokens, n, i, ended) {
            broken = true;
        }
        i = i + 1;
    }
    let escape = n > 0 && chars[n - 1] == '\\';
    if broken {
        let (names, places, beyond) = read_open_tags(&tokens, n, ended);
        if escape && beyond {
            return Err("unterminated escape sequence".to_owned());
        }
        let mut message = "unterminated here document sequence; tag(s) [".to_owned();
        message.append(names.as_str());
        message.append("] found at: [");
        message.append(places.as_str());
        message.append("]");
        return Err(message);
    }
    if escape && !ended {
        return Err("unterminated escape sequence".to_owned());
    }
    let mut count: usize = tokens.len();
    assert(all.take(count as int) =~= all);
    while count > 0
        invariant_except_break
            count <= tokens@.len(),
            all == tokens_of(tokens@),
            within(all, n as nat) == within(all.take(count as int), n as nat),
        ensures
            count <= tokens@.len(),
            within(all, n as nat) == all.take(count as int),
        decreases count,
    {
        let (feed, end) = read_end(&tokens[count - 1]);
        assert(all.take(count as int).last() == token_of(tokens@[count - 1]));
        if !feed || end <= n {
            break;
        }
        assert(all.take(count as int).drop_last() =~= all.take(count - 1));
        count = count - 1;
    }
    let end = find_end(&chars);
    let mut kept: Vec<brush_parser::Token> = Vec::new();
    let mut k: usize = 0;
    while k < count
        invariant
            k <= count <= tokens@.len(),
            all == tokens_of(tokens@),
            chars@ == src@,
            end.0 == end_line(src@) <= src@.len() + 1,
            end.1 == end_column(src@) <= src@.len() + 1,
            kept@.len() == k,
            forall|m: int| 0 <= m < k ==> token_of(#[trigger] kept@[m]) == token_in(all[m], src@),
        decreases count - k,
    {
        let token = keep_token(&tokens[k], &chars, end);
        kept.push(token);
        k = k + 1;
    }
    assert(tokens_of(kept@) =~= all.take(count as int).map_values(
        |t: TokenModel| token_in(t, src@),
    ));
    Ok(kept)
}

/// The tokens of a text, or why it has none.
fn read_tokens(src: &str) -> (r: Result<Vec<brush_parser::Token>, String>)
    ensures
        match r {
            Ok(t) => tokens_in(src@) == Ok::<Seq<TokenModel>, Seq<char>>(tokens_of(t@)),
            Err(e) => tokens_in(src@) == Err::<Seq<TokenModel>, Seq<char>>(e@),
        },
{
    if !can_hold_here_document(src) {
        return tokenize(src);
    }
    let text = ease_out(src);
    match tokenize(text.as_str()) {
        Ok(tokens) => keep_own(tokens, src),
        Err(e) => Err(keep_message(e, src)),
    }
}

/// `brush_parser::parse_tokens` with the default options, and with the error as
/// its message. Which program tokens make is left to the outside crate; it is
/// seen through the simple commands that it holds. The outside function panics
/// on a descriptor number that is no `i32`, and on a directory-stack index (a `~`
/// with a number) that is no `usize`; it meets such an index only in the braces of
/// an expansion in the index of a word that it takes for an array element. So
/// neither may occur. Nothing is said of programs that are nested too deeply for
/// the stack.
#[verifier::external_body]
fn parse(tokens: &Vec<brush_parser::Token>) -> (r: Result<brush_parser::ast::Program, String>)
    requires
        forall|i: int|
            0 <= i < tokens@.len() ==> !#[trigger] big_descriptor(tokens_of(tokens@), i),
        forall|i: int|
            0 <= i < tokens@.len() && !tokens_of(tokens@)[i].operator ==> !#[trigger] big_index(
                tokens_of(tokens@)[i].text,
            ),
    ensures
        match r {
            Ok(p) => shell_commands(tokens_of(tokens@)) == Ok::<
                Seq<shell::InvocationModel>,
                Seq<char>,
            >(shell::in_program(p)),
            Err(e) => shell_commands(tokens_of(tokens@)) == Err::<
                Seq<shell::InvocationModel>,
                Seq<char>,
            >(e@),
        },
{
    brush_parser::parse_tokens(tokens, &brush_parser::ParserOptions::default()).map_err(
        |e| e.to_string(),
    )
}

/// Whether the token at `i` is a number that stands directly before a
/// redirection and is no `i32`.
pub open spec fn big_descriptor(tokens: Seq<TokenModel>, i: int) -> bool {
    &&& !tokens[i].operator
    &&& text::all_digits(tokens[i].text)
    &&& tokens[i].text.len() == 0 || text::number(tokens[i].text) > i32::MAX
    &&& i + 1 < tokens.len()
    &&& tokens[i + 1].operator
    &&& tokens[i + 1].text.len() > 0
    &&& tokens[i + 1].text[0] == '<' || tokens[i + 1].text[0] == '>'
    &&& tokens[i].end.index == tokens[i + 1].start.index
}

/// The tokens with every number too large for a descriptor cut down to the
/// largest one, and without the tildes of words with one too large for a
/// directory-stack index.
pub open spec fn cut_down(tokens: Seq<TokenModel>) -> Seq<TokenModel> {
    Seq::new(
        tokens.len(),
        |i: int|
            if big_descriptor(tokens, i) {
                TokenModel { text: "2147483647"@, ..tokens[i] }
            } else if !tokens[i].operator && big_index(tokens[i].text) {
                TokenModel { text: without_tildes(tokens[i].text), ..tokens[i] }
            } else {
                tokens[i]
            },
    )
}

/// Where the run of digits of `s` that starts at `from` ends.
pub open spec fn digits_end(s: Seq<char>, from: int) -> int
    decreases s.len() - from,
{
    if 0 <= from < s.len() && text::is_digit(s[from]) {
        digits_end(s, from + 1)
    } else {
        from
    }
}

/// Where the digits after a `~` at `at` start: a sign may stand before them.
pub open spec fn index_start(s: Seq<char>, at: int) -> int {
    if at + 1 < s.len() && (s[at + 1] == '+' || s[at + 1] == '-') {
        at + 2
    } else {
        at + 1
    }
}

/// Whether a `~` stands at `at`, with a number after it that is no `usize` and is
/// all that follows up to `/`, `:`, `;`, `}` or the end.
pub open spec fn big_index_at(s: Seq<char>, at: int) -> bool {
    let from = index_start(s, at);
    let to = digits_end(s, from);
    &&& s[at] == '~'
    &&& text::number(s.subrange(from, to)) > usize::MAX
    &&& to == s.len() || s[to] == '/' || s[to] == ':' || s[to] == ';' || s[to] == '}'
}

/// Whether a character can stand in the name of a variable.
pub open spec fn is_name_char(c: char) -> bool {
    c == '_' || 'a' <= c <= 'z' || 'A' <= c <= 'Z' || text::is_digit(c)
}

/// Where the run of characters of a name that starts at `from` ends.
pub open spec fn name_end(s: Seq<char>, from: int) -> int
    decreases s.len() - from,
{
    if 0 <= from < s.len() && is_name_char(s[from]) {
        name_end(s, from + 1)
    } else {
        from
    }
}

/// Whether a word starts with the name of a variable and the `[` of an index
/// after it.
pub open spec fn indexed(s: Seq<char>) -> bool {
    let n = name_end(s, 0);
    0 < n < s.len() && !text::is_digit(s[0]) && s[n] == '['
}

/// Whether a `$` at `i` opens something, or quotes what follows.
pub open spec fn opens_at(s: Seq<char>, i: int) -> bool {
    s[i] == '$' && i + 1 < s.len() && (s[i + 1] == '{' || s[i + 1] == '(' || s[i + 1] == '['
        || s[i + 1] == '\'' || s[i + 1] == '"')
}

/// Where, from `i` on in an index, something comes that may hold an expansion, or
/// the length of the word where the index ends before that. Text between single
/// quotes holds none; a `]` ends the index unless `nested` says that a bracket was
/// opened in it.
pub open spec fn open_from(s: Seq<char>, i: int, nested: bool) -> int
    decreases s.len() - i,
{
    proof {
        if 0 <= i < s.len() {
            text::lemma_find(s.skip(i + 1), '\'');
        }
    }
    if !(0 <= i < s.len()) {
        s.len() as int
    } else if s[i] == '\'' {
        let e = i + 1 + text::find(s.skip(i + 1), '\'');
        if e < s.len() {
            open_from(s, e + 1, nested)
        } else {
            i
        }
    } else if s[i] == ']' && !nested {
        s.len() as int
    } else if s[i] == '"' || s[i] == '\\' || s[i] == '`' || opens_at(s, i) {
        i
    } else {
        open_from(s, i + 1, nested || s[i] == '(' || s[i] == '[')
    }
}

/// Whether a word can name an element of an array and, inside the braces of an
/// expansion in the index, has a `~` with a number after it that is no `usize`.
pub open spec fn big_index(s: Seq<char>) -> bool {
    let from = open_from(s, name_end(s, 0) + 1, false);
    indexed(s) && exists|at: int|
        from + text::find(s.skip(from), '{') < at < s.len() && #[trigger] big_index_at(s, at)
}

/// The word with `_` in place of every `~`.
pub open spec fn without_tildes(s: Seq<char>) -> Seq<char> {
    Seq::new(
        s.len(),
        |i: int|
            if s[i] == '~' {
                '_'
            } else {
                s[i]
            },
    )
}

/// The simple commands, in order, of the program that tokens make, or why there
/// are none.
pub open spec fn commands_in(tokens: Seq<TokenModel>) -> Result<Seq<shell::InvocationModel>, Seq<char>> {
    shell_commands(cut_down(tokens))
}

proof fn lemma_digits_end(s: Seq<char>, from: int)
    requires
        0 <= from <= s.len(),
    ensures
        from <= digits_end(s, from) <= s.len(),
        forall|k: int| from <= k < digits_end(s, from) ==> text::is_digit(#[trigger] s[k]),
    decreases s.len() - from,
{
    if from < s.len() && text::is_digit(s[from]) {
        lemma_digits_end(s, from + 1);
    }
}

/// Whether a character can stand in the name of a variable.
fn can_stand_in_name(c: char) -> (r: bool)
    ensures
        r == is_name_char(c),
{
    c == '_' || ('a' <= c && c <= 'z') || ('A' <= c && c <= 'Z') || ('0' <= c && c <= '9')
}

/// Whether a word starts with the name of a variable and the `[` of an index
/// after it, and where the name ends.
fn find_index(s: &[char]) -> (r: Option<usize>)
    ensures
        match r {
            Some(n) => indexed(s@) && n == name_end(s@, 0) && n < s@.len(),
            None => !indexed(s@),
        },
{
    let mut n: usize = 0;
    while n < s.len() && can_stand_in_name(s[n])
        invariant
            n <= s@.len(),
            name_end(s@, 0) == name_end(s@, n as int),
        decreases s@.len() - n,
    {
        n = n + 1;
    }
    if n == 0 || n >= s.len() || ('0' <= s[0] && s[0] <= '9') || s[n] != '[' {
        return None;
    }
    Some(n)
}

/// Where, from `from` on in an index, something comes that may hold an expansion,
/// or the length of the word.
fn find_open(s: &[char], from: usize) -> (r: usize)
    requires
        from <= s@.len(),
    ensures
        r == open_from(s@, from as int, false),
        r <= s@.len(),
{
    let mut nested: bool = false;
    let mut i: usize = from;
    while i < s.len()
        invariant
            from <= i <= s@.len(),
            open_from(s@, from as int, false) == open_from(s@, i as int, nested),
        decreases s@.len() - i,
    {
        let c = s[i];
        if c == '\'' {
            let rest = vstd::slice::slice_subrange(s, i + 1, s.len());
            assert(rest@ =~= s@.skip(i + 1));
            let e = text::position(rest, '\'');
            if e >= rest.len() {
                return i;
            }
            i = i + 2 + e;
        } else if c == ']' && !nested {
            return s.len();
        } else if c == '"' || c == '\\' || c == '`' || (c == '$' && s.len() - i > 1 && (s[i + 1]
            == '{' || s[i + 1] == '(' || s[i + 1] == '[' || s[i + 1] == '\'' || s[i + 1] == '"')) {
            return i;
        } else {
            nested = nested || c == '(' || c == '[';
            i = i + 1;
        }
    }
    s.len()
}

/// Whether a word can name an element of an array and, inside the braces of an
/// expansion in the index, has a `~` with a number after it that is no `usize`.
pub fn has_big_index(s: &[char]) -> (r: bool)
    ensures
        r == big_index(s@),
{
    let len = s.len();
    let open = match find_index(s) {
        Some(n) => find_open(s, n + 1),
        None => {
            return false;
        },
    };
    let rest = vstd::slice::slice_subrange(s, open, len);
    assert(rest@ =~= s@.skip(open as int));
    let brace = open + text::position(rest, '{');
    proof {
        text::lemma_find(rest@, '{');
    }
    let mut at: usize = brace;
    while at < s.len()
        invariant
            open == open_from(s@, name_end(s@, 0) + 1, false),
            brace == open + text::find(s@.skip(open as int), '{'),
            brace <= at <= s@.len(),
            indexed(s@),
            brace < s@.len() ==> s@[brace as int] == '{',
            forall|k: int| brace < k < at ==> !#[trigger] big_index_at(s@, k),
        decreases s@.len() - at,
    {
        if s[at] == '~' {
            let from: usize = if at + 1 < s.len() && (s[at + 1] == '+' || s[at + 1] == '-') {
                at + 2
            } else {
                at + 1
            };
            let mut to: usize = from;
            while to < s.len() && '0' <= s[to] && s[to] <= '9'
                invariant
                    from <= to <= s@.len(),
                    digits_end(s@, from as int) == digits_end(s@, to as int),
                decreases s@.len() - to,
            {
                to = to + 1;
            }
            proof {
                lemma_digits_end(s@, from as int);
            }
            if to == s.len() || s[to] == '/' || s[to] == ':' || s[to] == ';' || s[to] == '}' {
                let digits = vstd::slice::slice_subrange(s, from, to);
                if text::number_up_to(digits, usize::MAX as u64).is_none() {
                    assert(big_index_at(s@, at as int));
                    return true;
                }
            }
        }
        at = at + 1;
    }
    false
}

proof fn lemma_largest_descriptor()
    ensures
        "2147483647"@.len() == 10,
        text::number("2147483647"@) == i32::MAX,
        !big_index("2147483647"@),
{
    reveal_strlit("2147483647");
    let s = "2147483647"@;
    reveal_with_fuel(text::number, 11);
    assert(text::number(s) == i32::MAX);
}

/// The word with `_` in place of every `~`.
fn drop_tildes(s: &[char]) -> (r: String)
    ensures
        r@ == without_tildes(s@),
{
    let mut out: Vec<char> = Vec::new();
    let mut i: usize = 0;
    while i < s.len()
        invariant
            i <= s@.len(),
            out@ == without_tildes(s@).take(i as int),
        decreases s@.len() - i,
    {
        out.push(
            if s[i] == '~' {
                '_'
            } else {
                s[i]
            },
        );
        i = i + 1;
        assert(out@ =~= without_tildes(s@).take(i as int));
    }
    assert(without_tildes(s@).take(i as int) =~= without_tildes(s@));
    text::string_of(&out)
}

/// Cut every number too large for a descriptor down to the largest one, and take
/// the tildes out of words with one too large for a directory-stack index.
pub fn cut_down_numbers(tokens: &mut Vec<brush_parser::Token>)
    ensures
        tokens_of(final(tokens)@) == cut_down(tokens_of(old(tokens)@)),
{
    let ghost all = tokens_of(tokens@);
    let mut i: usize = 0;
    while i < tokens.len()
        invariant
            i <= tokens@.len(),
            tokens@.len() == all.len(),
            forall|k: int| 0 <= k < i ==> token_of(#[trigger] tokens@[k]) == cut_down(all)[k],
            forall|k: int| i <= k < all.len() ==> token_of(#[trigger] tokens@[k]) == all[k],
        decreases tokens@.len() - i,
    {
        assert(token_of(tokens@[i as int]) == all[i as int]);
        assert(i + 1 < all.len() ==> token_of(tokens@[i + 1]) == all[i + 1]);
        let word = read_text(&tokens[i]);
        let harmless = if is_big_descriptor(tokens, i) {
            Some("2147483647".to_owned())
        } else if !is_operator(&tokens[i]) && has_big_index(&word) {
            Some(drop_tildes(&word))
        } else {
            None
        };
        if let Some(value) = harmless {
            if let brush_parser::Token::Word(_, l) = &tokens[i] {
                let start = std::sync::Arc::new(
                    brush_parser::SourcePosition {
                        index: l.start.index,
                        line: l.start.line,
                        column: l.start.column,
                    },
                );
                let end = std::sync::Arc::new(
                    brush_parser::SourcePosition {
                        index: l.end.index,
                        line: l.end.line,
                        column: l.end.column,
                    },
                );
                let token = brush_parser::Token::Word(
                    value,
                    brush_parser::SourceSpan { start, end },
                );
                tokens.set(i, token);
            }
        }
        i = i + 1;
    }
    assert(tokens_of(tokens@) =~= cut_down(all));
}

/// Whether the token at `i` is a number that stands directly before a
/// redirection and is no `i32`.
fn is_big_descriptor(tokens: &Vec<brush_parser::Token>, i: usize) -> (r: bool)
    requires
        i < tokens@.len(),
    ensures
        r == big_descriptor(tokens_of(tokens@), i as int),
{
    let ghost all = tokens_of(tokens@);
    if i >= tokens.len() - 1 {
        return false;
    }
    match (&tokens[i], &tokens[i + 1]) {
        (brush_parser::Token::Word(w, l), brush_parser::Token::Operator(o, m)) => {
            assert(all[i as int].text == w@ && all[i + 1].text == o@);
            let digits = text::chars_of(w.as_str());
            let op = text::chars_of(o.as_str());
            if !text::only_digits(&digits) || op.len() == 0 || (op[0] != '<' && op[0] != '>')
                || l.end.index != m.start.index {
                return false;
            }
            digits.len() == 0 || text::number_up_to(&digits, i32::MAX as u64).is_none()
        },
        _ => {
            assert(all[i as int] == token_of(tokens@[i as int]));
            assert(all[i + 1] == token_of(tokens@[i + 1]));
            false
        },
    }
}

/// The simple commands, in order, of the program that tokens make, or why there
/// are none.
pub fn parse_tokens(tokens: Vec<brush_parser::Token>) -> (r: Result<
    Vec<shell::Invocation>,
    String,
>)
    ensures
        match r {
            Ok(v) => commands_in(tokens_of(tokens@)) == Ok::<
                Seq<shell::InvocationModel>,
                Seq<char>,
            >(shell::views(v@)),
            Err(e) => commands_in(tokens_of(tokens@)) == Err::<
                Seq<shell::InvocationModel>,
                Seq<char>,
            >(e@),
        },
{
    let ghost all = tokens_of(tokens@);
    let mut tokens = tokens;
    cut_down_numbers(&mut tokens);
    assert(tokens_of(tokens@).len() == all.len());
    proof {
        lemma_cut_down(all);
        assert forall|i: int| 0 <= i < tokens@.len() implies !#[trigger] big_descriptor(
            tokens_of(tokens@),
            i,
        ) by {}
        assert forall|i: int|
            0 <= i < tokens@.len() && !tokens_of(tokens@)[i].operator implies !#[trigger] big_index(
            tokens_of(tokens@)[i].text,
        ) by {}
    }
    match parse(&tokens) {
        Ok(program) => Ok(shell::commands_of(&program)),
        Err(e) => Err(e),
    }
}

proof fn lemma_without_tildes(s: Seq<char>)
    ensures
        !big_index(without_tildes(s)),
{
    let t = without_tildes(s);
    assert forall|at: int| 0 <= at < t.len() implies !#[trigger] big_index_at(t, at) by {
        assert(t[at] != '~');
    }
    let from = open_from(t, name_end(t, 0) + 1, false);
    if indexed(t) {
        lemma_name_end(t, 0);
        lemma_open_from(t, name_end(t, 0) + 1, false);
        text::lemma_find(t.skip(from), '{');
    }
}

proof fn lemma_name_end(s: Seq<char>, from: int)
    requires
        0 <= from <= s.len(),
    ensures
        from <= name_end(s, from) <= s.len(),
    decreases s.len() - from,
{
    if from < s.len() && is_name_char(s[from]) {
        lemma_name_end(s, from + 1);
    }
}

proof fn lemma_open_from(s: Seq<char>, i: int, nested: bool)
    requires
        0 <= i <= s.len(),
    ensures
        i <= open_from(s, i, nested) <= s.len(),
    decreases s.len() - i,
{
    if i < s.len() {
        text::lemma_find(s.skip(i + 1), '\'');
        let e = i + 1 + text::find(s.skip(i + 1), '\'');
        if s[i] == '\'' {
            if e < s.len() {
                lemma_open_from(s, e + 1, nested);
            }
        } else {
            lemma_open_from(s, i + 1, nested || s[i] == '(' || s[i] == '[');
        }
    }
}

proof fn lemma_cut_down(tokens: Seq<TokenModel>)
    ensures
        forall|i: int| 0 <= i < tokens.len() ==> !#[trigger] big_descriptor(cut_down(tokens), i),
        forall|i: int|
            0 <= i < tokens.len() && !cut_down(tokens)[i].operator ==> !#[trigger] big_index(
                cut_down(tokens)[i].text,
            ),
{
    lemma_largest_descriptor();
    let t = cut_down(tokens);
    assert forall|i: int| 0 <= i < tokens.len() implies !#[trigger] big_descriptor(t, i) by {
        if i + 1 < tokens.len() {
            assert(tokens[i + 1].operator ==> t[i + 1] == tokens[i + 1]);
            let s = tokens[i].text;
            if !tokens[i].operator && big_index(s) {
                let n = name_end(s, 0);
                assert(without_tildes(s)[n] == '[');
            }
        }
    }
    assert forall|i: int| 0 <= i < tokens.len() && !t[i].operator implies !#[trigger] big_index(
        t[i].text,
    ) by {
        lemma_without_tildes(tokens[i].text);
    }
}

// ---------------------------------------------------------------------------
// Programs

/// A shell program: its simple commands, and the words in which a shell expands
/// commands.
#[derive(Debug)]
pub struct Script {
    /// The simple commands, in order.
    pub commands: Vec<shell::Invocation>,
    /// The words, in order; those that make up commands are among them.
    pub words: Vec<shell::ShellWord>,
    /// The here-documents, in order, but for those with a quoted tag, which a
    /// shell takes as they are.
    pub bodies: Vec<shell::ShellWord>,
}

/// The model of a [`Script`].
#[verifier::ext_equal]
pub struct ScriptModel {
    /// The simple commands.
    pub commands: Seq<shell::InvocationModel>,
    /// The words.
    pub words: Seq<shell::WordModel>,
    /// The here-documents that a shell expands.
    pub bodies: Seq<shell::WordModel>,
}

impl View for Script {
    type V = ScriptModel;

    open spec fn view(&self) -> ScriptModel {
        ScriptModel {
            commands: shell::views(self.commands@),
            words: shell::word_views(self.words@),
            bodies: shell::word_views(self.bodies@),
        }
    }
}

/// Whether a token opens a here-document.
pub open spec fn opens_body(t: TokenModel) -> bool {
    t.operator && (t.text == "<<"@ || t.text == "<<-"@)
}

/// Whether the token at `i` is a here-document: it follows the tag.
pub open spec fn is_body(tokens: Seq<TokenModel>, i: int) -> bool {
    2 <= i && opens_body(tokens[i - 2]) && !tokens[i - 1].operator && !tokens[i].operator
}

/// Whether the tag of a here-document is quoted.
pub open spec fn is_quoted(s: Seq<char>) -> bool {
    s.contains('\'') || s.contains('"') || s.contains('\\')
}

/// A token as a word of a program.
pub open spec fn word_from(t: TokenModel) -> shell::WordModel {
    shell::WordModel {
        value: t.text,
        span: Some(
            shell::Span { start: t.start.index, end: t.end.index, line: t.start.line },
        ),
    }
}

/// The words among the first `n` tokens, here-documents left out.
pub open spec fn words_among(tokens: Seq<TokenModel>, n: int) -> Seq<shell::WordModel>
    decreases n,
{
    if n <= 0 {
        seq![]
    } else if !tokens[n - 1].operator && !is_body(tokens, n - 1) {
        words_among(tokens, n - 1).push(word_from(tokens[n - 1]))
    } else {
        words_among(tokens, n - 1)
    }
}

/// The here-documents among the first `n` tokens, those with a quoted tag left
/// out.
pub open spec fn bodies_among(tokens: Seq<TokenModel>, n: int) -> Seq<shell::WordModel>
    decreases n,
{
    if n <= 0 {
        seq![]
    } else if is_body(tokens, n - 1) && !is_quoted(tokens[n - 2].text) {
        bodies_among(tokens, n - 1).push(word_from(tokens[n - 1]))
    } else {
        bodies_among(tokens, n - 1)
    }
}

/// The program that tokens make, or why they make none.
pub open spec fn script_in(tokens: Seq<TokenModel>) -> Result<ScriptModel, Seq<char>> {
    match commands_in(tokens) {
        Ok(commands) => Ok(
            ScriptModel {
                commands,
                words: words_among(tokens, tokens.len() as int),
                bodies: bodies_among(tokens, tokens.len() as int),
            },
        ),
        Err(e) => Err(e),
    }
}

/// The shell program `src`, or why it cannot be parsed.
pub open spec fn parsed(src: Seq<char>) -> Result<ScriptModel, Seq<char>> {
    match tokens_in(src) {
        Ok(tokens) => script_in(tokens),
        Err(e) => Err(e),
    }
}

/// The characters of a token.
fn read_text(token: &brush_parser::Token) -> (r: Vec<char>)
    ensures
        r@ == token_of(*token).text,
{
    match token {
        brush_parser::Token::Operator(s, _) => text::chars_of(s.as_str()),
        brush_parser::Token::Word(s, _) => text::chars_of(s.as_str()),
    }
}

/// Whether a token is an operator.
fn is_operator(token: &brush_parser::Token) -> (r: bool)
    ensures
        r == token_of(*token).operator,
{
    match token {
        brush_parser::Token::Operator(_, _) => true,
        brush_parser::Token::Word(_, _) => false,
    }
}

/// Whether the token at `i` is a here-document.
fn holds_body(tokens: &Vec<brush_parser::Token>, i: usize) -> (r: bool)
    requires
        i < tokens@.len(),
    ensures
        r == is_body(tokens_of(tokens@), i as int),
{
    if i < 2 {
        return false;
    }
    let operator = read_text(&tokens[i - 2]);
    is_operator(&tokens[i - 2]) && (text::reads(&operator, "<<") || text::reads(&operator, "<<-"))
        && !is_operator(&tokens[i - 1]) && !is_operator(&tokens[i])
}

/// A token as a word of a program.
fn read_word(token: &brush_parser::Token) -> (r: shell::ShellWord)
    ensures
        r@ == word_from(token_of(*token)),
{
    let value = text::string_of(&read_text(token));
    let span = match token {
        brush_parser::Token::Operator(_, l) => shell::Span {
            start: l.start.index,
            end: l.end.index,
            line: l.start.line,
        },
        brush_parser::Token::Word(_, l) => shell::Span {
            start: l.start.index,
            end: l.end.index,
            line: l.start.line,
        },
    };
    shell::ShellWord { value, span: Some(span) }
}

/// The program that tokens make, or why they make none.
pub fn script_of(tokens: Vec<brush_parser::Token>) -> (r: Result<Script, String>)
    ensures
        match r {
            Ok(p) => script_in(tokens_of(tokens@)) == Ok::<ScriptModel, Seq<char>>(p@),
            Err(e) => script_in(tokens_of(tokens@)) == Err::<ScriptModel, Seq<char>>(e@),
        },
{
    let ghost all = tokens_of(tokens@);
    let mut words: Vec<shell::ShellWord> = Vec::new();
    let mut bodies: Vec<shell::ShellWord> = Vec::new();
    let mut i: usize = 0;
    assert(shell::word_views(words@) =~= seq![]);
    assert(shell::word_views(bodies@) =~= seq![]);
    while i < tokens.len()
        invariant
            i <= tokens@.len(),
            all == tokens_of(tokens@),
            shell::word_views(words@) == words_among(all, i as int),
            shell::word_views(bodies@) == bodies_among(all, i as int),
        decreases tokens@.len() - i,
    {
        let ghost words_before = words@;
        let ghost bodies_before = bodies@;
        assert(all[i as int] == token_of(tokens@[i as int]));
        if holds_body(&tokens, i) {
            let tag = read_text(&tokens[i - 1]);
            if !text::contains(&tag, '\'') && !text::contains(&tag, '"') && !text::contains(
                &tag,
                '\\',
            ) {
                let word = read_word(&tokens[i]);
                bodies.push(word);
                assert(shell::word_views(bodies@) =~= shell::word_views(bodies_before).push(word@));
            }
        } else if !is_operator(&tokens[i]) {
            let word = read_word(&tokens[i]);
            words.push(word);
            assert(shell::word_views(words@) =~= shell::word_views(words_before).push(word@));
        }
        i = i + 1;
    }
    match parse_tokens(tokens) {
        Ok(commands) => Ok(Script { commands, words, bodies }),
        Err(e) => Err(e),
    }
}

/// The shell program `src`, or why it cannot be parsed.
pub fn parse_program(src: &str) -> (r: Result<Script, String>)
    ensures
        match r {
            Ok(p) => parsed(src@) == Ok::<ScriptModel, Seq<char>>(p@),
            Err(e) => parsed(src@) == Err::<ScriptModel, Seq<char>>(e@),
        },
{
    match read_tokens(src) {
        Ok(tokens) => script_of(tokens),
        Err(e) => Err(e),
    }
}

/// A word without its quoting: an escaped character stands for itself, and the
/// quote marks and the backslashes that escape go.
pub open spec fn unquoted(s: Seq<char>) -> Seq<char>
    decreases s.len(),
{
    if s.len() == 0 {
        seq![]
    } else if s[0] == '\\' {
        if s.len() == 1 {
            seq![]
        } else {
            seq![s[1]] + unquoted(s.skip(2))
        }
    } else if s[0] == '\'' || s[0] == '"' {
        unquoted(s.skip(1))
    } else {
        seq![s[0]] + unquoted(s.skip(1))
    }
}

/// `brush_parser::unquote_str` drops quote marks, single and double, wherever
/// they stand, and drops a backslash but keeps the character after it.
pub assume_specification[ brush_parser::unquote_str ](s: &str) -> (r: String)
    ensures
        r@ == unquoted(s@),
;

// ---------------------------------------------------------------------------
// Laws

/// A text in which no `<` follows another has the tokens that the outside crate
/// says, and a program whose numbers are all small has its commands.
pub proof fn law_the_parser_is_believed(s: Seq<char>, tokens: Seq<TokenModel>)
    ensures
        (forall|i: int| 0 <= i < s.len() - 1 && #[trigger] s[i] == '<' ==> s[i + 1] != '<')
            ==> tokens_in(s) == shell_tokens(s),
        (forall|i: int|
            0 <= i < tokens.len() && !(#[trigger] tokens[i]).operator ==> !tokens[i].text.contains('~')
                && (tokens[i].text.len() > 0 && (text::all_digits(tokens[i].text)
                ==> text::number(tokens[i].text) <= i32::MAX))) ==> commands_in(tokens)
            == shell_commands(tokens),
        commands_in(tokens) is Ok ==> script_in(tokens) is Ok && script_in(tokens)->Ok_0.commands
            == commands_in(tokens)->Ok_0,
        commands_in(tokens) is Err ==> script_in(tokens) is Err && script_in(tokens)->Err_0
            == commands_in(tokens)->Err_0,
        tokens_in(s) is Ok ==> parsed(s) == script_in(tokens_in(s)->Ok_0),
        tokens_in(s) is Err ==> parsed(s) is Err && parsed(s)->Err_0 == tokens_in(s)->Err_0,
{
    if forall|i: int|
        0 <= i < tokens.len() && !(#[trigger] tokens[i]).operator ==> !tokens[i].text.contains('~')
            && (tokens[i].text.len() > 0 && (text::all_digits(tokens[i].text) ==> text::number(
            tokens[i].text,
        ) <= i32::MAX)) {
        assert forall|i: int| 0 <= i < tokens.len() implies cut_down(tokens)[i] == tokens[i] by {
            if !tokens[i].operator {
                let t = tokens[i].text;
                if big_index(t) {
                    let from = open_from(t, name_end(t, 0) + 1, false);
                    let at = choose|at: int|
                        from + text::find(t.skip(from), '{') < at < t.len() && #[trigger]
                        big_index_at(t, at);
                    lemma_name_end(t, 0);
                    lemma_open_from(t, name_end(t, 0) + 1, false);
                    text::lemma_find(t.skip(from), '{');
                    assert(t.contains(t[at]));
                }
            }
        }
        assert(cut_down(tokens) =~= tokens);
    }
}

/// The tokens of a text are those that it has with line feeds after it, without
/// those of the line feeds.
pub proof fn law_line_feeds_after_a_text_change_nothing(
    s: Seq<char>,
    tokens: Seq<TokenModel>,
    feeds: Seq<TokenModel>,
)
    requires
        forall|i: int|
            0 <= i < tokens.len() ==> (#[trigger] tokens[i]).start.index <= s.len()
                && tokens[i].end.index <= s.len(),
        forall|i: int|
            0 <= i < feeds.len() ==> is_line_feed(#[trigger] feeds[i]) && feeds[i].end.index
                > s.len(),
        feeds.len() > 0 && feeds[0].end.index == s.len() + 1,
    ensures
        own_tokens(tokens + feeds, s) == Ok::<Seq<TokenModel>, Seq<char>>(tokens),
{
    let all = tokens + feeds;
    let n = s.len();
    assert(!broken_off(all, n)) by {
        assert forall|i: int| 0 <= i < all.len() implies !#[trigger] left_open(all, n, i) by {
            if i < tokens.len() {
                assert(all[i] == tokens[i]);
            } else {
                assert(all[i] == feeds[i - tokens.len()]);
            }
        }
    }
    assert(ends_a_line(all, n)) by {
        assert(all[tokens.len() as int] == feeds[0]);
    }
    lemma_within(tokens, feeds, n);
    assert(tokens.map_values(|t: TokenModel| token_in(t, s)) =~= tokens) by {
        assert forall|i: int| 0 <= i < tokens.len() implies token_in(#[trigger] tokens[i], s)
            == tokens[i] by {}
    }
}

proof fn lemma_within(tokens: Seq<TokenModel>, feeds: Seq<TokenModel>, n: nat)
    requires
        forall|i: int| 0 <= i < tokens.len() ==> (#[trigger] tokens[i]).end.index <= n,
        forall|i: int|
            0 <= i < feeds.len() ==> is_line_feed(#[trigger] feeds[i]) && feeds[i].end.index > n,
    ensures
        within(tokens + feeds, n) == tokens,
    decreases feeds.len(),
{
    let all = tokens + feeds;
    if feeds.len() == 0 {
        assert(all =~= tokens);
        if tokens.len() > 0 {
            assert(tokens.last() == tokens[tokens.len() - 1]);
        }
    } else {
        let less = feeds.drop_last();
        assert(all.last() == feeds[feeds.len() - 1]);
        assert(all.drop_last() =~= tokens + less);
        assert forall|i: int| 0 <= i < less.len() implies is_line_feed(#[trigger] less[i])
            && less[i].end.index > n by {
            assert(less[i] == feeds[i]);
        }
        lemma_within(tokens, less, n);
    }
}

/// The words of a program are its words, all of them and in order, but for the
/// here-documents; those are kept where a shell expands them.
pub proof fn law_every_word_is_kept(tokens: Seq<TokenModel>, n: int)
    requires
        0 <= n <= tokens.len(),
    ensures
        words_among(tokens, n) == Seq::new(
            n as nat,
            |i: int|
                if !tokens[i].operator && !is_body(tokens, i) {
                    seq![word_from(tokens[i])]
                } else {
                    seq![]
                },
        ).flatten(),
        bodies_among(tokens, n) == Seq::new(
            n as nat,
            |i: int|
                if is_body(tokens, i) && !tokens[i - 1].text.contains('\'') && !tokens[i
                    - 1].text.contains('"') && !tokens[i - 1].text.contains('\\') {
                    seq![word_from(tokens[i])]
                } else {
                    seq![]
                },
        ).flatten(),
        forall|i: int| #[trigger]
            is_body(tokens, i) ==> i >= 2 && !tokens[i].operator && !tokens[i - 1].operator
                && tokens[i - 2].operator && (tokens[i - 2].text == "<<"@ || tokens[i - 2].text
                == "<<-"@),
        forall|i: int|
            0 <= i < tokens.len() ==> (#[trigger] word_from(tokens[i])).value == tokens[i].text
                && word_from(tokens[i]).span == Some(
                shell::Span {
                    start: tokens[i].start.index,
                    end: tokens[i].end.index,
                    line: tokens[i].start.line,
                },
            ),
    decreases n,
{
    let f = |i: int|
        if !tokens[i].operator && !is_body(tokens, i) {
            seq![word_from(tokens[i])]
        } else {
            seq![]
        };
    let g = |i: int|
        if is_body(tokens, i) && !tokens[i - 1].text.contains('\'') && !tokens[i
            - 1].text.contains('"') && !tokens[i - 1].text.contains('\\') {
            seq![word_from(tokens[i])]
        } else {
            seq![]
        };
    if n > 0 {
        law_every_word_is_kept(tokens, n - 1);
        let words = Seq::new((n - 1) as nat, f);
        let bodies = Seq::new((n - 1) as nat, g);
        words.lemma_flatten_push(f(n - 1));
        bodies.lemma_flatten_push(g(n - 1));
        assert(Seq::new(n as nat, f) =~= words.push(f(n - 1)));
        assert(Seq::new(n as nat, g) =~= bodies.push(g(n - 1)));
        assert(words_among(tokens, n) =~= words_among(tokens, n - 1) + f(n - 1));
        assert(bodies_among(tokens, n) =~= bodies_among(tokens, n - 1) + g(n - 1));
    }
}

/// A message that names no place after the text is kept as it is; one that does
/// names the end of the text instead, by its line and its column.
pub proof fn law_messages_are_kept(e: Seq<char>, s: Seq<char>, rest: Seq<char>)
    ensures
        !"unterminated extglob near "@.is_prefix_of(e) && (s.len() == 0 || s.last() != '\\')
            ==> own_message(e, s) == e,
        !"unterminated extglob near "@.is_prefix_of(e)
            && !"unterminated here document sequence"@.is_prefix_of(e) ==> own_message(e, s) == e,
        own_message("unterminated extglob near "@ + rest, s) == "unterminated extglob near "@
            + text::decimal(end_line(s)) + ","@ + text::decimal(end_column(s)),
{
    let p = "unterminated extglob near "@;
    let full = p + rest;
    assert(full.subrange(0, p.len() as int) =~= p);
    let a = text::decimal(end_line(s));
    let b = text::decimal(end_column(s));
    assert(p + place(end_line(s), end_column(s)) =~= p + a + ","@ + b);
}

/// A text ends one line further for each line feed, and one column further for
/// each character since the last one.
pub proof fn law_where_a_text_ends(s: Seq<char>, line: Seq<char>)
    requires
        !line.contains('\n'),
    ensures
        end_line(s + seq!['\n'] + line) == end_line(s) + 1,
        end_column(s + seq!['\n'] + line) == line.len() + 1,
        end_line(line) == 1,
        end_column(line) == line.len() + 1,
    decreases line.len(),
{
    let t = s + seq!['\n'] + line;
    if line.len() == 0 {
        assert(t.last() == '\n');
        assert(t.drop_last() =~= s);
    } else {
        let init = line.drop_last();
        assert(line.contains(line[line.len() - 1]));
        assert forall|k: int| 0 <= k < init.len() implies #[trigger] init[k] != '\n' by {
            assert(line.contains(line[k]));
        }
        law_where_a_text_ends(s, init);
        assert(t.last() == line.last());
        assert(t.drop_last() =~= s + seq!['\n'] + init);
    }
}

} // verus!
