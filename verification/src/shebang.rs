//! The interpreter that a script names on its own `#!` line.
//!
//! This is what is left when neither the command line nor the block names one.
//! The line is taken apart here, since systems differ in how they split it.

use vstd::prelude::*;
use vstd::slice::slice_subrange;
use vstd::string::*;
use vstd::utf8::*;

use crate::interpreter;
use crate::text;
use crate::text::CharClass;

verus! {

/// What a `#!` line says.
#[derive(Debug, PartialEq, Eq)]
pub struct Shebang {
    /// The interpreter.
    pub interpreter: String,
    /// What it is given before the script.
    pub args: Vec<String>,
}

/// The words of a `#!` line; none where the line is no such line.
pub open spec fn line_words(bytes: Seq<u8>) -> Seq<Seq<char>> {
    let first = bytes.take(interpreter::line_one(bytes));
    if !valid_utf8(first) {
        seq![]
    } else {
        let line = text::trim_end(
            text::trim_start(decode_utf8(first), CharClass::ByteOrderMark),
            CharClass::CarriageReturn,
        );
        match text::without_prefix(line, "#!"@) {
            Some(rest) => text::words(text::trim(rest)),
            None => seq![],
        }
    }
}

/// `words` without the options that they start with.
pub open spec fn without_options(words: Seq<Seq<char>>) -> Seq<Seq<char>>
    decreases words.len(),
{
    if words.len() > 0 && "-"@.is_prefix_of(words[0]) {
        without_options(words.skip(1))
    } else {
        words
    }
}

/// The interpreter and its arguments: `env` and its options are not part of them.
pub open spec fn command_words(words: Seq<Seq<char>>) -> Seq<Seq<char>> {
    if words.len() > 0 && text::basename(words[0]) == "env"@ {
        without_options(words.skip(1))
    } else {
        words
    }
}

/// The interpreter and its arguments that the script names; none where it names
/// none, or names scriptbox itself.
pub open spec fn named(bytes: Seq<u8>) -> Seq<Seq<char>> {
    let words = command_words(line_words(bytes));
    if words.len() > 0 && text::basename(words[0]) == "scriptbox"@ {
        seq![]
    } else {
        words
    }
}

/// The words of a `#!` line; none where the line is no such line.
fn read_words(bytes: &[u8]) -> (r: Vec<String>)
    ensures
        text::texts(r@) == line_words(bytes@),
{
    let none: Vec<String> = Vec::new();
    assert(text::texts(none@) =~= seq![]);
    let end = interpreter::first_line_end(bytes);
    let chars = match text::decode(slice_subrange(bytes, 0, end)) {
        Some(chars) => chars,
        None => {
            return none;
        },
    };
    let line = text::strip_end(
        text::strip_start(&chars, CharClass::ByteOrderMark),
        CharClass::CarriageReturn,
    );
    match text::strip_prefix(line, "#!") {
        Some(rest) => text::split_words(text::strip(rest)),
        None => none,
    }
}

/// The interpreter that a script names on its `#!` line, and its arguments. Where
/// the line starts with `env`, what `env` would run is meant. A line that leads
/// back to scriptbox names no interpreter.
pub fn parse(bytes: &[u8]) -> (r: Option<Shebang>)
    ensures
        match r {
            Some(s) => named(bytes@) == seq![s.interpreter@] + text::texts(s.args@),
            None => named(bytes@).len() == 0,
        },
{
    let words = read_words(bytes);
    let ghost all = line_words(bytes@);
    if words.len() == 0 {
        assert(all.len() == 0);
        return None;
    }
    let first = text::chars_of(words[0].as_str());
    assert(all[0] == first@);
    let mut from: usize = 0;
    assert(all.skip(0) =~= all);
    if text::reads(text::base_of(&first), "env") {
        from = 1;
        while from < words.len() && is_option(words[from].as_str())
            invariant
                1 <= from <= words@.len(),
                all == text::texts(words@),
                without_options(all.skip(1)) == without_options(all.skip(from as int)),
            decreases words@.len() - from,
        {
            assert(all.skip(from as int)[0] == words@[from as int]@);
            assert(all.skip(from as int).skip(1) =~= all.skip(from + 1));
            from = from + 1;
        }
        if from < words.len() {
            assert(all.skip(from as int)[0] == words@[from as int]@);
        }
        assert(command_words(all) == all.skip(from as int));
    }
    assert(command_words(all) == all.skip(from as int));
    if from == words.len() {
        return None;
    }
    let interpreter = words[from].clone();
    assert(all.skip(from as int)[0] == interpreter@);
    let name = text::chars_of(interpreter.as_str());
    if text::reads(text::base_of(&name), "scriptbox") {
        return None;
    }
    let mut args: Vec<String> = Vec::new();
    let mut i: usize = from + 1;
    while i < words.len()
        invariant
            from + 1 <= i <= words@.len(),
            args@.len() == i - from - 1,
            forall|k: int| 0 <= k < args@.len() ==> (#[trigger] args@[k])@ == words@[from + 1 + k]@,
        decreases words@.len() - i,
    {
        args.push(words[i].clone());
        i = i + 1;
    }
    assert(all.skip(from as int) =~= seq![interpreter@] + text::texts(args@));
    Some(Shebang { interpreter, args })
}

/// Whether a word is an option.
fn is_option(word: &str) -> (r: bool)
    ensures
        r == "-"@.is_prefix_of(word@),
{
    let chars = text::chars_of(word);
    text::starts_with(&chars, "-")
}

/// A `#!` line never leads back to scriptbox.
pub proof fn law_no_recursion(bytes: Seq<u8>)
    requires
        named(bytes).len() > 0,
    ensures
        text::basename(named(bytes)[0]) != "scriptbox"@,
{
}

/// The first line of a script names its interpreter where it starts with `#!`: the
/// words after that, in order. A byte order mark before it and carriage returns at
/// its end are nothing. What follows the line makes no difference.
pub proof fn law_the_first_line_names_the_interpreter(
    bom: bool,
    rest: Seq<char>,
    ending: Seq<char>,
    body: Seq<u8>,
    more: bool,
)
    requires
        !rest.contains('\n'),
        rest.len() == 0 || rest.last() != '\r',
        forall|k: int| 0 <= k < ending.len() ==> #[trigger] ending[k] == '\r',
    ensures
        ({
            let line = (if bom {
                seq!['\u{feff}']
            } else {
                seq![]
            }) + "#!"@ + rest + ending;
            let script = if more {
                encode_utf8(line).push(0x0a) + body
            } else {
                encode_utf8(line)
            };
            line_words(script) == text::words(text::trim(rest))
        }),
{
    reveal_strlit("#!");
    let start = if bom {
        seq!['\u{feff}']
    } else {
        seq![]
    };
    let text = "#!"@ + rest;
    let line = start + "#!"@ + rest + ending;
    let bytes = encode_utf8(line);
    let script = if more {
        bytes.push(0x0a) + body
    } else {
        bytes
    };
    assert(line =~= start + (text + ending));
    assert(!line.contains('\n')) by {
        assert forall|k: int| 0 <= k < line.len() implies #[trigger] line[k] != '\n' by {
            let n = (start.len() + 2) as int;
            if n <= k < n + rest.len() {
                assert(line[k] == rest[k - n]);
                assert(rest.contains(rest[k - n]));
            } else if k >= n + rest.len() {
                assert(line[k] == ending[k - n - rest.len()]);
            }
        }
    }
    interpreter::lemma_one_line(line);
    assert forall|k: int| 0 <= k < bytes.len() implies #[trigger] script[k] != 0x0a by {
        assert(script[k] == bytes[k]);
        assert(bytes.contains(bytes[k]));
    }
    interpreter::lemma_line_one_unique(script, bytes.len() as int);
    assert(script.take(bytes.len() as int) =~= bytes);
    encode_utf8_valid_utf8(line);
    encode_utf8_decode_utf8(line);
    // The byte order mark.
    let bom_class = CharClass::ByteOrderMark;
    let t = text + ending;
    assert(t[0] == '#');
    assert(line[start.len() as int] == '#');
    text::lemma_trim_start(line, bom_class, start.len() as int);
    assert(line.skip(start.len() as int) =~= t);
    // The end of the line.
    text::lemma_trim_end_concat_all(text, ending, CharClass::CarriageReturn);
    assert(text.subrange(0, 2) =~= "#!"@);
    assert(text.skip(2) =~= rest);
}

/// A script whose first line does not start with `#!` names no interpreter.
pub proof fn law_other_lines_name_none(line: Seq<char>, body: Seq<u8>)
    requires
        !line.contains('\n'),
        line.len() == 0 || line[0] != '\u{feff}',
        line.len() < 2 || line[0] != '#' || line[1] != '!',
    ensures
        named(encode_utf8(line).push(0x0a) + body).len() == 0,
        named(encode_utf8(line)).len() == 0,
{
    reveal_strlit("#!");
    let bytes = encode_utf8(line);
    let script = bytes.push(0x0a) + body;
    interpreter::lemma_one_line(line);
    assert forall|k: int| 0 <= k < bytes.len() implies #[trigger] script[k] != 0x0a by {
        assert(script[k] == bytes[k]);
        assert(bytes.contains(bytes[k]));
    }
    assert forall|k: int| 0 <= k < bytes.len() implies #[trigger] bytes[k] != 0x0a by {
        assert(bytes.contains(bytes[k]));
    }
    interpreter::lemma_line_one_unique(script, bytes.len() as int);
    interpreter::lemma_line_one_unique(bytes, bytes.len() as int);
    assert(script.take(bytes.len() as int) =~= bytes);
    assert(bytes.take(bytes.len() as int) =~= bytes);
    encode_utf8_valid_utf8(line);
    encode_utf8_decode_utf8(line);
    text::lemma_trim_end_stops(line, CharClass::CarriageReturn);
    let t = text::trim_end(line, CharClass::CarriageReturn);
    if "#!"@.is_prefix_of(t) {
        assert(t.subrange(0, 2)[0] == t[0] && t.subrange(0, 2)[1] == t[1]);
        assert(t[0] == line[0] && t[1] == line[1]);
    }
}

/// `env`, by whatever path, and the options after it are not the interpreter; what
/// follows them is. Any other first word is the interpreter.
pub proof fn law_env_is_looked_through(
    first: Seq<char>,
    options: Seq<Seq<char>>,
    rest: Seq<Seq<char>>,
)
    requires
        forall|k: int| 0 <= k < options.len() ==> "-"@.is_prefix_of(#[trigger] options[k]),
        rest.len() == 0 || !"-"@.is_prefix_of(rest[0]),
    ensures
        text::basename(first) == "env"@ ==> command_words(seq![first] + options + rest) == rest,
        text::basename(first) != "env"@ ==> command_words(seq![first] + rest) == seq![first] + rest,
        command_words(seq![]).len() == 0,
{
    assert((seq![first] + options + rest).skip(1) =~= options + rest);
    lemma_without_options(options, rest);
}

proof fn lemma_without_options(options: Seq<Seq<char>>, rest: Seq<Seq<char>>)
    requires
        forall|k: int| 0 <= k < options.len() ==> "-"@.is_prefix_of(#[trigger] options[k]),
        rest.len() == 0 || !"-"@.is_prefix_of(rest[0]),
    ensures
        without_options(options + rest) == rest,
    decreases options.len(),
{
    let all = options + rest;
    if options.len() == 0 {
        assert(all =~= rest);
    } else {
        assert(all[0] == options[0]);
        assert(all.skip(1) =~= options.skip(1) + rest);
        assert forall|k: int| 0 <= k < options.skip(1).len() implies "-"@.is_prefix_of(
            #[trigger] options.skip(1)[k],
        ) by {
            assert(options.skip(1)[k] == options[k + 1]);
        }
        lemma_without_options(options.skip(1), rest);
    }
}

/// The interpreter that a script names is that of its first line, unless the line
/// leads back to scriptbox.
pub proof fn law_only_scriptbox_is_passed_over(bytes: Seq<u8>)
    ensures
        ({
            let words = command_words(line_words(bytes));
            &&& words.len() == 0 ==> named(bytes).len() == 0
            &&& words.len() > 0 && text::basename(words[0]) != "scriptbox"@ ==> named(bytes)
                == words
            &&& words.len() > 0 && text::basename(words[0]) == "scriptbox"@ ==> named(bytes).len()
                == 0
        }),
{
}

} // verus!
