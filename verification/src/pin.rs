//! What `scriptbox pin` prints: the text to paste into a script to pin it.

use crate::checksum;
use crate::frontmatter;
use crate::text;
use vstd::prelude::*;
use vstd::string::*;
use vstd::utf8::*;

verus! {

/// The `checksum` line for a pin.
pub open spec fn checksum_line(pin: Seq<char>) -> Seq<char> {
    frontmatter::setting_line("checksum"@, pin)
}

/// The line that opens a block.
pub open spec fn open_line() -> Seq<char> {
    "# /// scriptbox\n"@
}

/// The line that closes a block.
pub open spec fn close_line() -> Seq<char> {
    "# ///\n"@
}

/// A whole block that holds just a pin.
pub open spec fn whole_block(pin: Seq<char>) -> Seq<char> {
    open_line() + checksum_line(pin) + close_line()
}

/// What to paste for a pin: the line alone where the script has a block to drop
/// it into, else a whole block.
pub open spec fn paste(has_block: bool, pin: Seq<char>) -> Seq<char> {
    if has_block {
        checksum_line(pin)
    } else {
        whole_block(pin)
    }
}

/// What to paste for a pin: the line alone where the script has a block to drop
/// it into, else a whole block.
pub fn paste_for(has_block: bool, pin: &str) -> (r: String)
    ensures
        r@ == paste(has_block, pin@),
{
    let mut line = "# ".to_owned();
    line.append("checksum");
    line.append(" = \"");
    line.append(pin);
    line.append("\"\n");
    if has_block {
        line
    } else {
        let mut out = "# /// scriptbox\n".to_owned();
        out.append(line.as_str());
        out.append("# ///\n");
        out
    }
}

/// Whether the script `s` has a block, from the line that opens it to the one that
/// closes it.
pub open spec fn has_block(s: Seq<char>) -> bool {
    frontmatter::split_block(s) is Some && frontmatter::split_block(s)->0.closed
}

/// The text that pins the script `bytes`: a whole `# /// scriptbox` block when
/// the script has no block yet, or just the `checksum` line to drop into the
/// block that it has.
pub fn pin_block(bytes: &[u8]) -> (r: String)
    ensures
        r@ == paste(has_block(text::utf8_lossy(bytes@)), checksum::script_pin(bytes@)),
        valid_utf8(bytes@) ==> text::utf8_lossy(bytes@) == decode_utf8(bytes@),
{
    let pin = checksum::pin_of(bytes);
    let lossy = text::from_utf8_lossy(bytes);
    let chars = text::chars_of(lossy.as_str());
    let closed = match frontmatter::find_block(&chars) {
        Some(c) => c.closed,
        None => false,
    };
    paste_for(closed, pin.as_str())
}

// ---------------------------------------------------------------------------
// Laws

/// A pin can stand in quotes on a line.
proof fn lemma_pin_is_plain(digest: Seq<u8>)
    ensures
        frontmatter::plain_value(checksum::pin_text(digest)),
{
    reveal_strlit("sha256:");
    checksum::lemma_hex_chars(digest);
    let pin = checksum::pin_text(digest);
    assert forall|k: int| 0 <= k < pin.len() implies pin[k] != '\n' && pin[k] != '"' by {
        if k >= 7 {
            assert(pin[k] == text::hex(digest)[k - 7]);
        }
    }
}

proof fn lemma_checksum_is_plain()
    ensures
        frontmatter::plain_key("checksum"@),
{
    reveal_strlit("checksum");
}

/// The markers as this module writes them are the markers of a block.
proof fn lemma_marker_lines()
    ensures
        frontmatter::is_line(open_line()),
        frontmatter::comment_body(open_line()) == Some(frontmatter::opening()),
        frontmatter::is_line(close_line()),
        frontmatter::comment_body(close_line()) == Some(frontmatter::closing()),
{
    reveal_strlit("# /// scriptbox\n");
    reveal_strlit("# ///\n");
    reveal_strlit("/// scriptbox");
    reveal_strlit("///");
    let open = open_line();
    let close = close_line();
    text::lemma_find_unique(open, '\n', 15);
    text::lemma_find_unique(close, '\n', 5);
    text::lemma_trim_both(open.skip(1), text::CharClass::White, 1, 14);
    text::lemma_trim_both(close.skip(1), text::CharClass::White, 1, 4);
    assert(open.skip(1).subrange(1, 14) =~= frontmatter::opening());
    assert(close.skip(1).subrange(1, 4) =~= frontmatter::closing());
}

/// A whole line that is not the marker adds a line to those before it, none of
/// which is the marker.
proof fn lemma_before_push(a: Seq<char>, line: Seq<char>, marker: Seq<char>)
    requires
        text::whole_lines(a),
        frontmatter::before(a, marker) == a.len(),
        frontmatter::is_line(line),
        frontmatter::comment_body(line) != Some(marker),
    ensures
        text::whole_lines(a + line),
        frontmatter::before(a + line, marker) == (a + line).len(),
        text::lines(a + line) == text::lines(a).push(line),
{
    text::lemma_find(line, '\n');
    text::lemma_first_line(line);
    let n = line.len() as int;
    assert(line.take(n) =~= line);
    assert(line.skip(n) =~= seq![]);
    assert(frontmatter::before(line.skip(n), marker) == 0);
    frontmatter::lemma_before_concat(a, line, marker);
    text::lemma_lines_concat(a, line);
    assert(text::lines(line) =~= seq![line]);
    assert(text::lines(a) + seq![line] =~= text::lines(a).push(line));
}

/// Dropping the printed line into the block of a script, anywhere between its
/// markers with no other `checksum` line after it, leaves the pin of the script
/// as it was, and the script then asks for just that pin: one pin, pasted, is
/// accepted.
pub proof fn law_pasted_line_is_accepted(
    head: Seq<char>,
    open: Seq<char>,
    above: Seq<char>,
    below: Seq<char>,
    close: Seq<char>,
    tail: Seq<char>,
)
    requires
        text::whole_lines(head),
        frontmatter::before(head, frontmatter::opening()) == head.len(),
        frontmatter::is_line(open),
        frontmatter::comment_body(open) == Some(frontmatter::opening()),
        text::whole_lines(above),
        frontmatter::before(above, frontmatter::closing()) == above.len(),
        text::whole_lines(below),
        frontmatter::before(below, frontmatter::closing()) == below.len(),
        frontmatter::field(text::lines(below), "checksum"@) is None,
        frontmatter::line_before(close, tail),
        frontmatter::comment_body(close) == Some(frontmatter::closing()),
    ensures
        ({
            let script = head + (open + ((above + below) + (close + tail)));
            let pin = checksum::script_pin(encode_utf8(script));
            let pasted = head + (open + ((above + paste(true, pin) + below) + (close + tail)));
            &&& checksum::script_pin(encode_utf8(pasted)) == pin
            &&& frontmatter::setting(pasted, "checksum"@) == Some(pin)
        }),
{
    frontmatter::lemma_before_concat(above, below, frontmatter::closing());
    checksum::law_pin_ignores_the_block(head, open, above + below, close, tail);
    lemma_pasted(
        head,
        open,
        above,
        below,
        close,
        tail,
        checksum::sha256(encode_utf8(head + tail)),
    );
}

/// Pasting the printed block into a script that has none, between two of its
/// lines and before any line that would open one, leaves the pin of the script as
/// it was, and the script then asks for just that pin.
pub proof fn law_pasted_block_is_accepted(head: Seq<char>, tail: Seq<char>)
    requires
        text::whole_lines(head),
        frontmatter::before(head, frontmatter::opening()) == head.len(),
        !has_block(head + tail),
    ensures
        ({
            let pin = checksum::script_pin(encode_utf8(head + tail));
            let pasted = head + paste(false, pin) + tail;
            &&& checksum::script_pin(encode_utf8(pasted)) == pin
            &&& frontmatter::setting(pasted, "checksum"@) == Some(pin)
        }),
{
    let pin = checksum::script_pin(encode_utf8(head + tail));
    checksum::lemma_pinned_text(head + tail);
    lemma_marker_lines();
    lemma_pasted(
        head,
        open_line(),
        seq![],
        seq![],
        close_line(),
        tail,
        checksum::sha256(encode_utf8(head + tail)),
    );
    let line = checksum_line(pin);
    assert(seq![] + line + seq![] =~= line);
    assert(head + (open_line() + (line + (close_line() + tail))) =~= head + paste(false, pin)
        + tail);
}

proof fn lemma_pasted(
    head: Seq<char>,
    open: Seq<char>,
    above: Seq<char>,
    below: Seq<char>,
    close: Seq<char>,
    tail: Seq<char>,
    digest: Seq<u8>,
)
    requires
        text::whole_lines(head),
        frontmatter::before(head, frontmatter::opening()) == head.len(),
        frontmatter::is_line(open),
        frontmatter::comment_body(open) == Some(frontmatter::opening()),
        text::whole_lines(above),
        frontmatter::before(above, frontmatter::closing()) == above.len(),
        text::whole_lines(below),
        frontmatter::before(below, frontmatter::closing()) == below.len(),
        frontmatter::field(text::lines(below), "checksum"@) is None,
        frontmatter::line_before(close, tail),
        frontmatter::comment_body(close) == Some(frontmatter::closing()),
    ensures
        ({
            let line = checksum_line(checksum::pin_text(digest));
            let pasted = head + (open + ((above + line + below) + (close + tail)));
            &&& checksum::script_pin(encode_utf8(pasted)) == checksum::exact_pin(
                encode_utf8(head + tail),
            )
            &&& frontmatter::setting(pasted, "checksum"@) == Some(checksum::pin_text(digest))
        }),
{
    let pin = checksum::pin_text(digest);
    let line = checksum_line(pin);
    let body = above + line + below;
    lemma_pin_is_plain(digest);
    lemma_checksum_is_plain();
    frontmatter::law_setting_reads_back("checksum"@, pin);
    assert(frontmatter::comment_body(line) != Some(frontmatter::closing())) by {
        reveal_strlit("///");
        let c = frontmatter::closing();
        text::lemma_find_unique(c, '=', 3);
    }
    lemma_before_push(above, line, frontmatter::closing());
    frontmatter::lemma_before_concat(above + line, below, frontmatter::closing());
    text::lemma_lines_concat(above + line, below);
    checksum::law_pin_ignores_the_block(head, open, body, close, tail);
    frontmatter::law_settings_stop_at_the_end_marker(
        head,
        open,
        body,
        close,
        tail,
        "checksum"@,
    );
    frontmatter::law_last_setting_wins(text::lines(above), "checksum"@, pin);
    frontmatter::lemma_field_concat(text::lines(above + line), text::lines(below), "checksum"@);
}

/// A script has a block just where one of its lines opens one and a later line
/// closes it; else a whole block is printed for it.
pub proof fn law_only_a_block_gets_just_the_line(s: Seq<char>, pin: Seq<char>)
    ensures
        (forall|i: int|
            0 <= i < text::lines(s).len() ==> frontmatter::comment_body(
                #[trigger] text::lines(s)[i],
            ) != Some("/// scriptbox"@)) ==> paste(has_block(s), pin)
            == "# /// scriptbox\n# checksum = \""@ + pin + "\"\n# ///\n"@,
        (forall|i: int|
            0 <= i < text::lines(s).len() ==> frontmatter::comment_body(
                #[trigger] text::lines(s)[i],
            ) != Some("///"@)) ==> paste(has_block(s), pin)
            == "# /// scriptbox\n# checksum = \""@ + pin + "\"\n# ///\n"@,
        forall|i: int, j: int|
            0 <= i < j < text::lines(s).len() && frontmatter::comment_body(
                #[trigger] text::lines(s)[i],
            ) == Some("/// scriptbox"@) && frontmatter::comment_body(#[trigger] text::lines(s)[j])
                == Some("///"@) ==> paste(has_block(s), pin) == "# checksum = \""@ + pin
                + "\"\n"@,
{
    reveal_strlit("# ");
    reveal_strlit("checksum");
    reveal_strlit(" = \"");
    reveal_strlit("\"\n");
    reveal_strlit("# /// scriptbox\n");
    reveal_strlit("# ///\n");
    reveal_strlit("# checksum = \"");
    reveal_strlit("# /// scriptbox\n# checksum = \"");
    reveal_strlit("\"\n# ///\n");
    assert(checksum_line(pin) =~= "# checksum = \""@ + pin + "\"\n"@);
    assert(whole_block(pin) =~= "# /// scriptbox\n# checksum = \""@ + pin + "\"\n# ///\n"@);
    frontmatter::lemma_before_lines(s, frontmatter::opening());
    let open = frontmatter::before(s, frontmatter::opening());
    if open < s.len() {
        let inner = frontmatter::after_line(s.skip(open));
        frontmatter::lemma_before_lines(inner, frontmatter::closing());
        frontmatter::lemma_lines_after(s, frontmatter::opening());
    }
}

/// Whatever the script, what is printed for it can be pasted into it at some place
/// so that the script then asks for its pin, and still has it.
pub proof fn law_what_is_printed_can_be_pasted(s: Seq<char>)
    ensures
        exists|at: int|
            #![trigger s.take(at)]
            {
                let pin = checksum::script_pin(encode_utf8(s));
                let pasted = s.take(at) + paste(has_block(s), pin) + s.skip(at);
                &&& 0 <= at <= s.len()
                &&& checksum::script_pin(encode_utf8(pasted)) == pin
                &&& frontmatter::setting(pasted, "checksum"@) == Some(pin)
            },
{
    let pin = checksum::script_pin(encode_utf8(s));
    if has_block(s) {
        let p = frontmatter::split_block(s)->0;
        let at = frontmatter::lemma_block_parts(s);
        let open = s.subrange(p.head.len() as int, at - p.body.len());
        let close = s.subrange(at, s.len() - p.tail.len());
        law_pasted_line_is_accepted(p.head, open, p.body, seq![], close, p.tail);
        assert(p.body + Seq::<char>::empty() =~= p.body);
        assert(s =~= p.head + (open + (p.body + (close + p.tail))));
        assert(s.take(at) + paste(true, pin) + s.skip(at) =~= p.head + (open + ((p.body + paste(
            true,
            pin,
        ) + Seq::<char>::empty()) + (close + p.tail))));
    } else {
        assert(Seq::<char>::empty() + s =~= s);
        law_pasted_block_is_accepted(seq![], s);
        assert(s.take(0) + paste(false, pin) + s.skip(0) =~= Seq::<char>::empty() + paste(
            false,
            pin,
        ) + s);
    }
}

} // verus!
