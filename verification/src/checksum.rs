//! Integrity pins: `sha256:<hex>` over the bytes of a script.
//!
//! A pin answers "is this the script I expect?", which is a question apart from
//! "can it change while it runs?".

use crate::frontmatter;
use crate::text;
use vstd::prelude::*;
use vstd::slice::*;
use vstd::string::*;
use vstd::utf8::*;

verus! {

/// The SHA-256 digest of `bytes`.
pub uninterp spec fn sha256(bytes: Seq<u8>) -> Seq<u8>;

/// `sha2::Sha256::digest`, as a vector: the SHA-256 digest of the bytes, which
/// has 32 bytes.
#[verifier::external_body]
fn sha256_digest(bytes: &[u8]) -> (r: Vec<u8>)
    ensures
        r@ == sha256(bytes@),
        r@.len() == 32,
{
    <sha2::Sha256 as sha2::Digest>::digest(bytes).to_vec()
}

/// The pin that a digest makes: `sha256:` and its hexadecimal digits.
pub open spec fn pin_text(digest: Seq<u8>) -> Seq<char> {
    "sha256:"@ + text::hex(digest)
}

/// The pin over exactly `bytes`.
pub open spec fn exact_pin(bytes: Seq<u8>) -> Seq<char> {
    pin_text(sha256(bytes))
}

/// The script `s` without its first block, markers included. A line that opens a
/// block which nothing closes opens none: all of the script is kept.
pub open spec fn without_block(s: Seq<char>) -> Seq<char> {
    match frontmatter::split_block(s) {
        Some(p) if p.closed => p.head + p.tail,
        _ => s,
    }
}

/// The bytes of a script that its pin covers: all but its first block. Bytes
/// that are not UTF-8 hold no block.
pub open spec fn pinned_bytes(bytes: Seq<u8>) -> Seq<u8> {
    if valid_utf8(bytes) {
        encode_utf8(without_block(decode_utf8(bytes)))
    } else {
        bytes
    }
}

/// The pin of the script `bytes`.
pub open spec fn script_pin(bytes: Seq<u8>) -> Seq<char> {
    exact_pin(pinned_bytes(bytes))
}

/// What is compared of a pin: its hexadecimal digits, in small letters, without
/// the `sha256:` before them.
pub open spec fn pin_core(pin: Seq<char>) -> Seq<char> {
    let p = text::lower(text::trim(pin));
    match text::without_prefix(p, "sha256:"@) {
        Some(rest) => rest,
        None => p,
    }
}

/// The canonical pin of a script: `sha256:<hex>` over its bytes with the entire
/// `# /// scriptbox` block left out.
///
/// The block holds the checksum and the switches, so it must not take part in
/// the pin: pinning would be circular, and flipping a switch would break the
/// pin. Everything else contributes. An interpreter that is set only in the
/// block is therefore not covered; it is when it stands on the shebang line.
pub fn pin_of(bytes: &[u8]) -> (r: String)
    ensures
        r@ == script_pin(bytes@),
{
    let input = digest_input(bytes);
    sha256_pin(&input)
}

/// The pin over exactly `bytes`, with nothing left out.
pub fn sha256_pin(bytes: &[u8]) -> (r: String)
    ensures
        r@ == exact_pin(bytes@),
{
    let digest = sha256_digest(bytes);
    pin_of_digest(&digest)
}

/// The pin that a digest makes: `sha256:` and its hexadecimal digits.
pub fn pin_of_digest(digest: &[u8]) -> (r: String)
    ensures
        r@ == pin_text(digest@),
{
    let mut out = "sha256:".to_owned();
    let digits = text::hex_of(digest);
    out.append(digits.as_str());
    out
}

/// `bytes` without the first `# /// scriptbox` ... `# ///` block, markers and
/// line feeds included. Bytes that are not UTF-8, and a script whose block is
/// never closed, are returned unchanged.
pub fn digest_input(bytes: &[u8]) -> (r: Vec<u8>)
    ensures
        r@ == pinned_bytes(bytes@),
{
    let chars = match text::decode(bytes) {
        Some(chars) => chars,
        None => {
            return slice_to_vec(bytes);
        },
    };
    match frontmatter::find_block(&chars) {
        Some(c) if c.closed => {
            let mut kept: Vec<char> = slice_to_vec(slice_subrange(&chars, 0, c.head));
            let tail = slice_subrange(&chars, c.tail, chars.len());
            kept.extend_from_slice(tail);
            assert(kept@ =~= chars@.take(c.head as int) + chars@.skip(c.tail as int));
            text::encode(&kept)
        },
        _ => slice_to_vec(bytes),
    }
}

/// What is compared of a pin.
fn core_of(pin: &str) -> (r: Vec<char>)
    ensures
        r@ == pin_core(pin@),
{
    let chars = text::chars_of(pin);
    let p = text::to_lower(text::strip(&chars));
    match text::strip_prefix(&p, "sha256:") {
        Some(rest) => slice_to_vec(rest),
        None => p,
    }
}

/// Compare an expected pin with an actual one, tolerantly: the case of letters,
/// white space around the pin and a leading `sha256:` make no difference.
pub fn pins_match(expected: &str, actual_pin: &str) -> (r: bool)
    ensures
        r == (pin_core(expected@) == pin_core(actual_pin@)),
{
    let a = core_of(expected);
    let b = core_of(actual_pin);
    text::same(&a, &b)
}

// ---------------------------------------------------------------------------
// Laws

/// The pin of a script that is text covers that text without its first block.
pub proof fn lemma_pinned_text(s: Seq<char>)
    ensures
        pinned_bytes(encode_utf8(s)) == encode_utf8(without_block(s)),
{
    encode_utf8_valid_utf8(s);
    encode_utf8_decode_utf8(s);
}

/// A pin does not depend on the block: whatever stands between its markers,
/// just the head and the tail around it are covered. So writing the pin into
/// the block, or flipping a switch there, leaves the pin as it is.
pub proof fn law_pin_ignores_the_block(
    head: Seq<char>,
    open: Seq<char>,
    body: Seq<char>,
    close: Seq<char>,
    tail: Seq<char>,
)
    requires
        text::whole_lines(head),
        frontmatter::before(head, frontmatter::opening()) == head.len(),
        frontmatter::is_line(open),
        frontmatter::comment_body(open) == Some(frontmatter::opening()),
        text::whole_lines(body),
        frontmatter::before(body, frontmatter::closing()) == body.len(),
        frontmatter::line_before(close, tail),
        frontmatter::comment_body(close) == Some(frontmatter::closing()),
    ensures
        script_pin(encode_utf8(head + (open + (body + (close + tail))))) == exact_pin(
            encode_utf8(head + tail),
        ),
{
    frontmatter::law_block_is_found(head, open, body, close, tail);
    lemma_pinned_text(head + (open + (body + (close + tail))));
}

/// Two scripts with blocks have the same pin if what stands before and after
/// their blocks is the same.
pub proof fn law_pin_depends_on_what_surrounds_the_block(a: Seq<char>, b: Seq<char>)
    requires
        frontmatter::split_block(a) is Some,
        frontmatter::split_block(b) is Some,
        frontmatter::split_block(a)->0.closed,
        frontmatter::split_block(b)->0.closed,
        frontmatter::split_block(a)->0.head == frontmatter::split_block(b)->0.head,
        frontmatter::split_block(a)->0.tail == frontmatter::split_block(b)->0.tail,
    ensures
        script_pin(encode_utf8(a)) == script_pin(encode_utf8(b)),
{
    lemma_pinned_text(a);
    lemma_pinned_text(b);
}

/// The pin of a script without a block covers all of it.
pub proof fn law_pin_without_a_block_covers_everything(s: Seq<char>)
    requires
        frontmatter::before(s, frontmatter::opening()) == s.len(),
    ensures
        script_pin(encode_utf8(s)) == exact_pin(encode_utf8(s)),
{
    lemma_pinned_text(s);
}

/// A script that opens a block and never closes it is pinned in full: what runs
/// cannot hide behind the marker.
pub proof fn law_an_unclosed_block_is_pinned_in_full(s: Seq<char>)
    requires
        frontmatter::split_block(s) is Some,
        !frontmatter::split_block(s)->0.closed,
    ensures
        script_pin(encode_utf8(s)) == exact_pin(encode_utf8(s)),
        pinned_bytes(encode_utf8(s)) == encode_utf8(s),
{
    lemma_pinned_text(s);
}

/// Everything outside the block is covered: two scripts hand the same bytes to
/// the digest just where they are the same but for their blocks.
pub proof fn law_pin_covers_everything_else(a: Seq<char>, b: Seq<char>)
    ensures
        pinned_bytes(encode_utf8(a)) == pinned_bytes(encode_utf8(b)) <==> without_block(a)
            == without_block(b),
{
    lemma_pinned_text(a);
    lemma_pinned_text(b);
    encode_utf8_decode_utf8(without_block(a));
    encode_utf8_decode_utf8(without_block(b));
}

/// Every pin matches itself, in small letters and in capital ones, and with or
/// without the `sha256:` before it.
pub proof fn law_matching_tolerates_prefix_and_case(digest: Seq<u8>, bare: Seq<char>)
    requires
        text::lower(bare) == text::hex(digest),
    ensures
        pin_core(bare) == pin_core(pin_text(digest)),
        pin_core("sha256:"@ + bare) == pin_core(pin_text(digest)),
        pin_core(pin_text(digest)) == text::hex(digest),
{
    reveal_strlit("sha256:");
    let pin = pin_text(digest);
    let digits = text::hex(digest);
    lemma_hex_chars(digest);
    assert(bare.len() == digits.len());
    assert forall|k: int| 0 <= k < bare.len() implies !text::is_white(#[trigger] bare[k])
        && text::lower_char(bare[k]) == digits[k] by {
        assert(text::lower(bare)[k] == text::lower_char(bare[k]));
    }
    // The bare digits.
    if bare.len() > 0 {
        text::lemma_trim_both(bare, text::CharClass::White, 0, bare.len() as int);
    } else {
        text::lemma_trim_all(bare, text::CharClass::White);
    }
    assert(bare.subrange(0, bare.len() as int) =~= bare);
    assert(text::trim(bare) =~= bare);
    if "sha256:"@.is_prefix_of(digits) {
        assert(digits.subrange(0, 7)[0] == "sha256:"@[0]);
        assert(digits[0] == 's');
    }
    // The prefix and the digits.
    let long = "sha256:"@ + bare;
    text::lemma_trim_both(long, text::CharClass::White, 0, long.len() as int);
    assert(long.subrange(0, long.len() as int) =~= long);
    assert(text::lower(long) =~= "sha256:"@ + digits);
    assert(("sha256:"@ + digits).skip(7) =~= digits);
    // The pin itself.
    text::lemma_trim_both(pin, text::CharClass::White, 0, pin.len() as int);
    assert(pin.subrange(0, pin.len() as int) =~= pin);
    assert(text::lower(pin) =~= pin);
}

proof fn lemma_digit_injective(a: int, b: int)
    requires
        0 <= a < 16,
        0 <= b < 16,
        text::digit(a) == text::digit(b),
    ensures
        a == b,
{
    assert(text::digit(a) as int == if a < 10 {
        48 + a
    } else {
        87 + a
    });
    assert(text::digit(b) as int == if b < 10 {
        48 + b
    } else {
        87 + b
    });
}

proof fn lemma_hex_injective(a: Seq<u8>, b: Seq<u8>)
    requires
        text::hex(a) == text::hex(b),
    ensures
        a == b,
    decreases a.len(),
{
    lemma_hex_chars(a);
    lemma_hex_chars(b);
    if a.len() > 0 {
        let n = text::hex(a).len() as int;
        assert(text::hex(a).take(n - 2) =~= text::hex(a.drop_last()));
        assert(text::hex(b).take(n - 2) =~= text::hex(b.drop_last()));
        lemma_hex_injective(a.drop_last(), b.drop_last());
        assert(text::hex(a)[n - 2] == text::hex(b)[n - 2]);
        assert(text::hex(a)[n - 1] == text::hex(b)[n - 1]);
        let x = a.last() as int;
        let y = b.last() as int;
        assert(text::hex(a)[n - 2] == text::digit(x / 16));
        assert(text::hex(b)[n - 2] == text::digit(y / 16));
        assert(text::hex(a)[n - 1] == text::digit(x % 16));
        assert(text::hex(b)[n - 1] == text::digit(y % 16));
        lemma_digit_injective(x / 16, y / 16);
        lemma_digit_injective(x % 16, y % 16);
        assert(a.last() == b.last());
        assert(a =~= a.drop_last().push(a.last()));
        assert(b =~= b.drop_last().push(b.last()));
    } else {
        assert(a =~= b);
    }
}

/// Pins match only where the digests are the same: a script whose digest is
/// another one does not pass for it.
pub proof fn law_pins_of_other_digests_do_not_match(a: Seq<u8>, b: Seq<u8>)
    requires
        a != b,
    ensures
        pin_core(pin_text(a)) != pin_core(pin_text(b)),
{
    lemma_hex_chars(a);
    lemma_hex_chars(b);
    lemma_lower_hex(a);
    lemma_lower_hex(b);
    law_matching_tolerates_prefix_and_case(a, text::hex(a));
    law_matching_tolerates_prefix_and_case(b, text::hex(b));
    if text::hex(a) == text::hex(b) {
        lemma_hex_injective(a, b);
    }
}

/// Hexadecimal digits are in small letters.
pub proof fn lemma_lower_hex(a: Seq<u8>)
    ensures
        text::lower(text::hex(a)) == text::hex(a),
{
    lemma_hex_chars(a);
    assert(text::lower(text::hex(a)) =~= text::hex(a));
}

/// Hexadecimal digits are digits and small letters, two for each byte.
pub proof fn lemma_hex_chars(bytes: Seq<u8>)
    ensures
        text::hex(bytes).len() == 2 * bytes.len(),
        forall|k: int| 0 <= k < text::hex(bytes).len() ==> {
            let c = #[trigger] text::hex(bytes)[k];
            '0' <= c <= '9' || 'a' <= c <= 'f'
        },
    decreases bytes.len(),
{
    if bytes.len() > 0 {
        lemma_hex_chars(bytes.drop_last());
    }
}

/// A pin is `sha256:` and the digits of the digest; that of bytes which are no text
/// covers all of them.
pub proof fn law_what_a_pin_is(bytes: Seq<u8>)
    ensures
        exact_pin(bytes) == "sha256:"@ + text::hex(sha256(bytes)),
        !valid_utf8(bytes) ==> script_pin(bytes) == "sha256:"@ + text::hex(sha256(bytes)),
{
}

/// What a pin leaves out are the lines from the first one that opens a block to the
/// first one after it that closes it, both of them included, and no others; where
/// there is no such line, nothing.
pub proof fn law_which_lines_are_left_out(s: Seq<char>)
    ensures
        ({
            let lines = text::lines(s);
            &&& (forall|i: int|
                0 <= i < lines.len() ==> frontmatter::comment_body(#[trigger] lines[i]) != Some(
                    "/// scriptbox"@,
                )) ==> without_block(s) == s
            &&& (forall|i: int|
                0 <= i < lines.len() ==> frontmatter::comment_body(#[trigger] lines[i]) != Some(
                    "///"@,
                )) ==> without_block(s) == s
            &&& forall|i: int, j: int|
                #![trigger lines[i], lines[j]]
                0 <= i < j < lines.len() && frontmatter::comment_body(lines[i]) == Some(
                    "/// scriptbox"@,
                ) && (forall|k: int|
                    0 <= k < i ==> frontmatter::comment_body(#[trigger] lines[k]) != Some(
                        "/// scriptbox"@,
                    )) && frontmatter::comment_body(lines[j]) == Some("///"@) && (forall|k: int|
                    i < k < j ==> frontmatter::comment_body(#[trigger] lines[k]) != Some("///"@))
                    ==> text::lines(without_block(s)) == lines.take(i) + lines.skip(j + 1)
        }),
{
    let lines = text::lines(s);
    let opening = frontmatter::opening();
    let closing = frontmatter::closing();
    frontmatter::lemma_before_lines(s, opening);
    let open = frontmatter::before(s, opening);
    if open < s.len() {
        let rest = s.skip(open);
        let head = s.take(open);
        let inner = frontmatter::after_line(rest);
        frontmatter::lemma_before_lines(inner, closing);
        text::lemma_first_line(rest);
        let n = text::lines(head).len() as int;
        let close = frontmatter::before(inner, closing);
        let last = inner.skip(close);
        let m = text::lines(inner.take(close)).len() as int;
        let tail = frontmatter::after_line(last);
        assert(lines[n] == text::lines(rest)[0]);
        assert(text::lines(inner) =~= lines.skip(n + 1));
        assert forall|k: int| 0 <= k < n implies frontmatter::comment_body(#[trigger] lines[k])
            != Some(opening) by {
            assert(lines[k] == text::lines(head)[k]);
        }
        if close < inner.len() {
            text::lemma_first_line(last);
            assert(text::lines(inner)[m] == text::lines(last)[0]);
            assert(lines[n + 1 + m] == text::lines(last)[0]);
            assert(text::lines(tail) =~= lines.skip(n + 1 + m + 1)) by {
                assert(text::lines(last) =~= text::lines(inner).skip(m));
            }
            text::lemma_lines_concat(head, tail);
            assert(without_block(s) == head + tail);
            assert(text::lines(head) =~= lines.take(n));
        } else {
            assert forall|k: int| 0 <= k < text::lines(inner).len() implies
                frontmatter::comment_body(#[trigger] text::lines(inner)[k]) != Some(closing) by {}
        }
        assert forall|i: int, j: int|
            #![trigger lines[i], lines[j]]
            0 <= i < j < lines.len() && frontmatter::comment_body(lines[i]) == Some(
                "/// scriptbox"@,
            ) && (forall|k: int|
                0 <= k < i ==> frontmatter::comment_body(#[trigger] lines[k]) != Some(
                    "/// scriptbox"@,
                )) && frontmatter::comment_body(lines[j]) == Some("///"@) && (forall|k: int|
                i < k < j ==> frontmatter::comment_body(#[trigger] lines[k]) != Some("///"@))
            implies text::lines(without_block(s)) == lines.take(i) + lines.skip(j + 1) by {
            if i < n {
                assert(frontmatter::comment_body(lines[i]) != Some(opening));
            }
            assert(i == n);
            assert(text::lines(inner)[j - n - 1] == lines[j]);
            assert(close < inner.len());
            if j - n - 1 < m {
                assert(text::lines(inner.take(close))[j - n - 1] == text::lines(inner)[j - n - 1]);
            }
            assert(j == n + 1 + m);
        }
    }
}

/// White space around a pin makes no difference when it is compared.
pub proof fn law_white_space_around_a_pin_is_nothing(a: Seq<char>, pin: Seq<char>, b: Seq<char>)
    requires
        pin.len() > 0,
        !text::is_white(pin[0]) && !text::is_white(pin.last()),
        forall|k: int| 0 <= k < a.len() ==> text::is_white(#[trigger] a[k]),
        forall|k: int| 0 <= k < b.len() ==> text::is_white(#[trigger] b[k]),
    ensures
        pin_core(a + pin + b) == pin_core(pin),
{
    let s = a + pin + b;
    let white = text::CharClass::White;
    let n = a.len() as int;
    let m = (a.len() + pin.len()) as int;
    assert(s[n] == pin[0] && s[m - 1] == pin.last());
    assert forall|k: int| 0 <= k < n || m <= k < s.len() implies white.holds(#[trigger] s[k]) by {
        if k < n {
            assert(s[k] == a[k]);
        } else {
            assert(s[k] == b[k - m]);
        }
    }
    text::lemma_trim_both(s, white, n, m);
    assert(s.subrange(n, m) =~= pin);
    text::lemma_trim_both(pin, white, 0, pin.len() as int);
    assert(pin.subrange(0, pin.len() as int) =~= pin);
}

} // verus!
