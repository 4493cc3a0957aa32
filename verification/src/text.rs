//! Text as a sequence of characters: trimming, lines, words, numbers.
//!
//! Executable code works on `&[char]`, so that a position is a character
//! position; the specifications work on `Seq<char>`, the view that `str` and
//! `String` already have.

use vstd::prelude::*;
use vstd::slice::slice_subrange;
use vstd::string::*;
use vstd::utf8::*;

verus! {

// ---------------------------------------------------------------------------
// Characters and classes of characters

/// A set of characters that is trimmed off the ends of a text.
#[derive(Clone, Copy, PartialEq, Eq, Structural)]
pub enum CharClass {
    /// Unicode `White_Space`.
    White,
    /// The two quote marks, `"` and `'`.
    Quote,
    /// The byte order mark U+FEFF.
    ByteOrderMark,
    /// The carriage return.
    CarriageReturn,
}

/// The characters with the Unicode property `White_Space`.
pub open spec fn is_white(c: char) -> bool {
    let n = c as u32;
    ||| 0x09 <= n <= 0x0d
    ||| n == 0x20
    ||| n == 0x85
    ||| n == 0xa0
    ||| n == 0x1680
    ||| 0x2000 <= n <= 0x200a
    ||| n == 0x2028
    ||| n == 0x2029
    ||| n == 0x202f
    ||| n == 0x205f
    ||| n == 0x3000
}

impl CharClass {
    /// Whether the class holds `c`.
    pub open spec fn holds(self, c: char) -> bool {
        match self {
            CharClass::White => is_white(c),
            CharClass::Quote => c == '"' || c == '\'',
            CharClass::ByteOrderMark => c == '\u{feff}',
            CharClass::CarriageReturn => c == '\r',
        }
    }

    /// Whether the class holds `c`.
    pub fn has(self, c: char) -> (r: bool)
        ensures
            r == self.holds(c),
    {
        match self {
            CharClass::White => is_white_space(c),
            CharClass::Quote => c == '"' || c == '\'',
            CharClass::ByteOrderMark => c == '\u{feff}',
            CharClass::CarriageReturn => c == '\r',
        }
    }
}

/// Whether `c` has the Unicode property `White_Space`.
pub fn is_white_space(c: char) -> (r: bool)
    ensures
        r == is_white(c),
{
    let n: u32 = c as u32;
    (0x09 <= n && n <= 0x0d) || n == 0x20 || n == 0x85 || n == 0xa0 || n == 0x1680 || (0x2000 <= n
        && n <= 0x200a) || n == 0x2028 || n == 0x2029 || n == 0x202f || n == 0x205f || n == 0x3000
}

/// `c` with an ASCII capital letter replaced by its small letter.
pub open spec fn lower_char(c: char) -> char {
    if 'A' <= c <= 'Z' {
        (c as u32 + 32) as char
    } else {
        c
    }
}

/// `s` with every ASCII capital letter replaced by its small letter.
pub open spec fn lower(s: Seq<char>) -> Seq<char> {
    s.map_values(|c: char| lower_char(c))
}

fn lower_one(c: char) -> (r: char)
    ensures
        r == lower_char(c),
{
    if 'A' <= c && c <= 'Z' {
        ((c as u8) + 32) as char
    } else {
        c
    }
}

/// `s` with every ASCII capital letter replaced by its small letter.
pub fn to_lower(s: &[char]) -> (r: Vec<char>)
    ensures
        r@ == lower(s@),
{
    let mut out: Vec<char> = Vec::new();
    let mut i: usize = 0;
    while i < s.len()
        invariant
            i <= s@.len(),
            out@ =~= lower(s@.take(i as int)),
        decreases s@.len() - i,
    {
        out.push(lower_one(s[i]));
        i = i + 1;
        assert(s@.take(i as int) =~= s@.take(i - 1).push(s@[i - 1]));
    }
    assert(s@.take(i as int) =~= s@);
    out
}

// ---------------------------------------------------------------------------
// Strings, slices of characters and bytes

/// `String::push` appends one character.
pub assume_specification[ String::push ](s: &mut String, ch: char)
    ensures
        final(s)@ == old(s)@.push(ch),
;

/// The error of `core::str::from_utf8`; only that there is one matters.
#[verifier::external_type_specification]
#[verifier::external_body]
pub struct ExUtf8Error(core::str::Utf8Error);

/// `core::str::from_utf8` succeeds exactly on valid UTF-8, and then hands back
/// the same bytes as a string slice.
pub assume_specification[ core::str::from_utf8 ](v: &[u8]) -> (r: Result<
    &str,
    core::str::Utf8Error,
>)
    ensures
        r is Ok <==> valid_utf8(v@),
        r matches Ok(s) ==> encode_utf8(s@) == v@,
;

/// What `String::from_utf8_lossy` makes of `bytes`.
pub uninterp spec fn utf8_lossy(bytes: Seq<u8>) -> Seq<char>;

/// `String::from_utf8_lossy`, which replaces what is not UTF-8 by U+FFFD and
/// leaves valid UTF-8 as it is. How invalid stretches are cut up is not stated.
#[verifier::external_body]
pub(crate) fn from_utf8_lossy(bytes: &[u8]) -> (r: String)
    ensures
        r@ == utf8_lossy(bytes@),
        valid_utf8(bytes@) ==> r@ == decode_utf8(bytes@),
{
    String::from_utf8_lossy(bytes).into_owned()
}

/// The characters of `bytes`, or `None` where they are not valid UTF-8.
pub fn decode(bytes: &[u8]) -> (r: Option<Vec<char>>)
    ensures
        r is Some <==> valid_utf8(bytes@),
        r matches Some(t) ==> t@ == decode_utf8(bytes@) && encode_utf8(t@) == bytes@,
{
    match core::str::from_utf8(bytes) {
        Ok(s) => {
            proof {
                vstd::utf8::encode_utf8_decode_utf8(s@);
            }
            Some(chars_of(s))
        },
        Err(_) => None,
    }
}

/// The characters of `s`.
pub fn chars_of(s: &str) -> (r: Vec<char>)
    ensures
        r@ == s@,
{
    let mut out: Vec<char> = Vec::new();
    for c in it: s.chars()
        invariant
            out@ == it.seq().take(it.index() as int),
            it.seq() == s@,
    {
        out.push(c);
    }
    out
}

/// The string with the characters `s`.
pub fn string_of(s: &[char]) -> (r: String)
    ensures
        r@ == s@,
{
    let mut out: String = String::new();
    let mut i: usize = 0;
    while i < s.len()
        invariant
            i <= s@.len(),
            out@ == s@.take(i as int),
        decreases s@.len() - i,
    {
        out.push(s[i]);
        i = i + 1;
        assert(s@.take(i as int) =~= s@.take(i - 1).push(s@[i - 1]));
    }
    assert(s@.take(i as int) =~= s@);
    out
}

/// The bytes of a text and those of another one after it are the bytes of the two
/// together.
pub proof fn lemma_encode_concat(a: Seq<char>, b: Seq<char>)
    ensures
        encode_utf8(a + b) == encode_utf8(a) + encode_utf8(b),
    decreases a.len(),
{
    if a.len() == 0 {
        assert(a + b =~= b);
        assert(encode_utf8(a) + encode_utf8(b) =~= encode_utf8(b));
    } else {
        assert((a + b)[0] == a[0]);
        assert((a + b).drop_first() =~= a.drop_first() + b);
        lemma_encode_concat(a.drop_first(), b);
        assert(encode_utf8(a + b) =~= encode_utf8(a) + encode_utf8(b));
    }
}

/// The UTF-8 bytes of the characters `s`.
pub fn encode(s: &[char]) -> (r: Vec<u8>)
    ensures
        r@ == encode_utf8(s@),
{
    let text = string_of(s);
    vstd::slice::slice_to_vec(text.as_str().as_bytes())
}

/// Whether two texts are the same.
pub fn same(a: &[char], b: &[char]) -> (r: bool)
    ensures
        r == (a@ == b@),
{
    if a.len() != b.len() {
        return false;
    }
    let mut i: usize = 0;
    while i < a.len()
        invariant
            i <= a@.len(),
            a@.len() == b@.len(),
            forall|k: int| 0 <= k < i ==> a@[k] == b@[k],
        decreases a@.len() - i,
    {
        if a[i] != b[i] {
            return false;
        }
        i = i + 1;
    }
    assert(a@ =~= b@);
    true
}

/// Whether the text `a` reads `b`.
pub fn reads(a: &[char], b: &str) -> (r: bool)
    ensures
        r == (a@ == b@),
{
    let b = chars_of(b);
    same(a, &b)
}

// ---------------------------------------------------------------------------
// Trimming

/// `s` without the characters of `class` that it starts with.
pub open spec fn trim_start(s: Seq<char>, class: CharClass) -> Seq<char>
    decreases s.len(),
{
    if s.len() > 0 && class.holds(s[0]) {
        trim_start(s.skip(1), class)
    } else {
        s
    }
}

/// `s` without the characters of `class` that it ends with.
pub open spec fn trim_end(s: Seq<char>, class: CharClass) -> Seq<char>
    decreases s.len(),
{
    if s.len() > 0 && class.holds(s.last()) {
        trim_end(s.drop_last(), class)
    } else {
        s
    }
}

/// `s` without the characters of `class` at either end.
pub open spec fn trim_both(s: Seq<char>, class: CharClass) -> Seq<char> {
    trim_end(trim_start(s, class), class)
}

/// `s` without white space at either end.
pub open spec fn trim(s: Seq<char>) -> Seq<char> {
    trim_both(s, CharClass::White)
}

/// `s` without the characters of `class` that it starts with.
pub fn strip_start(s: &[char], class: CharClass) -> (r: &[char])
    ensures
        r@ == trim_start(s@, class),
{
    let mut i: usize = 0;
    assert(s@.skip(0) =~= s@);
    while i < s.len() && class.has(s[i])
        invariant
            i <= s@.len(),
            trim_start(s@.skip(i as int), class) == trim_start(s@, class),
        decreases s@.len() - i,
    {
        assert(s@.skip(i as int).skip(1) =~= s@.skip(i + 1));
        i = i + 1;
    }
    slice_subrange(s, i, s.len())
}

/// `s` without the characters of `class` that it ends with.
pub fn strip_end(s: &[char], class: CharClass) -> (r: &[char])
    ensures
        r@ == trim_end(s@, class),
{
    let mut n: usize = s.len();
    assert(s@.take(n as int) =~= s@);
    while n > 0 && class.has(s[n - 1])
        invariant
            n <= s@.len(),
            trim_end(s@.take(n as int), class) == trim_end(s@, class),
        decreases n,
    {
        assert(s@.take(n as int).drop_last() =~= s@.take(n - 1));
        n = n - 1;
    }
    slice_subrange(s, 0, n)
}

/// `s` without the characters of `class` at either end.
pub fn strip_both(s: &[char], class: CharClass) -> (r: &[char])
    ensures
        r@ == trim_both(s@, class),
{
    strip_end(strip_start(s, class), class)
}

/// `s` without white space at either end.
pub fn strip(s: &[char]) -> (r: &[char])
    ensures
        r@ == trim(s@),
{
    strip_both(s, CharClass::White)
}

/// Trimming takes off just the run of `class` at each end.
pub proof fn lemma_trim_both(s: Seq<char>, class: CharClass, i: int, j: int)
    requires
        0 <= i < j <= s.len(),
        forall|k: int| 0 <= k < i ==> class.holds(#[trigger] s[k]),
        !class.holds(s[i]),
        !class.holds(s[j - 1]),
        forall|k: int| j <= k < s.len() ==> class.holds(#[trigger] s[k]),
    ensures
        trim_both(s, class) == s.subrange(i, j),
{
    lemma_trim_start(s, class, i);
    lemma_trim_end(s.skip(i), class, j - i);
    assert(s.skip(i).take(j - i) =~= s.subrange(i, j));
}

/// Trimming leaves nothing of a text that is all of `class`.
pub proof fn lemma_trim_all(s: Seq<char>, class: CharClass)
    requires
        forall|k: int| 0 <= k < s.len() ==> class.holds(#[trigger] s[k]),
    ensures
        trim_both(s, class) == Seq::<char>::empty(),
    decreases s.len(),
{
    if s.len() > 0 {
        assert forall|k: int| 0 <= k < s.skip(1).len() implies class.holds(
            #[trigger] s.skip(1)[k],
        ) by {
            assert(s.skip(1)[k] == s[k + 1]);
        }
        lemma_trim_all(s.skip(1), class);
        assert(trim_start(s, class) == trim_start(s.skip(1), class));
    } else {
        assert(s =~= Seq::<char>::empty());
    }
}

/// Trimming the start stops at the first character that is not of `class`.
pub proof fn lemma_trim_start(s: Seq<char>, class: CharClass, i: int)
    requires
        0 <= i < s.len(),
        forall|k: int| 0 <= k < i ==> class.holds(#[trigger] s[k]),
        !class.holds(s[i]),
    ensures
        trim_start(s, class) == s.skip(i),
    decreases i,
{
    if i == 0 {
        assert(s.skip(0) =~= s);
    } else {
        lemma_trim_start(s.skip(1), class, i - 1);
        assert(s.skip(1).skip(i - 1) =~= s.skip(i));
    }
}

proof fn lemma_trim_end(s: Seq<char>, class: CharClass, j: int)
    requires
        0 < j <= s.len(),
        forall|k: int| j <= k < s.len() ==> class.holds(#[trigger] s[k]),
        !class.holds(s[j - 1]),
    ensures
        trim_end(s, class) == s.take(j),
    decreases s.len(),
{
    if j == s.len() {
        assert(s.take(j) =~= s);
    } else {
        lemma_trim_end(s.drop_last(), class, j);
        assert(s.drop_last().take(j) =~= s.take(j));
    }
}

/// Trimming the start takes characters of `class` off, and stops at one that is
/// not.
pub proof fn lemma_trim_start_stops(s: Seq<char>, class: CharClass)
    ensures
        trim_start(s, class).len() <= s.len(),
        trim_start(s, class) == s.skip(s.len() - trim_start(s, class).len()),
        forall|k: int|
            0 <= k < s.len() - trim_start(s, class).len() ==> class.holds(#[trigger] s[k]),
        trim_start(s, class).len() > 0 ==> !class.holds(trim_start(s, class)[0]),
    decreases s.len(),
{
    if s.len() > 0 && class.holds(s[0]) {
        let rest = s.skip(1);
        lemma_trim_start_stops(rest, class);
        let n = rest.len() - trim_start(rest, class).len();
        assert(rest.skip(n) =~= s.skip(n + 1));
        assert forall|k: int| 0 <= k < n + 1 implies class.holds(#[trigger] s[k]) by {
            if k > 0 {
                assert(rest[k - 1] == s[k]);
            }
        }
    } else {
        assert(s.skip(0) =~= s);
    }
}

/// Trimming takes characters of `class` off either end and leaves what starts and
/// ends with others; where what is left starts.
pub proof fn lemma_trim_parts(s: Seq<char>, class: CharClass) -> (i: int)
    ensures
        ({
            let t = trim_both(s, class);
            &&& 0 <= i <= i + t.len() <= s.len()
            &&& t == s.subrange(i, i + t.len())
            &&& forall|k: int|
                0 <= k < i || i + t.len() <= k < s.len() ==> class.holds(#[trigger] s[k])
            &&& t.len() > 0 ==> !class.holds(t[0]) && !class.holds(t.last())
        }),
{
    let a = trim_start(s, class);
    lemma_trim_start_stops(s, class);
    let i = s.len() - a.len();
    lemma_trim_end_stops(a, class);
    let t = trim_end(a, class);
    assert(t =~= s.subrange(i, i + t.len()));
    assert forall|k: int| 0 <= k < i || i + t.len() <= k < s.len() implies class.holds(
        #[trigger] s[k],
    ) by {
        if k >= i {
            assert(a[k - i] == s[k]);
        }
    }
    i
}

/// Trimming the end takes characters of `class` off, and stops at one that is not.
pub proof fn lemma_trim_end_stops(s: Seq<char>, class: CharClass)
    ensures
        trim_end(s, class).len() <= s.len(),
        trim_end(s, class) == s.take(trim_end(s, class).len() as int),
        forall|k: int| trim_end(s, class).len() <= k < s.len() ==> class.holds(#[trigger] s[k]),
        trim_end(s, class).len() > 0 ==> !class.holds(trim_end(s, class).last()),
    decreases s.len(),
{
    if s.len() > 0 && class.holds(s.last()) {
        let init = s.drop_last();
        lemma_trim_end_stops(init, class);
        let n = trim_end(init, class).len() as int;
        assert(init.take(n) =~= s.take(n));
        assert forall|k: int| n <= k < s.len() implies class.holds(#[trigger] s[k]) by {
            if k < init.len() {
                assert(init[k] == s[k]);
            }
        }
    } else {
        assert(s.take(s.len() as int) =~= s);
    }
}

/// Trimming the end leaves nothing of a text that is all of `class`.
pub proof fn lemma_trim_end_all(s: Seq<char>, class: CharClass)
    requires
        forall|k: int| 0 <= k < s.len() ==> class.holds(#[trigger] s[k]),
    ensures
        trim_end(s, class).len() == 0,
    decreases s.len(),
{
    if s.len() > 0 {
        assert(class.holds(s[s.len() - 1]));
        assert forall|k: int| 0 <= k < s.drop_last().len() implies class.holds(
            #[trigger] s.drop_last()[k],
        ) by {
            assert(s.drop_last()[k] == s[k]);
        }
        lemma_trim_end_all(s.drop_last(), class);
    }
}

/// Trimming the end stops before what is not of `class`.
pub proof fn lemma_trim_end_concat(a: Seq<char>, b: Seq<char>, class: CharClass)
    requires
        a.len() > 0,
        !class.holds(a.last()),
    ensures
        trim_end(a + b, class) == a + trim_end(b, class),
    decreases b.len(),
{
    if b.len() == 0 {
        assert(a + b =~= a);
        assert(a + trim_end(b, class) =~= a);
    } else {
        assert((a + b).last() == b.last());
        assert((a + b).drop_last() =~= a + b.drop_last());
        lemma_trim_end_concat(a, b.drop_last(), class);
    }
}

/// Trimming the end takes a run of characters of `class` off, up to one that is not.
pub proof fn lemma_trim_end_concat_all(a: Seq<char>, b: Seq<char>, class: CharClass)
    requires
        a.len() > 0,
        !class.holds(a.last()),
        forall|k: int| 0 <= k < b.len() ==> class.holds(#[trigger] b[k]),
    ensures
        trim_end(a + b, class) == a,
{
    lemma_trim_end_concat(a, b, class);
    lemma_trim_end_all(b, class);
    assert(a + trim_end(b, class) =~= a);
}

/// Trimming the end twice is the same as once.
pub proof fn lemma_trim_end_again(s: Seq<char>, class: CharClass)
    ensures
        trim_end(trim_end(s, class), class) == trim_end(s, class),
    decreases s.len(),
{
    if s.len() > 0 && class.holds(s.last()) {
        lemma_trim_end_again(s.drop_last(), class);
    }
}

/// `s` without the prefix `prefix`, or `None` where it does not start with it.
pub open spec fn without_prefix(s: Seq<char>, prefix: Seq<char>) -> Option<Seq<char>> {
    if prefix.is_prefix_of(s) {
        Some(s.skip(prefix.len() as int))
    } else {
        None
    }
}

/// Whether `s` starts with `prefix`.
pub fn starts_with(s: &[char], prefix: &str) -> (r: bool)
    ensures
        r == prefix@.is_prefix_of(s@),
{
    let p = chars_of(prefix);
    if p.len() > s.len() {
        return false;
    }
    same(slice_subrange(s, 0, p.len()), &p)
}

/// Whether `s` ends with `suffix`.
pub fn ends_with(s: &[char], suffix: &str) -> (r: bool)
    ensures
        r == suffix@.is_suffix_of(s@),
{
    let p = chars_of(suffix);
    if p.len() > s.len() {
        return false;
    }
    same(slice_subrange(s, s.len() - p.len(), s.len()), &p)
}

/// `s` without the prefix `prefix`, or `None` where it does not start with it.
pub fn strip_prefix<'a>(s: &'a [char], prefix: &str) -> (r: Option<&'a [char]>)
    ensures
        match r {
            Some(rest) => without_prefix(s@, prefix@) == Some(rest@),
            None => without_prefix(s@, prefix@) is None,
        },
{
    if starts_with(s, prefix) {
        let n = chars_of(prefix).len();
        let rest = slice_subrange(s, n, s.len());
        assert(rest@ =~= s@.skip(prefix@.len() as int));
        Some(rest)
    } else {
        None
    }
}

// ---------------------------------------------------------------------------
// Searching and splitting

/// The position of the first `c` in `s`; the length of `s` where there is none.
pub open spec fn find(s: Seq<char>, c: char) -> int
    decreases s.len(),
{
    if s.len() == 0 || s[0] == c {
        0
    } else {
        1 + find(s.skip(1), c)
    }
}

/// What `find` says of a text.
pub proof fn lemma_find(s: Seq<char>, c: char)
    ensures
        0 <= find(s, c) <= s.len(),
        find(s, c) < s.len() ==> s[find(s, c)] == c,
        forall|k: int| 0 <= k < find(s, c) ==> s[k] != c,
    decreases s.len(),
{
    if s.len() > 0 && s[0] != c {
        lemma_find(s.skip(1), c);
        assert forall|k: int| 0 <= k < find(s, c) implies s[k] != c by {
            if k > 0 {
                assert(s.skip(1)[k - 1] == s[k]);
            }
        }
    }
}

/// The first `c` is the one with no other before it.
pub proof fn lemma_find_unique(s: Seq<char>, c: char, n: int)
    requires
        0 <= n <= s.len(),
        n < s.len() ==> s[n] == c,
        forall|k: int| 0 <= k < n ==> s[k] != c,
    ensures
        find(s, c) == n,
{
    lemma_find(s, c);
    if find(s, c) < n {
        assert(s[find(s, c)] != c);
    }
}

/// The position of the first `c` in `s`; the length of `s` where there is none.
pub fn position(s: &[char], c: char) -> (r: usize)
    ensures
        r == find(s@, c),
        r <= s@.len(),
{
    let mut i: usize = 0;
    while i < s.len() && s[i] != c
        invariant
            i <= s@.len(),
            forall|k: int| 0 <= k < i ==> s@[k] != c,
        decreases s@.len() - i,
    {
        i = i + 1;
    }
    proof {
        lemma_find_unique(s@, c, i as int);
    }
    i
}

/// Whether `c` occurs in `s`.
pub fn contains(s: &[char], c: char) -> (r: bool)
    ensures
        r == s@.contains(c),
{
    let i = position(s, c);
    proof {
        lemma_find(s@, c);
        if s@.contains(c) {
            let k = choose|k: int| 0 <= k < s@.len() && s@[k] == c;
            assert(k >= i);
        }
    }
    i < s.len()
}

/// The part of `s` after its last `/`; all of `s` where it has none.
pub open spec fn basename(s: Seq<char>) -> Seq<char>
    decreases s.len(),
{
    if s.len() == 0 || s.last() == '/' {
        seq![]
    } else {
        basename(s.drop_last()).push(s.last())
    }
}

/// What follows the last `/` is the last part.
pub proof fn lemma_basename(dir: Seq<char>, base: Seq<char>)
    requires
        dir.len() == 0 || dir.last() == '/',
        !base.contains('/'),
    ensures
        basename(dir + base) == base,
    decreases base.len(),
{
    if base.len() == 0 {
        assert(dir + base =~= dir);
    } else {
        let init = base.drop_last();
        assert(base.contains(base[base.len() - 1]));
        assert forall|k: int| 0 <= k < init.len() implies #[trigger] init[k] != '/' by {
            assert(base.contains(base[k]));
        }
        assert((dir + base).drop_last() =~= dir + init);
        lemma_basename(dir, init);
        assert(base =~= init.push(base.last()));
    }
}

/// The part of `s` after its last `/`; all of `s` where it has none.
pub fn base_of(s: &[char]) -> (r: &[char])
    ensures
        r@ == basename(s@),
{
    let mut n: usize = s.len();
    assert(s@.take(n as int) =~= s@);
    assert(s@.skip(n as int) =~= seq![]);
    while n > 0 && s[n - 1] != '/'
        invariant
            n <= s@.len(),
            basename(s@) =~= basename(s@.take(n as int)) + s@.skip(n as int),
        decreases n,
    {
        assert(s@.take(n as int).drop_last() =~= s@.take(n - 1));
        assert(s@.take(n as int).last() == s@[n - 1]);
        assert(seq![s@[n - 1]] + s@.skip(n as int) =~= s@.skip(n - 1));
        n = n - 1;
    }
    if n > 0 {
        assert(s@.take(n as int).last() == '/');
    }
    assert(basename(s@.take(n as int)) =~= seq![]);
    slice_subrange(s, n, s.len())
}

/// The lines of a text, each with the line feed that ends it.
pub open spec fn lines(s: Seq<char>) -> Seq<Seq<char>>
    decreases s.len(),
{
    if s.len() == 0 {
        seq![]
    } else if find(s, '\n') >= s.len() {
        seq![s]
    } else {
        proof {
            lemma_find(s, '\n');
        }
        seq![s.take(find(s, '\n') + 1)] + lines(s.skip(find(s, '\n') + 1))
    }
}

/// The length of the first line of `s`, with the line feed that ends it.
pub open spec fn first_line_len(s: Seq<char>) -> int {
    if find(s, '\n') < s.len() {
        find(s, '\n') + 1
    } else {
        s.len() as int
    }
}

/// The first line of a text and the lines of the rest.
pub proof fn lemma_first_line(s: Seq<char>)
    requires
        s.len() > 0,
    ensures
        0 < first_line_len(s) <= s.len(),
        lines(s) == seq![s.take(first_line_len(s))] + lines(s.skip(first_line_len(s))),
{
    lemma_find(s, '\n');
    if find(s, '\n') >= s.len() {
        assert(s.take(s.len() as int) =~= s);
        assert(s.skip(s.len() as int) =~= seq![]);
        assert(lines(s) =~= seq![s] + seq![]);
    }
}

/// Where the line of `s` that starts at `from` ends, its line feed included.
pub fn line_end(s: &[char], from: usize) -> (r: usize)
    requires
        from < s@.len(),
    ensures
        from < r <= s@.len(),
        r == from + first_line_len(s@.skip(from as int)),
{
    let rest = slice_subrange(s, from, s.len());
    assert(rest@ =~= s@.skip(from as int));
    let n = position(rest, '\n');
    if n < rest.len() {
        from + n + 1
    } else {
        s.len()
    }
}

/// Whether a text is empty or ends with a line feed, so that what follows it
/// starts a line.
pub open spec fn whole_lines(s: Seq<char>) -> bool {
    s.len() == 0 || s.last() == '\n'
}

/// After whole lines, the lines of a text go on with the lines of the rest.
pub proof fn lemma_lines_concat(a: Seq<char>, b: Seq<char>)
    requires
        whole_lines(a),
    ensures
        lines(a + b) == lines(a) + lines(b),
    decreases a.len(),
{
    if a.len() == 0 {
        assert(a + b =~= b);
        assert(lines(a) + lines(b) =~= lines(b));
    } else {
        lemma_find(a, '\n');
        let n = find(a, '\n');
        if n >= a.len() {
            assert(a[a.len() - 1] != '\n');
        }
        lemma_find_unique(a + b, '\n', n);
        assert((a + b).take(n + 1) =~= a.take(n + 1));
        assert((a + b).skip(n + 1) =~= a.skip(n + 1) + b);
        assert(whole_lines(a.skip(n + 1)));
        lemma_lines_concat(a.skip(n + 1), b);
        assert(lines(a + b) =~= lines(a) + lines(b));
    }
}

// ---------------------------------------------------------------------------
// Words

/// The length of the run of characters other than white space at the start.
pub open spec fn word_len(s: Seq<char>) -> nat
    decreases s.len(),
{
    if s.len() == 0 || is_white(s[0]) {
        0
    } else {
        1 + word_len(s.skip(1))
    }
}

proof fn lemma_word_len(s: Seq<char>)
    ensures
        word_len(s) <= s.len(),
    decreases s.len(),
{
    if s.len() > 0 && !is_white(s[0]) {
        lemma_word_len(s.skip(1));
    }
}

proof fn lemma_trim_start_len(s: Seq<char>, class: CharClass)
    ensures
        trim_start(s, class).len() <= s.len(),
    decreases s.len(),
{
    if s.len() > 0 && class.holds(s[0]) {
        lemma_trim_start_len(s.skip(1), class);
    }
}

/// The runs of characters other than white space, in order.
pub open spec fn words(s: Seq<char>) -> Seq<Seq<char>>
    decreases s.len(),
{
    let t = trim_start(s, CharClass::White);
    if t.len() == 0 {
        seq![]
    } else {
        proof {
            lemma_words_decrease(s);
        }
        seq![t.take(word_len(t) as int)] + words(t.skip(word_len(t) as int))
    }
}

proof fn lemma_trim_start_head(s: Seq<char>, class: CharClass)
    ensures
        trim_start(s, class).len() > 0 ==> !class.holds(trim_start(s, class)[0]),
    decreases s.len(),
{
    if s.len() > 0 && class.holds(s[0]) {
        lemma_trim_start_head(s.skip(1), class);
    }
}

/// Taking the first word off a text leaves a shorter one.
pub proof fn lemma_words_decrease(s: Seq<char>)
    ensures
        ({
            let t = trim_start(s, CharClass::White);
            t.len() > 0 ==> 0 < word_len(t) <= t.len() && t.skip(word_len(t) as int).len() < s.len()
        }),
{
    let t = trim_start(s, CharClass::White);
    lemma_trim_start_len(s, CharClass::White);
    lemma_trim_start_head(s, CharClass::White);
    lemma_word_len(t);
}

/// The views of a vector of strings.
pub open spec fn texts(v: Seq<String>) -> Seq<Seq<char>> {
    v.map_values(|s: String| s@)
}

/// The runs of characters other than white space, in order.
pub fn split_words(s: &[char]) -> (r: Vec<String>)
    ensures
        texts(r@) == words(s@),
{
    let mut out: Vec<String> = Vec::new();
    let mut rest = strip_start(s, CharClass::White);
    proof {
        lemma_words_decrease(s@);
    }
    assert(words(s@) =~= texts(out@) + words(s@));
    let ghost mut from = s@;
    while rest.len() > 0
        invariant
            rest@ == trim_start(from, CharClass::White),
            words(s@) == texts(out@) + words(from),
        decreases rest@.len(),
    {
        let ghost t = rest@;
        let mut n: usize = 0;
        assert(t.skip(0) =~= t);
        while n < rest.len() && !is_white_space(rest[n])
            invariant
                n <= rest@.len(),
                t == rest@,
                word_len(t) == n + word_len(t.skip(n as int)),
            decreases rest@.len() - n,
        {
            assert(t.skip(n as int).skip(1) =~= t.skip(n + 1));
            n = n + 1;
        }
        proof {
            lemma_words_decrease(from);
            lemma_trim_start_len(t.skip(n as int), CharClass::White);
        }
        let word = string_of(slice_subrange(rest, 0, n));
        assert(word@ =~= t.take(n as int));
        let ghost before = out@;
        out.push(word);
        assert(texts(out@) =~= texts(before).push(t.take(n as int)));
        let tail = slice_subrange(rest, n, rest.len());
        assert(tail@ =~= t.skip(n as int));
        rest = strip_start(tail, CharClass::White);
        assert(words(s@) =~= texts(out@) + words(tail@));
        proof {
            from = tail@;
        }
    }
    assert(words(from) =~= seq![]);
    out
}

// ---------------------------------------------------------------------------
// Numbers

/// The digit for a number below 16.
pub open spec fn digit(n: int) -> char {
    if n < 10 {
        (48 + n) as char
    } else {
        (87 + n) as char
    }
}

fn digit_of(n: u8) -> (r: char)
    requires
        n < 16,
    ensures
        r == digit(n as int),
{
    if n < 10 {
        (48 + n) as char
    } else {
        (87 + n) as char
    }
}

/// The decimal notation of `n`.
pub open spec fn decimal(n: nat) -> Seq<char>
    decreases n,
{
    if n < 10 {
        seq![digit(n as int)]
    } else {
        decimal(n / 10).push(digit((n % 10) as int))
    }
}

/// The decimal notation of `n`.
pub fn decimal_of(n: u128) -> (r: String)
    ensures
        r@ == decimal(n as nat),
    decreases n,
{
    let last = digit_of((n % 10) as u8);
    let mut out = if n < 10 {
        String::new()
    } else {
        decimal_of(n / 10)
    };
    out.push(last);
    out
}

/// Whether `c` is a decimal digit.
pub open spec fn is_digit(c: char) -> bool {
    '0' <= c <= '9'
}

/// Whether `s` consists of decimal digits alone.
pub open spec fn all_digits(s: Seq<char>) -> bool {
    forall|k: int| 0 <= k < s.len() ==> is_digit(#[trigger] s[k])
}

/// The number that decimal digits write.
pub open spec fn number(s: Seq<char>) -> nat
    decreases s.len(),
{
    if s.len() == 0 {
        0
    } else {
        number(s.drop_last()) * 10 + (s.last() as nat - '0' as nat) as nat
    }
}

/// Whether `s` consists of decimal digits alone.
pub fn only_digits(s: &[char]) -> (r: bool)
    ensures
        r == all_digits(s@),
{
    let mut i: usize = 0;
    while i < s.len()
        invariant
            i <= s@.len(),
            forall|k: int| 0 <= k < i ==> is_digit(#[trigger] s@[k]),
        decreases s@.len() - i,
    {
        if !('0' <= s[i] && s[i] <= '9') {
            return false;
        }
        i = i + 1;
    }
    true
}

/// The number that decimal digits write, where it is at most `max`.
pub fn number_up_to(s: &[char], max: u64) -> (r: Option<u64>)
    requires
        all_digits(s@),
    ensures
        match r {
            Some(n) => n == number(s@) && n <= max,
            None => number(s@) > max,
        },
{
    let mut n: u128 = 0;
    let mut i: usize = 0;
    let mut over: bool = false;
    assert(s@.take(0) =~= seq![]);
    while i < s.len()
        invariant
            i <= s@.len(),
            all_digits(s@),
            over ==> number(s@.take(i as int)) > max,
            !over ==> n == number(s@.take(i as int)) && n <= max,
        decreases s@.len() - i,
    {
        let d: u128 = (s[i] as u32 - '0' as u32) as u128;
        assert(s@.take(i + 1).drop_last() =~= s@.take(i as int));
        if !over {
            n = n * 10 + d;
            if n > max as u128 {
                over = true;
            }
        }
        i = i + 1;
    }
    assert(s@.take(i as int) =~= s@);
    if over {
        None
    } else {
        Some(n as u64)
    }
}

/// Decimal notation is made of digits, and reads back as the number.
pub proof fn lemma_decimal(n: nat)
    ensures
        decimal(n).len() > 0,
        all_digits(decimal(n)),
        number(decimal(n)) == n,
    decreases n,
{
    if n < 10 {
        reveal_with_fuel(number, 2);
        assert(decimal(n).drop_last() =~= seq![]);
    } else {
        lemma_decimal(n / 10);
        assert(decimal(n).drop_last() =~= decimal(n / 10));
    }
}

/// The two hexadecimal digits of each byte, one after the other.
pub open spec fn hex(bytes: Seq<u8>) -> Seq<char>
    decreases bytes.len(),
{
    if bytes.len() == 0 {
        seq![]
    } else {
        hex(bytes.drop_last()).push(digit(bytes.last() as int / 16)).push(
            digit(bytes.last() as int % 16),
        )
    }
}

/// The two hexadecimal digits of each byte, one after the other.
pub fn hex_of(bytes: &[u8]) -> (r: String)
    ensures
        r@ == hex(bytes@),
{
    let mut out = String::new();
    let mut i: usize = 0;
    while i < bytes.len()
        invariant
            i <= bytes@.len(),
            out@ == hex(bytes@.take(i as int)),
        decreases bytes@.len() - i,
    {
        let b = bytes[i];
        out.push(digit_of(b / 16));
        out.push(digit_of(b % 16));
        i = i + 1;
        assert(bytes@.take(i as int).drop_last() =~= bytes@.take(i - 1));
    }
    assert(bytes@.take(i as int) =~= bytes@);
    out
}

/// `n` spaces.
pub open spec fn spaces(n: nat) -> Seq<char> {
    Seq::new(n, |i: int| ' ')
}

/// `s` with spaces after it up to the width `width`.
pub open spec fn padded(s: Seq<char>, width: nat) -> Seq<char> {
    if s.len() < width {
        s + spaces((width - s.len()) as nat)
    } else {
        s
    }
}

/// `s` with spaces after it up to the width `width`.
pub fn pad(s: &str, width: usize) -> (r: String)
    ensures
        r@ == padded(s@, width as nat),
{
    let len = s.unicode_len();
    let mut out = s.to_owned();
    let mut n: usize = len;
    while n < width
        invariant
            len == s@.len(),
            n <= width || n == len,
            n >= len,
            out@ =~= s@ + spaces((n - len) as nat),
        decreases width - n,
    {
        out.push(' ');
        n = n + 1;
    }
    assert(spaces(0) =~= seq![]);
    out
}

// ---------------------------------------------------------------------------
// Laws

/// The lines of a text make up the text; each ends with its only line feed, but
/// for the last, which may have none.
pub proof fn law_lines_make_up_the_text(s: Seq<char>)
    ensures
        lines(s).flatten() == s,
        forall|i: int|
            0 <= i < lines(s).len() ==> (#[trigger] lines(s)[i]).len() > 0 && (forall|k: int|
                0 <= k < lines(s)[i].len() - 1 ==> lines(s)[i][k] != '\n'),
        forall|i: int| 0 <= i < lines(s).len() - 1 ==> (#[trigger] lines(s)[i]).last() == '\n',
    decreases s.len(),
{
    if s.len() > 0 {
        lemma_first_line(s);
        lemma_find(s, '\n');
        let n = first_line_len(s);
        let rest = s.skip(n);
        law_lines_make_up_the_text(rest);
        let all = lines(s);
        assert(all.drop_first() =~= lines(rest));
        assert(all.first() == s.take(n));
        assert(s.take(n) + rest =~= s);
        assert forall|i: int| 0 <= i < all.len() implies (#[trigger] all[i]).len() > 0 && (forall|
            k: int,
        |
            0 <= k < all[i].len() - 1 ==> all[i][k] != '\n') by {
            if i > 0 {
                assert(all[i] == lines(rest)[i - 1]);
            }
        }
        assert forall|i: int| 0 <= i < all.len() - 1 implies (#[trigger] all[i]).last() == '\n' by {
            if i > 0 {
                assert(all[i] == lines(rest)[i - 1]);
            } else if n == s.len() && find(s, '\n') >= s.len() {
                assert(rest =~= seq![]);
                assert(lines(rest).len() == 0);
            }
        }
    }
}

/// Small letters are made of capital ones, and nothing else changes.
pub proof fn law_only_capital_letters_change(s: Seq<char>, k: int)
    requires
        0 <= k < s.len(),
    ensures
        lower(s).len() == s.len(),
        'A' <= s[k] <= 'Z' ==> lower(s)[k] as u32 == s[k] as u32 + 32,
        !('A' <= s[k] <= 'Z') ==> lower(s)[k] == s[k],
{
}

/// Of the ASCII characters, the blank, the tab, the line feed and the other control
/// characters up to the carriage return are white space, and no others.
pub proof fn law_white_space(c: char)
    requires
        c as u32 <= 0x7f,
    ensures
        is_white(c) <==> c == ' ' || c == '\t' || c == '\n' || c == '\r' || c as u32 == 0x0b
            || c as u32 == 0x0c,
{
}

/// The number that a hexadecimal digit stands for.
pub open spec fn hex_value(c: char) -> int {
    if '0' <= c <= '9' {
        c as int - '0' as int
    } else {
        c as int - 'a' as int + 10
    }
}

/// Each byte is written with two digits, the higher one first.
pub proof fn law_hex_digits_read_back(bytes: Seq<u8>, i: int)
    requires
        0 <= i < bytes.len(),
    ensures
        hex(bytes).len() == 2 * bytes.len(),
        0 <= hex_value(hex(bytes)[2 * i]) < 16,
        0 <= hex_value(hex(bytes)[2 * i + 1]) < 16,
        bytes[i] == hex_value(hex(bytes)[2 * i]) * 16 + hex_value(hex(bytes)[2 * i + 1]),
        forall|c: char| #[trigger]
            hex(bytes).contains(c) ==> '0' <= c <= '9' || 'a' <= c <= 'f',
    decreases bytes.len(),
{
    crate::checksum::lemma_hex_chars(bytes);
    let init = bytes.drop_last();
    crate::checksum::lemma_hex_chars(init);
    let b = bytes.last() as int;
    if i < init.len() {
        law_hex_digits_read_back(init, i);
        assert(hex(bytes)[2 * i] == hex(init)[2 * i]);
        assert(hex(bytes)[2 * i + 1] == hex(init)[2 * i + 1]);
    } else {
        assert(hex(bytes)[2 * i] == digit(b / 16));
        assert(hex(bytes)[2 * i + 1] == digit(b % 16));
        lemma_digit_value(b / 16);
        lemma_digit_value(b % 16);
    }
}

proof fn lemma_digit_value(n: int)
    requires
        0 <= n < 16,
    ensures
        hex_value(digit(n)) == n,
{
    if n < 10 {
        assert(digit(n) as int == 48 + n);
    } else {
        assert(digit(n) as int == 87 + n);
    }
}

/// The words of a text are its runs of other characters than white space: white
/// space before the first one makes no difference, and after it the others follow.
pub proof fn law_words_are_runs(space: Seq<char>, word: Seq<char>, rest: Seq<char>)
    requires
        forall|k: int| 0 <= k < space.len() ==> is_white(#[trigger] space[k]),
        forall|k: int| 0 <= k < word.len() ==> !is_white(#[trigger] word[k]),
        word.len() > 0,
        rest.len() == 0 || is_white(rest[0]),
    ensures
        words(space).len() == 0,
        words(space + word + rest) == seq![word] + words(rest),
{
    let white = CharClass::White;
    lemma_trim_start_stops(space, white);
    let t0 = trim_start(space, white);
    if t0.len() > 0 {
        assert(t0[0] == space[space.len() - t0.len()]);
    }
    let s = space + word + rest;
    assert forall|k: int| 0 <= k < space.len() implies white.holds(#[trigger] s[k]) by {
        assert(s[k] == space[k]);
    }
    assert(s[space.len() as int] == word[0]);
    lemma_trim_start(s, white, space.len() as int);
    let t = word + rest;
    assert(s.skip(space.len() as int) =~= t);
    lemma_word_run(word, rest);
    assert(t.take(word.len() as int) =~= word);
    assert(t.skip(word.len() as int) =~= rest);
    lemma_words_decrease(s);
}

proof fn lemma_word_run(word: Seq<char>, rest: Seq<char>)
    requires
        forall|k: int| 0 <= k < word.len() ==> !is_white(#[trigger] word[k]),
        rest.len() == 0 || is_white(rest[0]),
    ensures
        word_len(word + rest) == word.len(),
    decreases word.len(),
{
    if word.len() == 0 {
        assert(word + rest =~= rest);
    } else {
        let w = word.skip(1);
        assert((word + rest)[0] == word[0]);
        assert((word + rest).skip(1) =~= w + rest);
        assert forall|k: int| 0 <= k < w.len() implies !is_white(#[trigger] w[k]) by {
            assert(w[k] == word[k + 1]);
        }
        lemma_word_run(w, rest);
    }
}

/// A text without a prefix is the rest, just where it starts with the prefix.
pub proof fn law_prefixes_are_taken_off(prefix: Seq<char>, rest: Seq<char>, s: Seq<char>)
    ensures
        without_prefix(prefix + rest, prefix) == Some(rest),
        without_prefix(s, prefix) is Some ==> s == prefix + without_prefix(s, prefix)->0,
{
    let t = prefix + rest;
    assert(t.subrange(0, prefix.len() as int) =~= prefix);
    assert(t.skip(prefix.len() as int) =~= rest);
    if without_prefix(s, prefix) is Some {
        assert(s =~= prefix + s.skip(prefix.len() as int));
    }
}

/// Decimal notation has no zeros before the number, and is read as the number.
pub proof fn law_decimal_notation(n: nat)
    ensures
        number(decimal(n)) == n,
        all_digits(decimal(n)),
        n > 0 ==> decimal(n)[0] != '0',
        n < 10 ==> decimal(n).len() == 1,
    decreases n,
{
    lemma_decimal(n);
    if n >= 10 {
        law_decimal_notation(n / 10);
        lemma_decimal(n / 10);
        assert(decimal(n)[0] == decimal(n / 10)[0]);
    } else {
        assert(decimal(n)[0] == digit(n as int));
        assert(digit(n as int) as int == 48 + n);
    }
}

/// A text is filled up with blanks to a width, and kept where it is as wide.
pub proof fn law_texts_are_filled_up(s: Seq<char>, width: nat)
    ensures
        s.len() >= width ==> padded(s, width) == s,
        s.len() < width ==> padded(s, width).len() == width && padded(s, width).take(s.len() as int)
            == s && forall|k: int| s.len() <= k < width ==> #[trigger] padded(s, width)[k] == ' ',
{
    if s.len() < width {
        assert(padded(s, width).take(s.len() as int) =~= s);
    } else {
        assert(padded(s, width) =~= s);
    }
}

} // verus!
