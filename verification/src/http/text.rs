//! Text as sequences of characters: searching, splitting, lines, trimming
//! and decimal numbers, each with the mathematical function it computes.

use vstd::prelude::*;
use vstd::utf8::{
    decode_utf8, encode_scalar, encode_utf8, encode_utf8_decode_utf8, encode_utf8_valid_utf8,
    valid_utf8,
};

verus! {

/// Whether `text` begins with `pattern`.
pub open spec fn starts_with(text: Seq<char>, pattern: Seq<char>) -> bool {
    pattern.len() <= text.len() && text.subrange(0, pattern.len() as int) == pattern
}

/// The position of the leftmost occurrence of `pattern` in `text`.
pub open spec fn find(text: Seq<char>, pattern: Seq<char>) -> Option<int>
    decreases text.len(),
{
    if starts_with(text, pattern) {
        Some(0)
    } else if text.len() == 0 {
        None
    } else {
        match find(text.drop_first(), pattern) {
            Some(i) => Some(i + 1),
            None => None,
        }
    }
}

/// Whether `pattern` occurs somewhere in `text`.
pub open spec fn contains(text: Seq<char>, pattern: Seq<char>) -> bool {
    find(text, pattern) is Some
}

/// The pieces of `text` between the occurrences of `pattern`, taken from
/// left to right without overlap. A text without an occurrence is its own
/// single piece, so there is always at least one piece. An empty pattern
/// splits nothing.
pub open spec fn split(text: Seq<char>, pattern: Seq<char>) -> Seq<Seq<char>>
    decreases text.len(),
{
    match find(text, pattern) {
        Some(i) => {
            if 0 <= i && 0 < pattern.len() && i + pattern.len() <= text.len() {
                seq![text.take(i)] + split(text.skip(i + pattern.len()), pattern)
            } else {
                seq![text]
            }
        },
        None => seq![text],
    }
}

/// The characters of each text of a list.
pub open spec fn views(list: Seq<Vec<char>>) -> Seq<Seq<char>> {
    Seq::new(list.len(), |i: int| list[i]@)
}

/// The characters of a string slice, in order.
pub fn chars_of(text: &str) -> (out: Vec<char>)
    ensures
        out@ == text@,
{
    let mut out: Vec<char> = Vec::new();
    for c in it: text.chars()
        invariant
            out@ == it.seq().take(it.index() as int),
    {
        out.push(c);
    }
    out
}

/// Calls `String::from_iter`, which builds the string that holds the given
/// characters in the given order.
#[verifier::external_body]
pub(crate) fn string_of(chars: &[char]) -> (out: String)
    ensures
        out@ == chars@,
{
    String::from_iter(chars)
}

/// A copy of the characters of `text` from position `from` up to `to`.
pub fn slice_of(text: &[char], from: usize, to: usize) -> (out: Vec<char>)
    requires
        from <= to <= text.len(),
    ensures
        out@ == text@.subrange(from as int, to as int),
{
    let mut out: Vec<char> = Vec::new();
    let mut i: usize = from;
    while i < to
        invariant
            from <= i <= to <= text.len(),
            out@ == text@.subrange(from as int, i as int),
        decreases to - i,
    {
        out.push(text[i]);
        i += 1;
    }
    out
}

/// Whether two texts hold the same characters.
pub fn same(a: &[char], b: &[char]) -> (out: bool)
    ensures
        out == (a@ == b@),
{
    if a.len() != b.len() {
        return false;
    }
    let mut i: usize = 0;
    while i < a.len()
        invariant
            i <= a.len() == b.len(),
            a@.take(i as int) == b@.take(i as int),
        decreases a.len() - i,
    {
        if a[i] != b[i] {
            return false;
        }
        assert(a@.take(i + 1) == a@.take(i as int).push(a@[i as int]));
        assert(b@.take(i + 1) == b@.take(i as int).push(b@[i as int]));
        i += 1;
    }
    assert(a@ == a@.take(a.len() as int));
    assert(b@ == b@.take(b.len() as int));
    true
}

/// Whether two string slices hold the same characters.
pub fn same_text(a: &str, b: &str) -> (out: bool)
    ensures
        out == (a@ == b@),
{
    let a = chars_of(a);
    let b = chars_of(b);
    same(a.as_slice(), b.as_slice())
}

/// Whether `pattern` stands in `text` at position `at`.
pub fn starts_with_at(text: &[char], pattern: &[char], at: usize) -> (out: bool)
    requires
        at <= text.len(),
    ensures
        out == starts_with(text@.skip(at as int), pattern@),
{
    if pattern.len() > text.len() - at {
        return false;
    }
    let ghost rest = text@.skip(at as int);
    let mut i: usize = 0;
    while i < pattern.len()
        invariant
            at <= text.len(),
            i <= pattern.len() <= text.len() - at,
            rest == text@.skip(at as int),
            rest.subrange(0, i as int) == pattern@.take(i as int),
        decreases pattern.len() - i,
    {
        if text[at + i] != pattern[i] {
            assert(rest.subrange(0, pattern.len() as int)[i as int] != pattern@[i as int]);
            return false;
        }
        assert(rest.subrange(0, i + 1) == rest.subrange(0, i as int).push(rest[i as int]));
        assert(pattern@.take(i + 1) == pattern@.take(i as int).push(pattern@[i as int]));
        i += 1;
    }
    assert(pattern@ == pattern@.take(pattern.len() as int));
    true
}

/// The position of the leftmost occurrence of `pattern` in `text` at or after
/// position `from`.
pub fn find_from(text: &[char], pattern: &[char], from: usize) -> (out: Option<usize>)
    requires
        from <= text.len(),
    ensures
        match out {
            Some(i) => from <= i <= text.len() && find(text@.skip(from as int), pattern@) == Some(
                i - from,
            ),
            None => find(text@.skip(from as int), pattern@) is None,
        },
{
    let mut i: usize = from;
    loop
        invariant
            from <= i <= text.len(),
            match find(text@.skip(i as int), pattern@) {
                Some(k) => find(text@.skip(from as int), pattern@) == Some(k + i - from),
                None => find(text@.skip(from as int), pattern@) is None,
            },
        decreases text.len() - i,
    {
        if starts_with_at(text, pattern, i) {
            return Some(i);
        }
        if i == text.len() {
            return None;
        }
        assert(text@.skip(i as int).drop_first() == text@.skip(i + 1));
        i += 1;
    }
}

/// The pieces of `text` between the occurrences of `pattern`. An empty
/// pattern leaves the text in one piece.
pub fn split_at_each(text: &[char], pattern: &[char]) -> (out: Vec<Vec<char>>)
    ensures
        views(out@) == split(text@, pattern@),
{
    let mut out: Vec<Vec<char>> = Vec::new();
    if pattern.len() == 0 {
        let whole = slice_of(text, 0, text.len());
        assert(whole@ == text@);
        out.push(whole);
        assert(views(out@) == seq![text@]);
        return out;
    }
    let mut from: usize = 0;
    assert(text@.skip(0) == text@);
    assert(views(out@) + split(text@, pattern@) == split(text@, pattern@));
    loop
        invariant
            pattern.len() > 0,
            from <= text.len(),
            views(out@) + split(text@.skip(from as int), pattern@) == split(text@, pattern@),
        decreases text.len() - from,
    {
        let ghost rest = text@.skip(from as int);
        let ghost before = views(out@);
        match find_from(text, pattern, from) {
            Some(i) => {
                proof {
                    lemma_find(rest, pattern@);
                }
                let piece = slice_of(text, from, i);
                assert(piece@ == rest.take(i - from));
                out.push(piece);
                assert(views(out@) == before.push(rest.take(i - from)));
                assert(rest.skip(i - from + pattern.len()) == text@.skip(i + pattern.len()));
                from = i + pattern.len();
            },
            None => {
                let piece = slice_of(text, from, text.len());
                assert(piece@ == rest);
                out.push(piece);
                assert(views(out@) == before.push(rest));
                return out;
            },
        }
    }
}

/// A line without the carriage return that ends it, if one does.
pub open spec fn strip_cr(line: Seq<char>) -> Seq<char> {
    if line.len() > 0 && line.last() == '\r' {
        line.drop_last()
    } else {
        line
    }
}

/// The lines of `text`. A line ends at a line feed; the line feed, and one
/// carriage return directly before it, belong to no line. What follows the
/// last line feed is a line of its own unless it is empty, and keeps a
/// carriage return at its end.
pub open spec fn lines(text: Seq<char>) -> Seq<Seq<char>>
    decreases text.len(),
{
    if text.len() == 0 {
        seq![]
    } else {
        match find(text, seq!['\n']) {
            Some(i) => {
                if 0 <= i < text.len() {
                    seq![strip_cr(text.take(i))] + lines(text.skip(i + 1))
                } else {
                    seq![text]
                }
            },
            None => seq![text],
        }
    }
}

/// The lines of `text`.
pub fn lines_of(text: &[char]) -> (out: Vec<Vec<char>>)
    ensures
        views(out@) == lines(text@),
{
    let mut out: Vec<Vec<char>> = Vec::new();
    let feed = pattern('\n');
    let mut from: usize = 0;
    assert(text@.skip(0) == text@);
    assert(views(out@) + lines(text@) == lines(text@));
    while from < text.len()
        invariant
            feed@ == seq!['\n'],
            from <= text.len(),
            views(out@) + lines(text@.skip(from as int)) == lines(text@),
        decreases text.len() - from,
    {
        let ghost rest = text@.skip(from as int);
        let ghost before = views(out@);
        match find_from(text, feed.as_slice(), from) {
            Some(i) => {
                proof {
                    lemma_find(rest, feed@);
                }
                let end = if i > from && text[i - 1] == '\r' {
                    i - 1
                } else {
                    i
                };
                let piece = slice_of(text, from, end);
                assert(rest.take(i - from) == text@.subrange(from as int, i as int));
                assert(piece@ == strip_cr(rest.take(i - from)));
                out.push(piece);
                assert(views(out@) == before.push(strip_cr(rest.take(i - from))));
                assert(rest.skip(i - from + 1) == text@.skip(i + 1));
                from = i + 1;
            },
            None => {
                let piece = slice_of(text, from, text.len());
                assert(piece@ == rest);
                out.push(piece);
                assert(views(out@) == before.push(rest));
                assert(text@.skip(text.len() as int).len() == 0);
                from = text.len();
            },
        }
    }
    assert(lines(text@.skip(from as int)) == Seq::<Seq<char>>::empty());
    out
}

/// Whether `c` is white space: a character with the Unicode property
/// `White_Space`.
pub open spec fn is_whitespace(c: char) -> bool {
    let n = c as u32;
    ||| 0x09 <= n <= 0x0D
    ||| n == 0x20
    ||| n == 0x85
    ||| n == 0xA0
    ||| n == 0x1680
    ||| 0x2000 <= n <= 0x200A
    ||| n == 0x2028
    ||| n == 0x2029
    ||| n == 0x202F
    ||| n == 0x205F
    ||| n == 0x3000
}

/// Whether `c` is white space.
pub fn whitespace(c: char) -> (out: bool)
    ensures
        out == is_whitespace(c),
{
    let n: u32 = c as u32;
    (0x09 <= n && n <= 0x0D) || n == 0x20 || n == 0x85 || n == 0xA0 || n == 0x1680 || (0x2000 <= n
        && n <= 0x200A) || n == 0x2028 || n == 0x2029 || n == 0x202F || n == 0x205F || n == 0x3000
}

/// `text` without the white space at its start.
pub open spec fn trim_start(text: Seq<char>) -> Seq<char>
    decreases text.len(),
{
    if text.len() > 0 && is_whitespace(text[0]) {
        trim_start(text.drop_first())
    } else {
        text
    }
}

/// `text` without the white space at its end.
pub open spec fn trim_end(text: Seq<char>) -> Seq<char>
    decreases text.len(),
{
    if text.len() > 0 && is_whitespace(text.last()) {
        trim_end(text.drop_last())
    } else {
        text
    }
}

/// `text` without the white space at its start and at its end.
pub open spec fn trim(text: Seq<char>) -> Seq<char> {
    trim_end(trim_start(text))
}

/// `text` without the white space at its start and at its end.
pub fn trimmed(text: &[char]) -> (out: Vec<char>)
    ensures
        out@ == trim(text@),
{
    let mut from: usize = 0;
    assert(text@.skip(0) == text@);
    while from < text.len() && whitespace(text[from])
        invariant
            from <= text.len(),
            trim_start(text@.skip(from as int)) == trim_start(text@),
        decreases text.len() - from,
    {
        assert(text@.skip(from as int).drop_first() == text@.skip(from + 1));
        from += 1;
    }
    let ghost kept = text@.skip(from as int);
    assert(trim_start(text@) == kept);
    let mut to: usize = text.len();
    assert(text@.subrange(from as int, to as int) == kept);
    while to > from && whitespace(text[to - 1])
        invariant
            from <= to <= text.len(),
            trim_end(text@.subrange(from as int, to as int)) == trim_end(kept),
        decreases to - from,
    {
        assert(text@.subrange(from as int, to as int).drop_last() == text@.subrange(
            from as int,
            to - 1,
        ));
        to -= 1;
    }
    slice_of(text, from, to)
}

/// The character that stands for a digit from 0 to 9.
pub open spec fn digit(d: int) -> char
    recommends
        0 <= d <= 9,
{
    ((48 + d) as u8) as char
}

/// The decimal numeral of `n`, without leading zeros.
pub open spec fn decimal(n: nat) -> Seq<char>
    decreases n,
{
    if n < 10 {
        seq![digit(n as int)]
    } else {
        decimal(n / 10).push(digit((n % 10) as int))
    }
}

/// The decimal numeral of `n`.
pub fn decimal_of(n: u64) -> (out: Vec<char>)
    ensures
        out@ == decimal(n as nat),
    decreases n,
{
    if n < 10 {
        let mut out: Vec<char> = Vec::new();
        out.push((48u8 + n as u8) as char);
        assert(out@ == seq![digit(n as int)]);
        out
    } else {
        let mut out = decimal_of(n / 10);
        out.push((48u8 + (n % 10) as u8) as char);
        out
    }
}

/// Whether `c` is one of the digits from `0` to `9`.
pub open spec fn is_digit(c: char) -> bool {
    48 <= c as u32 <= 57
}

/// Whether `text` holds digits only.
pub open spec fn all_digits(text: Seq<char>) -> bool {
    forall|i: int| 0 <= i < text.len() ==> is_digit(#[trigger] text[i])
}

/// The number that a text of digits denotes in base ten.
pub open spec fn digits_value(text: Seq<char>) -> nat
    decreases text.len(),
{
    if text.len() == 0 {
        0
    } else {
        (digits_value(text.drop_last()) * 10 + (text.last() as u32 - 48)) as nat
    }
}

/// The number that `text` denotes: one or more digits, which a single `+`
/// may precede. Any other text denotes none.
pub open spec fn number(text: Seq<char>) -> Option<nat> {
    let digits = if text.len() > 0 && text[0] == '+' {
        text.drop_first()
    } else {
        text
    };
    if digits.len() > 0 && all_digits(digits) {
        Some(digits_value(digits))
    } else {
        None
    }
}

/// The number that `text` denotes, if it is one below 65536.
pub open spec fn number_u16(text: Seq<char>) -> Option<u16> {
    match number(text) {
        Some(n) => if n <= u16::MAX {
            Some(n as u16)
        } else {
            None
        },
        None => None,
    }
}

/// A text of digits denotes at least what any of its beginnings denotes.
pub proof fn lemma_digits_value_grows(text: Seq<char>, n: int)
    requires
        0 <= n <= text.len(),
        all_digits(text),
    ensures
        digits_value(text.take(n)) <= digits_value(text),
    decreases text.len() - n,
{
    if n < text.len() {
        lemma_digits_value_grows(text, n + 1);
        assert(text.take(n + 1).drop_last() == text.take(n));
        assert(is_digit(text.take(n + 1).last()));
    } else {
        assert(text.take(n) == text);
    }
}

/// The number below 65536 that `text` denotes.
pub fn parse_u16(text: &[char]) -> (out: Option<u16>)
    ensures
        out == number_u16(text@),
{
    let from: usize = if text.len() > 0 && text[0] == '+' {
        1
    } else {
        0
    };
    let ghost digits = text@.skip(from as int);
    assert(from == 1 ==> digits == text@.drop_first());
    assert(from == 0 ==> digits == text@);
    if from == text.len() {
        return None;
    }
    let mut value: u32 = 0;
    let mut i: usize = from;
    assert(digits.take(0) == Seq::<char>::empty());
    while i < text.len()
        invariant
            from <= i <= text.len(),
            from < text.len(),
            digits == text@.skip(from as int),
            digits == if text@.len() > 0 && text@[0] == '+' {
                text@.drop_first()
            } else {
                text@
            },
            all_digits(digits.take(i - from)),
            value == digits_value(digits.take(i - from)),
            value <= u16::MAX,
        decreases text.len() - i,
    {
        let c = text[i];
        let n: u32 = c as u32;
        if n < 48 || n > 57 {
            assert(!is_digit(digits[i - from]));
            return None;
        }
        assert(digits.take(i - from + 1).drop_last() == digits.take(i - from));
        assert(digits.take(i - from + 1).last() == c);
        assert(all_digits(digits.take(i - from + 1))) by {
            assert forall|k: int| 0 <= k < i - from + 1 implies is_digit(
                #[trigger] digits.take(i - from + 1)[k],
            ) by {
                if k < i - from {
                    assert(digits.take(i - from)[k] == digits[k]);
                }
            }
        }
        let next: u32 = value * 10 + (n - 48);
        if next > 65535 {
            proof {
                if all_digits(digits) {
                    lemma_digits_value_grows(digits, i - from + 1);
                }
            }
            return None;
        }
        value = next;
        i += 1;
    }
    assert(digits.take(i - from) == digits);
    Some(value as u16)
}

/// The texts of `parts` in order, with `separator` between each two.
pub open spec fn join(parts: Seq<Seq<char>>, separator: Seq<char>) -> Seq<char>
    decreases parts.len(),
{
    if parts.len() == 0 {
        seq![]
    } else if parts.len() == 1 {
        parts[0]
    } else {
        join(parts.drop_last(), separator) + separator + parts.last()
    }
}

/// Appends the characters of `more` to `text`.
pub fn extend(text: &mut Vec<char>, more: &[char])
    ensures
        final(text)@ == old(text)@ + more@,
{
    let mut i: usize = 0;
    while i < more.len()
        invariant
            i <= more.len(),
            text@ == old(text)@ + more@.take(i as int),
        decreases more.len() - i,
    {
        text.push(more[i]);
        assert(more@.take(i + 1) == more@.take(i as int).push(more@[i as int]));
        i += 1;
    }
    assert(more@.take(more.len() as int) == more@);
}

/// The one-character text that a pattern of one character is.
pub fn pattern(c: char) -> (out: Vec<char>)
    ensures
        out@ == seq![c],
{
    let mut out: Vec<char> = Vec::new();
    out.push(c);
    out
}

/// Appends the characters of a string to a text.
pub fn push_str(text: &mut Vec<char>, more: &str)
    ensures
        final(text)@ == old(text)@ + more@,
{
    let chars = chars_of(more);
    extend(text, chars.as_slice());
}

/// The position of the first zero byte of `bytes`, or their number if none
/// of them is zero.
pub open spec fn nul_at(bytes: Seq<u8>) -> int
    decreases bytes.len(),
{
    if bytes.len() == 0 || bytes[0] == 0 {
        0
    } else {
        1 + nul_at(bytes.drop_first())
    }
}

/// The bytes of a buffer that count: those before its first zero byte.
pub open spec fn until_nul(bytes: Seq<u8>) -> Seq<u8> {
    bytes.take(nul_at(bytes))
}

/// The text that a buffer holds: what its bytes before the first zero byte
/// spell in UTF-8, if they are UTF-8.
pub open spec fn text_of(bytes: Seq<u8>) -> Option<Seq<char>> {
    if valid_utf8(until_nul(bytes)) {
        Some(decode_utf8(until_nul(bytes)))
    } else {
        None
    }
}

/// How the standard library describes the failure to read given bytes as
/// UTF-8.
pub uninterp spec fn decode_failure(bytes: Seq<u8>) -> Seq<char>;

/// Calls `String::from_utf8`, which accepts exactly the bytes that are UTF-8
/// and gives the string that they spell. Of other bytes the result holds
/// the error as `Debug` prints it.
#[verifier::external_body]
pub(crate) fn decode(bytes: Vec<u8>) -> (out: Result<String, String>)
    ensures
        out is Ok == valid_utf8(bytes@),
        out matches Ok(text) ==> text@ == decode_utf8(bytes@),
        out matches Err(why) ==> why@ == decode_failure(bytes@),
{
    match String::from_utf8(bytes) {
        Ok(text) => Ok(text),
        Err(error) => Err(format!("{:?}", error)),
    }
}

/// The text that a buffer holds, or why it holds none.
pub fn text_in(bytes: &[u8]) -> (out: Result<String, String>)
    ensures
        out is Ok == text_of(bytes@) is Some,
        out matches Ok(text) ==> Some(text@) == text_of(bytes@),
        out matches Err(why) ==> why@ == decode_failure(until_nul(bytes@)),
{
    let mut cut: Vec<u8> = Vec::new();
    let mut i: usize = 0;
    assert(bytes@.skip(0) == bytes@);
    while i < bytes.len() && bytes[i] != 0
        invariant
            i <= bytes.len(),
            cut@ == bytes@.take(i as int),
            nul_at(bytes@) == i + nul_at(bytes@.skip(i as int)),
        decreases bytes.len() - i,
    {
        cut.push(bytes[i]);
        assert(bytes@.skip(i as int).drop_first() == bytes@.skip(i + 1));
        i += 1;
    }
    decode(cut)
}

/// Whether `c` occurs nowhere in `text`.
pub open spec fn free_of(text: Seq<char>, c: char) -> bool {
    forall|i: int| 0 <= i < text.len() ==> #[trigger] text[i] != c
}

/// Whether a pattern cannot begin inside one occurrence of itself and end
/// behind it: it has one character, or two that differ.
pub open spec fn unbordered(pattern: Seq<char>) -> bool {
    pattern.len() == 1 || (pattern.len() == 2 && pattern[0] != pattern[1])
}

/// What `find` reports: the first position at which the pattern stands, or
/// that it stands nowhere.
pub proof fn lemma_find(text: Seq<char>, pattern: Seq<char>)
    ensures
        match find(text, pattern) {
            Some(i) => 0 <= i <= text.len() && starts_with(text.skip(i), pattern) && forall|
                j: int,
            |
                0 <= j < i ==> !starts_with(#[trigger] text.skip(j), pattern),
            None => forall|j: int|
                0 <= j <= text.len() ==> !starts_with(#[trigger] text.skip(j), pattern),
        },
    decreases text.len(),
{
    assert(text.skip(0) == text);
    if !starts_with(text, pattern) && text.len() > 0 {
        let rest = text.drop_first();
        lemma_find(rest, pattern);
        match find(rest, pattern) {
            Some(i) => {
                assert(rest.skip(i) == text.skip(i + 1));
                assert forall|j: int| 0 <= j < i + 1 implies !starts_with(
                    #[trigger] text.skip(j),
                    pattern,
                ) by {
                    if j > 0 {
                        assert(rest.skip(j - 1) == text.skip(j));
                    }
                }
            },
            None => {
                assert forall|j: int| 0 <= j <= text.len() implies !starts_with(
                    #[trigger] text.skip(j),
                    pattern,
                ) by {
                    if j > 0 {
                        assert(rest.skip(j - 1) == text.skip(j));
                    }
                }
            },
        }
    }
}

/// The pattern is found where it stands first.
pub proof fn lemma_find_is(text: Seq<char>, pattern: Seq<char>, at: int)
    requires
        0 <= at <= text.len(),
        starts_with(text.skip(at), pattern),
        forall|j: int| 0 <= j < at ==> !starts_with(#[trigger] text.skip(j), pattern),
    ensures
        find(text, pattern) == Some(at),
{
    lemma_find(text, pattern);
}

/// A character is found in a text exactly when the text is not free of it.
pub proof fn lemma_find_char(text: Seq<char>, c: char)
    ensures
        find(text, seq![c]) is None <==> free_of(text, c),
        find(text, seq![c]) matches Some(i) ==> 0 <= i < text.len() && text[i] == c && free_of(
            text.take(i),
            c,
        ),
{
    let pattern = seq![c];
    lemma_find(text, pattern);
    assert forall|j: int| 0 <= j <= text.len() implies (starts_with(
        #[trigger] text.skip(j),
        pattern,
    ) <==> (j < text.len() && text[j] == c)) by {
        if j < text.len() {
            assert(text.skip(j).subrange(0, 1) == seq![text[j]]);
            assert(seq![text[j]][0] == text[j]);
            assert(pattern[0] == c);
        }
    }
    match find(text, pattern) {
        Some(i) => {
            assert(!free_of(text, c));
            assert forall|k: int| 0 <= k < i implies #[trigger] text.take(i)[k] != c by {
                assert(!starts_with(text.skip(k), pattern));
            }
        },
        None => {
            assert forall|k: int| 0 <= k < text.len() implies #[trigger] text[k] != c by {
                assert(!starts_with(text.skip(k), pattern));
            }
        },
    }
    if free_of(text, c) {
        if find(text, pattern) is Some {
            assert(text[find(text, pattern)->0] == c);
        }
    }
}

/// No piece of a text that was split at a character holds that character.
pub proof fn lemma_pieces_free_of(text: Seq<char>, c: char)
    ensures
        forall|i: int|
            0 <= i < split(text, seq![c]).len() ==> free_of(#[trigger] split(text, seq![c])[i], c),
    decreases text.len(),
{
    let pattern = seq![c];
    lemma_find_char(text, c);
    match find(text, pattern) {
        Some(at) => {
            let rest = text.skip(at + 1);
            lemma_pieces_free_of(rest, c);
            assert forall|i: int| 0 <= i < split(text, pattern).len() implies free_of(
                #[trigger] split(text, pattern)[i],
                c,
            ) by {
                if i > 0 {
                    assert(split(text, pattern)[i] == split(rest, pattern)[i - 1]);
                }
            }
        },
        None => {},
    }
}

/// A text without the pattern is its own single piece.
pub proof fn lemma_split_whole(text: Seq<char>, pattern: Seq<char>)
    requires
        find(text, pattern) is None,
    ensures
        split(text, pattern) == seq![text],
{
}

/// A text that goes on behind the first occurrence of the pattern splits
/// into what stands before the occurrence and the pieces of what stands
/// behind it.
pub proof fn lemma_split_first(before: Seq<char>, pattern: Seq<char>, behind: Seq<char>)
    requires
        pattern.len() > 0,
        find(before + pattern + behind, pattern) == Some(before.len() as int),
    ensures
        split(before + pattern + behind, pattern) == seq![before] + split(behind, pattern),
{
    let text = before + pattern + behind;
    assert(text.take(before.len() as int) == before);
    assert(text.skip((before.len() + pattern.len()) as int) == behind);
}

/// The pattern stands behind a text that does not hold it, and nowhere
/// before, where the pattern follows the text.
pub proof fn lemma_find_behind(before: Seq<char>, pattern: Seq<char>, behind: Seq<char>)
    requires
        unbordered(pattern),
        find(before, pattern) is None,
    ensures
        find(before + pattern + behind, pattern) == Some(before.len() as int),
{
    let text = before + pattern + behind;
    let n = before.len() as int;
    lemma_find(before, pattern);
    assert(text.skip(n).subrange(0, pattern.len() as int) == pattern);
    assert forall|j: int| 0 <= j < n implies !starts_with(#[trigger] text.skip(j), pattern) by {
        if starts_with(text.skip(j), pattern) {
            let found = text.skip(j).subrange(0, pattern.len() as int);
            assert(found == pattern);
            if j + pattern.len() <= n {
                assert(before.skip(j).subrange(0, pattern.len() as int) == found);
                assert(starts_with(before.skip(j), pattern));
            } else {
                assert(pattern.len() == 2 && j == n - 1);
                assert(found[1] == text[n]);
                assert(text[n] == pattern[0]);
            }
        }
    }
    lemma_find_is(text, pattern, n);
}

/// Joining and splitting undo each other: the pieces of texts joined by a
/// pattern are those texts, where none of them holds the pattern.
pub proof fn lemma_split_join(parts: Seq<Seq<char>>, pattern: Seq<char>)
    requires
        parts.len() > 0,
        unbordered(pattern),
        forall|i: int| 0 <= i < parts.len() ==> find(#[trigger] parts[i], pattern) is None,
    ensures
        split(join(parts, pattern), pattern) == parts,
    decreases parts.len(),
{
    if parts.len() == 1 {
        assert(join(parts, pattern) == parts[0]);
        assert(parts == seq![parts[0]]);
    } else {
        let rest = parts.drop_first();
        lemma_join_first(parts, pattern);
        assert forall|i: int| 0 <= i < rest.len() implies find(#[trigger] rest[i], pattern)
            is None by {
            assert(rest[i] == parts[i + 1]);
        }
        lemma_split_join(rest, pattern);
        lemma_find_behind(parts[0], pattern, join(rest, pattern));
        lemma_split_first(parts[0], pattern, join(rest, pattern));
        assert(seq![parts[0]] + rest == parts);
    }
}

/// Texts joined by a separator are the first text, the separator, and the
/// other texts joined.
pub proof fn lemma_join_first(parts: Seq<Seq<char>>, separator: Seq<char>)
    requires
        parts.len() >= 2,
    ensures
        join(parts, separator) == parts[0] + separator + join(parts.drop_first(), separator),
    decreases parts.len(),
{
    let rest = parts.drop_first();
    if parts.len() == 2 {
        assert(parts.drop_last() == seq![parts[0]]);
        assert(join(parts.drop_last(), separator) == parts[0]);
        assert(join(rest, separator) == parts[1]);
    } else {
        lemma_join_first(parts.drop_last(), separator);
        assert(parts.drop_last().drop_first() == rest.drop_last());
        assert(rest.last() == parts.last());
        assert(parts.drop_last()[0] == parts[0]);
        assert(join(parts, separator) == (parts[0] + separator + join(
            rest.drop_last(),
            separator,
        )) + separator + parts.last());
        assert(join(rest, separator) == join(rest.drop_last(), separator) + separator
            + rest.last());
    }
}

/// Two texts that are free of a character are free of it when put
/// together.
pub proof fn lemma_free_of_concat(a: Seq<char>, b: Seq<char>, c: char)
    ensures
        free_of(a + b, c) <==> free_of(a, c) && free_of(b, c),
{
    if free_of(a + b, c) {
        assert forall|i: int| 0 <= i < a.len() implies #[trigger] a[i] != c by {
            assert((a + b)[i] == a[i]);
        }
        assert forall|i: int| 0 <= i < b.len() implies #[trigger] b[i] != c by {
            assert((a + b)[a.len() + i] == b[i]);
        }
    }
}

/// Texts that are free of a character, joined by a separator that is free
/// of it, are free of it.
pub proof fn lemma_free_of_join(parts: Seq<Seq<char>>, separator: Seq<char>, c: char)
    requires
        free_of(separator, c),
        forall|i: int| 0 <= i < parts.len() ==> free_of(#[trigger] parts[i], c),
    ensures
        free_of(join(parts, separator), c),
    decreases parts.len(),
{
    if parts.len() >= 2 {
        let front = parts.drop_last();
        assert forall|i: int| 0 <= i < front.len() implies free_of(#[trigger] front[i], c) by {
            assert(front[i] == parts[i]);
        }
        lemma_free_of_join(front, separator, c);
        lemma_free_of_concat(join(front, separator), separator, c);
        lemma_free_of_concat(join(front, separator) + separator, parts.last(), c);
    }
}

/// The numeral of a number holds digits only, and denotes the number.
pub proof fn lemma_decimal(n: nat)
    ensures
        decimal(n).len() > 0,
        all_digits(decimal(n)),
        digits_value(decimal(n)) == n,
    decreases n,
{
    if n < 10 {
        let text = seq![digit(n as int)];
        assert(text.drop_last() == Seq::<char>::empty());
        assert(text.last() == digit(n as int));
        assert(digits_value(text.drop_last()) == 0);
    } else {
        lemma_decimal(n / 10);
        let front = decimal(n / 10);
        let text = front.push(digit((n % 10) as int));
        assert(text.drop_last() == front);
        assert(text.last() == digit((n % 10) as int));
        assert forall|i: int| 0 <= i < text.len() implies is_digit(#[trigger] text[i]) by {
            if i < front.len() {
                assert(text[i] == front[i]);
            }
        }
    }
}

/// A number below 65536 is read back from its numeral.
pub proof fn lemma_number_of_decimal(n: u16)
    ensures
        number_u16(decimal(n as nat)) == Some(n),
{
    lemma_decimal(n as nat);
    assert(is_digit(decimal(n as nat)[0]));
}

/// The numeral of a number is free of every character that is no digit.
pub proof fn lemma_decimal_free_of(n: nat, c: char)
    requires
        !is_digit(c),
    ensures
        free_of(decimal(n), c),
{
    lemma_decimal(n);
    assert forall|i: int| 0 <= i < decimal(n).len() implies #[trigger] decimal(n)[i] != c by {
        assert(is_digit(decimal(n)[i]));
    }
}

/// A space before a text does not change what is left of it when trimmed.
pub proof fn lemma_trim_space_before(text: Seq<char>)
    ensures
        trim(seq![' '] + text) == trim(text),
{
    let spaced = seq![' '] + text;
    assert(spaced[0] == ' ');
    assert(spaced.drop_first() == text);
}

/// The bytes of a character other than the zero character are not zero.
pub proof fn lemma_scalar_without_nul(c: char)
    requires
        c != '\0',
    ensures
        forall|i: int| 0 <= i < encode_scalar(c as u32).len() ==> #[trigger] encode_scalar(
            c as u32,
        )[i] != 0,
{
    let s = c as u32;
    assert(s != 0);
    assert(0 < s <= 0x7F ==> (s & 0x7F) as u8 != 0) by (bit_vector);
    assert(0xC0u8 | ((s >> 6) & 0x1F) as u8 != 0) by (bit_vector);
    assert(0xE0u8 | ((s >> 12) & 0x0F) as u8 != 0) by (bit_vector);
    assert(0xF0u8 | ((s >> 18) & 0x7) as u8 != 0) by (bit_vector);
    assert(0x80u8 | (s & 0x3F) as u8 != 0) by (bit_vector);
    assert(0x80u8 | ((s >> 6) & 0x3F) as u8 != 0) by (bit_vector);
    assert(0x80u8 | ((s >> 12) & 0x3F) as u8 != 0) by (bit_vector);
}

/// The bytes of a text that is free of the zero character are not zero.
pub proof fn lemma_encoding_without_nul(text: Seq<char>)
    requires
        free_of(text, '\0'),
    ensures
        forall|i: int| 0 <= i < encode_utf8(text).len() ==> #[trigger] encode_utf8(text)[i] != 0,
    decreases text.len(),
{
    if text.len() > 0 {
        let first = encode_scalar(text[0] as u32);
        let rest = text.drop_first();
        assert(text[0] != '\0');
        lemma_scalar_without_nul(text[0]);
        assert forall|i: int| 0 <= i < rest.len() implies #[trigger] rest[i] != '\0' by {
            assert(rest[i] == text[i + 1]);
        }
        lemma_encoding_without_nul(rest);
        assert forall|i: int| 0 <= i < encode_utf8(text).len() implies #[trigger] encode_utf8(
            text,
        )[i] != 0 by {
            if i < first.len() {
                assert(encode_utf8(text)[i] == first[i]);
            } else {
                assert(encode_utf8(text)[i] == encode_utf8(rest)[i - first.len()]);
            }
        }
    }
}

/// The first zero byte stands where a zero byte follows bytes that are not
/// zero, or where such bytes end.
pub proof fn lemma_nul_at(bytes: Seq<u8>, at: int)
    requires
        0 <= at <= bytes.len(),
        forall|i: int| 0 <= i < at ==> #[trigger] bytes[i] != 0,
        at == bytes.len() || bytes[at] == 0,
    ensures
        nul_at(bytes) == at,
    decreases bytes.len(),
{
    if at > 0 {
        let rest = bytes.drop_first();
        assert(bytes[0] != 0);
        assert forall|i: int| 0 <= i < at - 1 implies #[trigger] rest[i] != 0 by {
            assert(rest[i] == bytes[i + 1]);
        }
        lemma_nul_at(rest, at - 1);
    }
}

/// A buffer that begins with the bytes of a text, and ends there or goes on
/// with a zero byte, holds that text, where the text is free of the zero
/// character.
pub proof fn lemma_text_of_buffer(text: Seq<char>, bytes: Seq<u8>)
    requires
        free_of(text, '\0'),
        encode_utf8(text).len() <= bytes.len(),
        bytes.take(encode_utf8(text).len() as int) == encode_utf8(text),
        encode_utf8(text).len() == bytes.len() || bytes[encode_utf8(text).len() as int] == 0,
    ensures
        text_of(bytes) == Some(text),
{
    let n = encode_utf8(text).len() as int;
    lemma_encoding_without_nul(text);
    assert forall|i: int| 0 <= i < n implies #[trigger] bytes[i] != 0 by {
        assert(bytes.take(n)[i] == bytes[i]);
    }
    lemma_nul_at(bytes, n);
    encode_utf8_valid_utf8(text);
    encode_utf8_decode_utf8(text);
}

} // verus!
