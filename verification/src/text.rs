//! Text helpers: conversions between bytes, strings and characters,
//! truncation to a number of characters, and decimal rendering.

use vstd::prelude::*;
use vstd::string::*;
use vstd::std_specs::iter::IteratorSpec;

verus! {

broadcast use vstd::string::group_string_axioms;

/// The single character that marks truncated text.
pub const ELLIPSIS: char = '\u{2026}';

/// Text that lossy UTF-8 decoding gives for `bytes`: every malformed
/// sequence becomes U+FFFD.
pub uninterp spec fn lossy_text(bytes: Seq<u8>) -> Seq<char>;

/// `s` with every character replaced by its Unicode lowercase mapping.
pub uninterp spec fn lowercase_text(s: Seq<char>) -> Seq<char>;

/// Whether `c` has the Unicode property White_Space: the controls from tab
/// to carriage return, the space, next line, the no-break spaces, the
/// Ogham space mark, the spaces of fixed width, the line and paragraph
/// separators, the medium mathematical space and the ideographic space.
pub open spec fn char_is_whitespace(c: char) -> bool {
    ||| '\u{9}' <= c <= '\u{d}'
    ||| c == ' '
    ||| c == '\u{85}'
    ||| c == '\u{a0}'
    ||| c == '\u{1680}'
    ||| '\u{2000}' <= c <= '\u{200a}'
    ||| c == '\u{2028}'
    ||| c == '\u{2029}'
    ||| c == '\u{202f}'
    ||| c == '\u{205f}'
    ||| c == '\u{3000}'
}

/// Whether `needle` occurs in `hay` as a contiguous run of characters.
pub open spec fn has_substring(hay: Seq<char>, needle: Seq<char>) -> bool {
    exists|i: int|
        0 <= i && i + needle.len() <= hay.len() && #[trigger] hay.subrange(
            i,
            i + needle.len() as int,
        ) == needle
}

/// Calls `String::from_utf8_lossy` and owns the result. The decoded text is
/// a function of the bytes alone; it is known here only by name.
#[verifier::external_body]
pub(crate) fn utf8_lossy(bytes: &[u8]) -> (s: String)
    ensures
        s@ == lossy_text(bytes@),
{
    String::from_utf8_lossy(bytes).into_owned()
}

/// Calls `str::to_lowercase`. The mapping follows the Unicode tables, so the
/// result is known here only by name.
#[verifier::external_body]
pub(crate) fn to_lowercase(s: &str) -> (r: String)
    ensures
        r@ == lowercase_text(s@),
{
    s.to_lowercase()
}

/// Calls `str::contains` with a string pattern: true exactly when the
/// pattern matches a sub-slice of `hay`.
#[verifier::external_body]
pub(crate) fn str_contains(hay: &str, needle: &str) -> (r: bool)
    ensures
        r == has_substring(hay@, needle@),
{
    hay.contains(needle)
}

/// Calls `char::is_whitespace`, which decides by the Unicode property
/// White_Space; the characters that have it are the ones listed in
/// [`char_is_whitespace`].
#[verifier::external_body]
pub(crate) fn is_whitespace(c: char) -> (r: bool)
    ensures
        r == char_is_whitespace(c),
{
    c.is_whitespace()
}

/// Calls `String::push`, which appends one character.
#[verifier::external_body]
pub(crate) fn push_char(s: &mut String, c: char)
    ensures
        final(s)@ == old(s)@.push(c),
{
    s.push(c)
}

/// The characters of `s`, in order.
pub fn chars_of(s: &str) -> (v: Vec<char>)
    ensures
        v@ == s@,
{
    let mut v: Vec<char> = Vec::new();
    for c in it: s.chars()
        invariant
            it.seq() == s@,
            v@ == s@.take(it.index() as int),
    {
        assert(s@.take(it.index() + 1) =~= s@.take(it.index() as int).push(c));
        v.push(c);
    }
    assert(s@.take(s@.len() as int) =~= s@);
    v
}

/// The string made of `chars[from..to]`.
pub fn string_from_chars(chars: &[char], from: usize, to: usize) -> (s: String)
    requires
        from <= to <= chars.len(),
    ensures
        s@ == chars@.subrange(from as int, to as int),
{
    let mut s = String::new();
    let mut i: usize = from;
    while i < to
        invariant
            from <= i <= to <= chars.len(),
            s@ == chars@.subrange(from as int, i as int),
        decreases to - i,
    {
        push_char(&mut s, chars[i]);
        assert(chars@.subrange(from as int, i + 1) =~= chars@.subrange(from as int, i as int).push(
            chars@[i as int],
        ));
        i += 1;
    }
    s
}

/// The first `max` characters of `s`, followed by an ellipsis when `s` is
/// longer; nothing at all when `max` is 0.
pub open spec fn truncated(s: Seq<char>, max: nat) -> Seq<char> {
    if max == 0 {
        Seq::empty()
    } else if s.len() > max {
        s.take(max as int).push(ELLIPSIS)
    } else {
        s
    }
}

/// Like [`truncated`], but when `force` is set the result always ends with an
/// ellipsis: one is appended unless the text already ends with one.
pub open spec fn truncated_forced(s: Seq<char>, max: nat, force: bool) -> Seq<char> {
    if max == 0 {
        if force {
            seq![ELLIPSIS]
        } else {
            Seq::empty()
        }
    } else {
        let out = truncated(s, max);
        if force && !(out.len() > 0 && out.last() == ELLIPSIS) {
            out.push(ELLIPSIS)
        } else {
            out
        }
    }
}

/// `s` without the NUL, line feed and carriage return characters at its end.
pub open spec fn strip_trailing_pad(s: Seq<char>) -> Seq<char>
    decreases s.len(),
{
    if s.len() > 0 && (s.last() == '\0' || s.last() == '\n' || s.last() == '\r') {
        strip_trailing_pad(s.drop_last())
    } else {
        s
    }
}

/// How many characters of `chars` remain once the NUL, line feed and
/// carriage return characters at its end are dropped.
pub fn stripped_len(chars: &[char]) -> (n: usize)
    ensures
        n <= chars.len(),
        chars@.take(n as int) == strip_trailing_pad(chars@),
{
    let mut n: usize = chars.len();
    assert(chars@.take(n as int) =~= chars@);
    while n > 0 && (chars[n - 1] == '\0' || chars[n - 1] == '\n' || chars[n - 1] == '\r')
        invariant
            n <= chars.len(),
            strip_trailing_pad(chars@) == strip_trailing_pad(chars@.take(n as int)),
        decreases n,
    {
        assert(chars@.take(n as int).drop_last() =~= chars@.take(n - 1));
        n -= 1;
    }
    n
}

/// Appends an ellipsis to `s` when `force` is set and `s` does not end with
/// one already.
pub open spec fn with_forced_ellipsis(s: Seq<char>, force: bool) -> Seq<char> {
    if force && !(s.len() > 0 && s.last() == ELLIPSIS) {
        s.push(ELLIPSIS)
    } else {
        s
    }
}

/// Appends an ellipsis to `s` when `force` is set and `s` does not end
/// with one already.
pub fn force_ellipsis(s: String, force: bool) -> (r: String)
    ensures
        r@ == with_forced_ellipsis(s@, force),
{
    let mut out = s;
    if force {
        let n = out.as_str().unicode_len();
        if !(n > 0 && out.as_str().get_char(n - 1) == ELLIPSIS) {
            push_char(&mut out, ELLIPSIS);
        }
    }
    out
}

/// The first `len` characters of `chars`, cut to at most `max` characters.
pub fn truncated_from_chars(chars: &[char], len: usize, max: usize) -> (r: String)
    requires
        len <= chars.len(),
    ensures
        r@ == truncated(chars@.take(len as int), max as nat),
{
    if max == 0 {
        return String::new();
    }
    if len > max {
        let mut out = string_from_chars(chars, 0, max);
        push_char(&mut out, ELLIPSIS);
        assert(chars@.subrange(0, max as int) =~= chars@.take(len as int).take(max as int));
        out
    } else {
        let out = string_from_chars(chars, 0, len);
        assert(chars@.subrange(0, len as int) =~= chars@.take(len as int));
        out
    }
}

/// Cuts `s` to at most `max` characters, marking a cut with an ellipsis.
pub fn truncate_chars(s: &str, max: usize) -> (r: String)
    ensures
        r@ == truncated(s@, max as nat),
{
    if max == 0 {
        return String::new();
    }
    let n = s.unicode_len();
    if n > max {
        let mut out = String::from_str(s.substring_char(0, max));
        push_char(&mut out, ELLIPSIS);
        assert(s@.subrange(0, max as int) =~= s@.take(max as int));
        out
    } else {
        String::from_str(s)
    }
}

/// Cuts `s` to at most `max` characters; with `force_ellipsis` the result
/// ends with an ellipsis even if nothing was cut.
pub fn truncate_chars_force_ellipsis(s: &str, max: usize, force_ellipsis: bool) -> (r: String)
    ensures
        r@ == truncated_forced(s@, max as nat, force_ellipsis),
{
    if max == 0 {
        let mut out = String::new();
        if force_ellipsis {
            push_char(&mut out, ELLIPSIS);
            assert(out@ =~= seq![ELLIPSIS]);
        }
        return out;
    }
    let mut out = truncate_chars(s, max);
    if force_ellipsis {
        let n = out.as_str().unicode_len();
        if !(n > 0 && out.as_str().get_char(n - 1) == ELLIPSIS) {
            push_char(&mut out, ELLIPSIS);
        }
    }
    out
}

/// The decimal digit `d` as a character.
pub open spec fn digit_char(d: nat) -> char
    recommends
        d < 10,
{
    ((0x30 + d) as u8) as char
}

/// Decimal rendering of `n`, without leading zeros.
pub open spec fn decimal_text(n: nat) -> Seq<char>
    decreases n,
{
    if n < 10 {
        seq![digit_char(n)]
    } else {
        decimal_text(n / 10).push(digit_char(n % 10))
    }
}

/// Renders `n` in decimal.
pub fn decimal_string(n: u128) -> (s: String)
    ensures
        s@ == decimal_text(n as nat),
    decreases n,
{
    if n < 10 {
        let mut s = String::new();
        push_char(&mut s, (0x30 + n as u8) as char);
        assert(s@ =~= seq![digit_char(n as nat)]);
        s
    } else {
        let mut s = decimal_string(n / 10);
        push_char(&mut s, (0x30 + (n % 10) as u8) as char);
        s
    }
}

/// Decimal rendering of `i`, with a minus sign when it is negative.
pub open spec fn int_text(i: int) -> Seq<char> {
    if i < 0 {
        seq!['-'] + decimal_text((-i) as nat)
    } else {
        decimal_text(i as nat)
    }
}

/// Renders `i` in decimal.
pub fn int_string(i: i128) -> (s: String)
    ensures
        s@ == int_text(i as int),
{
    if i < 0 {
        let magnitude: u128 = if i == i128::MIN {
            0x8000_0000_0000_0000_0000_0000_0000_0000
        } else {
            (-i) as u128
        };
        let mut s = String::new();
        push_char(&mut s, '-');
        let digits = decimal_string(magnitude);
        s.append(digits.as_str());
        assert(s@ =~= seq!['-'] + decimal_text((-i) as nat));
        s
    } else {
        decimal_string(i as u128)
    }
}

/// `a`, then the decimal rendering of `x`, then `b`, then that of `y`.
pub fn message_with_numbers(a: &str, x: u64, b: &str, y: u64) -> (s: String)
    ensures
        s@ == a@ + decimal_text(x as nat) + b@ + decimal_text(y as nat),
{
    let mut s = String::from_str(a);
    let dx = decimal_string(x as u128);
    s.append(dx.as_str());
    s.append(b);
    let dy = decimal_string(y as u128);
    s.append(dy.as_str());
    s
}

} // verus!
