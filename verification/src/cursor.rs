//! Resumable position in a file, and the opaque token that carries it:
//! URL-safe unpadded Base64 of a compact JSON object.

use vstd::prelude::*;
use vstd::string::{StrSliceExecFns, StringExecFns};
use crate::engine::CoreError;
use crate::text::{decimal_text, message_with_numbers};

verus! {

/// Where the next page starts: a byte offset and the id of the next record.
/// Row-oriented files use `line` alone, as the index of the next row.
#[derive(Debug, Clone, Copy, PartialEq, Eq, Structural)]
pub struct Cursor {
    pub offset: u64,
    pub line: u64,
}

/// The cursor of a file's start.
pub open spec fn zero_cursor() -> Cursor {
    Cursor { offset: 0, line: 0 }
}

/// `base64::DecodeError`, carried from the decoder to the error message.
#[verifier::external_type_specification]
#[verifier::external_body]
pub struct ExDecodeError(base64::DecodeError);

/// URL-safe Base64 text of `bytes`, without padding.
pub uninterp spec fn base64_url_text(bytes: Seq<u8>) -> Seq<char>;

/// The bytes that URL-safe unpadded Base64 text stands for, or `None` where
/// `text` is no such text.
pub uninterp spec fn base64_url_bytes(text: Seq<char>) -> Option<Seq<u8>>;

/// Length of unpadded Base64 text for `n` bytes: four characters for every
/// three bytes, and two or three for one or two bytes left over.
pub open spec fn base64_len(n: nat) -> nat {
    (n / 3) * 4 + (if n % 3 == 0 {
        0nat
    } else {
        (n % 3 + 1) as nat
    })
}

/// Calls `Engine::encode` of `base64::engine::general_purpose::URL_SAFE_NO_PAD`.
/// The text is known by name; its length is the one the crate computes for
/// it, and decoding it with the same engine gives the bytes back. The crate
/// panics when the length overflows, which the bound on the input excludes.
#[verifier::external_body]
pub(crate) fn base64_url_encode(bytes: &[u8]) -> (r: String)
    requires
        bytes@.len() <= 0x3000_0000,
    ensures
        r@ == base64_url_text(bytes@),
        r@.len() == base64_len(bytes@.len()),
        base64_url_bytes(r@) == Some(bytes@),
{
    base64::Engine::encode(&base64::engine::general_purpose::URL_SAFE_NO_PAD, bytes)
}

/// Calls `Engine::decode` of `base64::engine::general_purpose::URL_SAFE_NO_PAD`:
/// the decoded bytes, or the decoder's error for text that is not Base64.
#[verifier::external_body]
pub(crate) fn base64_url_decode(text: &str) -> (r: Result<Vec<u8>, base64::DecodeError>)
    ensures
        match r {
            Ok(bytes) => base64_url_bytes(text@) == Some(bytes@),
            Err(_) => base64_url_bytes(text@) is None,
        },
{
    base64::Engine::decode(&base64::engine::general_purpose::URL_SAFE_NO_PAD, text)
}

/// Renders a `base64::DecodeError` through its `Display` impl.
#[verifier::external_body]
pub(crate) fn decode_error_text(e: &base64::DecodeError) -> (s: String) {
    e.to_string()
}

/// Whether `b` is an ASCII digit.
pub open spec fn is_digit(b: u8) -> bool {
    0x30 <= b <= 0x39
}

/// Decimal digits of `n`, most significant first, without leading zeros.
pub open spec fn decimal_bytes(n: nat) -> Seq<u8>
    decreases n,
{
    if n < 10 {
        seq![(0x30 + n) as u8]
    } else {
        decimal_bytes(n / 10).push((0x30 + n % 10) as u8)
    }
}

/// The number that the digits `s` spell.
pub open spec fn digits_value(s: Seq<u8>) -> nat
    decreases s.len(),
{
    if s.len() == 0 {
        0
    } else {
        digits_value(s.drop_last()) * 10 + (s.last() - 0x30) as nat
    }
}

/// The first index at or after `i` that holds no digit.
pub open spec fn digits_end(s: Seq<u8>, i: int) -> int
    decreases s.len() - i,
{
    if 0 <= i < s.len() && is_digit(s[i]) {
        digits_end(s, i + 1)
    } else {
        i
    }
}

/// The number written at `i`, and where it ends: at least one digit, no
/// leading zero, and a value that fits 64 bits.
pub open spec fn number_at(s: Seq<u8>, i: int) -> Option<(u64, int)> {
    let e = digits_end(s, i);
    if 0 <= i < e && (e - i == 1 || s[i] != 0x30) && digits_value(s.subrange(i, e)) <= u64::MAX {
        Some((digits_value(s.subrange(i, e)) as u64, e))
    } else {
        None
    }
}

/// Whether `pat` stands in `s` at `i`.
pub open spec fn has_at(s: Seq<u8>, i: int, pat: Seq<u8>) -> bool {
    0 <= i && i + pat.len() <= s.len() && s.subrange(i, i + pat.len()) == pat
}

/// The bytes `{"offset":`.
pub open spec fn offset_key() -> Seq<u8> {
    seq![0x7Bu8, 0x22, 0x6F, 0x66, 0x66, 0x73, 0x65, 0x74, 0x22, 0x3A]
}

/// The bytes `,"line":`.
pub open spec fn line_key() -> Seq<u8> {
    seq![0x2Cu8, 0x22, 0x6C, 0x69, 0x6E, 0x65, 0x22, 0x3A]
}

/// The bytes `{"idx":`.
pub open spec fn idx_key() -> Seq<u8> {
    seq![0x7Bu8, 0x22, 0x69, 0x64, 0x78, 0x22, 0x3A]
}

/// The compact JSON object of a cursor: `{"offset":<n>,"line":<n>}`.
pub open spec fn cursor_json(c: Cursor) -> Seq<u8> {
    offset_key() + decimal_bytes(c.offset as nat) + line_key() + decimal_bytes(c.line as nat)
        + seq![0x7Du8]
}

/// The cursor that the compact JSON object `s` spells, if it spells one.
pub open spec fn cursor_of_json(s: Seq<u8>) -> Option<Cursor> {
    if !has_at(s, 0, offset_key()) {
        None
    } else {
        match number_at(s, offset_key().len() as int) {
            None => None,
            Some((offset, e1)) => if !has_at(s, e1, line_key()) {
                None
            } else {
                match number_at(s, e1 + line_key().len()) {
                    None => None,
                    Some((line, e2)) => if e2 + 1 == s.len() && s[e2] == 0x7D {
                        Some(Cursor { offset, line })
                    } else {
                        None
                    },
                }
            },
        }
    }
}

/// The compact JSON object of an index: `{"idx":<n>}`.
pub open spec fn index_json(idx: u64) -> Seq<u8> {
    idx_key() + decimal_bytes(idx as nat) + seq![0x7Du8]
}

/// The index that the compact JSON object `s` spells, if it spells one.
pub open spec fn index_of_json(s: Seq<u8>) -> Option<u64> {
    if !has_at(s, 0, idx_key()) {
        None
    } else {
        match number_at(s, idx_key().len() as int) {
            None => None,
            Some((idx, e)) => if e + 1 == s.len() && s[e] == 0x7D {
                Some(idx)
            } else {
                None
            },
        }
    }
}

/// The token of cursor `c`.
pub open spec fn cursor_token(c: Cursor) -> Seq<char> {
    base64_url_text(cursor_json(c))
}

/// The cursor that `token` stands for: the start of the file for no token
/// or an empty one; `None` for a token that is not the Base64 text of a
/// cursor's JSON object.
pub open spec fn cursor_of_token(token: Option<Seq<char>>) -> Option<Cursor> {
    match token {
        None => Some(zero_cursor()),
        Some(t) => if t.len() == 0 {
            Some(zero_cursor())
        } else {
            match base64_url_bytes(t) {
                Some(bytes) => cursor_of_json(bytes),
                None => None,
            }
        },
    }
}

/// The token of hit index `idx`.
pub open spec fn index_token(idx: u64) -> Seq<char> {
    base64_url_text(index_json(idx))
}

/// The hit index that `token` stands for: 0 for no token or an empty one.
pub open spec fn index_of_token(token: Option<Seq<char>>) -> Option<u64> {
    match token {
        None => Some(0u64),
        Some(t) => if t.len() == 0 {
            Some(0u64)
        } else {
            match base64_url_bytes(t) {
                Some(bytes) => index_of_json(bytes),
                None => None,
            }
        },
    }
}

/// The digits of a number are digits, start with no zero unless the number
/// is a single digit, and spell the number.
pub proof fn lemma_decimal_bytes(n: nat)
    ensures
        decimal_bytes(n).len() >= 1,
        forall|i: int| 0 <= i < decimal_bytes(n).len() ==> is_digit(#[trigger] decimal_bytes(n)[i]),
        decimal_bytes(n).len() > 1 ==> decimal_bytes(n)[0] != 0x30,
        decimal_bytes(n).len() == 1 ==> n < 10,
        digits_value(decimal_bytes(n)) == n,
        decimal_bytes(n).len() <= n + 1,
    decreases n,
{
    if n < 10 {
        let s = decimal_bytes(n);
        assert(s.drop_last() =~= Seq::<u8>::empty());
        assert(digits_value(s.drop_last()) == 0);
    } else {
        lemma_decimal_bytes(n / 10);
        let front = decimal_bytes(n / 10);
        let s = decimal_bytes(n);
        assert(s.drop_last() =~= front);
        assert(s.last() == (0x30 + n % 10) as u8);
        assert(s[0] == front[0]);
        if front.len() == 1 {
            assert(front[0] == (0x30 + n / 10) as u8);
        }
    }
}

/// A run of digits that a non-digit or the end follows ends where it ends.
proof fn lemma_digits_end_run(s: Seq<u8>, i: int, e: int)
    requires
        0 <= i <= e <= s.len(),
        forall|k: int| i <= k < e ==> is_digit(#[trigger] s[k]),
        e == s.len() || !is_digit(s[e]),
    ensures
        digits_end(s, i) == e,
    decreases e - i,
{
    if i < e {
        lemma_digits_end_run(s, i + 1, e);
    }
}

proof fn lemma_digits_end_bounds(s: Seq<u8>, i: int)
    requires
        0 <= i <= s.len(),
    ensures
        i <= digits_end(s, i) <= s.len(),
        forall|k: int| i <= k < digits_end(s, i) ==> is_digit(#[trigger] s[k]),
        digits_end(s, i) == s.len() || !is_digit(s[digits_end(s, i)]),
    decreases s.len() - i,
{
    if i < s.len() && is_digit(s[i]) {
        lemma_digits_end_bounds(s, i + 1);
    }
}

/// The number written where the digits of `n` stand, before a non-digit or
/// the end, is `n`.
proof fn lemma_number_at_decimal(s: Seq<u8>, i: int, n: u64)
    requires
        has_at(s, i, decimal_bytes(n as nat)),
        i + decimal_bytes(n as nat).len() == s.len() || !is_digit(
            s[i + decimal_bytes(n as nat).len()],
        ),
    ensures
        number_at(s, i) == Some((n, i + decimal_bytes(n as nat).len())),
{
    let d = decimal_bytes(n as nat);
    lemma_decimal_bytes(n as nat);
    let e = i + d.len();
    assert forall|k: int| i <= k < e implies is_digit(#[trigger] s[k]) by {
        assert(s[k] == s.subrange(i, e)[k - i]);
    }
    lemma_digits_end_run(s, i, e);
    assert(s[i] == s.subrange(i, e)[0]);
}

/// Reading the JSON object of a cursor gives the cursor back.
pub proof fn lemma_cursor_json_round_trip(c: Cursor)
    ensures
        cursor_of_json(cursor_json(c)) == Some(c),
        cursor_json(c).len() >= 21,
{
    let d1 = decimal_bytes(c.offset as nat);
    let d2 = decimal_bytes(c.line as nat);
    lemma_decimal_bytes(c.offset as nat);
    lemma_decimal_bytes(c.line as nat);
    let s = cursor_json(c);
    let k1 = offset_key();
    let k2 = line_key();
    let e1: int = (k1.len() + d1.len()) as int;
    let m: int = e1 + k2.len();
    let e2: int = m + d2.len();
    assert(s.len() == e2 + 1);
    assert(s.subrange(0, k1.len() as int) =~= k1);
    assert(s.subrange(k1.len() as int, e1) =~= d1);
    assert(s[e1] == k2[0]);
    lemma_number_at_decimal(s, k1.len() as int, c.offset);
    assert(s.subrange(e1, m) =~= k2);
    assert(s.subrange(m, e2) =~= d2);
    assert(s[e2] == 0x7D);
    lemma_number_at_decimal(s, m, c.line);
}

/// Reading the JSON object of an index gives the index back.
pub proof fn lemma_index_json_round_trip(idx: u64)
    ensures
        index_of_json(index_json(idx)) == Some(idx),
        index_json(idx).len() >= 9,
{
    let d = decimal_bytes(idx as nat);
    lemma_decimal_bytes(idx as nat);
    let s = index_json(idx);
    let k = idx_key();
    let e: int = (k.len() + d.len()) as int;
    assert(s.len() == e + 1);
    assert(s.subrange(0, k.len() as int) =~= k);
    assert(s.subrange(k.len() as int, e) =~= d);
    assert(s[e] == 0x7D);
    lemma_number_at_decimal(s, k.len() as int, idx);
}

/// Digits that start with no zero spell a number of at least one.
proof fn lemma_digits_value_positive(d: Seq<u8>)
    requires
        d.len() >= 1,
        forall|i: int| 0 <= i < d.len() ==> is_digit(#[trigger] d[i]),
        d[0] != 0x30,
    ensures
        digits_value(d) >= 1,
    decreases d.len(),
{
    if d.len() > 1 {
        assert(d.drop_last()[0] == d[0]);
        lemma_digits_value_positive(d.drop_last());
    } else {
        assert(d.last() == d[0]);
        assert(digits_value(d.drop_last()) >= 0);
    }
}

/// Digits without a leading zero are the digits of the number they spell.
proof fn lemma_digits_are_decimal(d: Seq<u8>)
    requires
        d.len() >= 1,
        forall|i: int| 0 <= i < d.len() ==> is_digit(#[trigger] d[i]),
        d.len() == 1 || d[0] != 0x30,
    ensures
        decimal_bytes(digits_value(d)) == d,
    decreases d.len(),
{
    let last = (d.last() - 0x30) as nat;
    if d.len() == 1 {
        assert(d.drop_last() =~= Seq::<u8>::empty());
        assert(digits_value(d.drop_last()) == 0);
        assert(digits_value(d) == last);
        assert(decimal_bytes(last) =~= d);
    } else {
        let front = d.drop_last();
        assert(front[0] == d[0]);
        assert forall|i: int| 0 <= i < front.len() implies is_digit(#[trigger] front[i]) by {
            assert(front[i] == d[i]);
        }
        lemma_digits_value_positive(front);
        lemma_digits_are_decimal(front);
        let n = digits_value(d);
        let v = digits_value(front);
        assert(n == v * 10 + last);
        assert(n / 10 == v && n % 10 == last) by (nonlinear_arith)
            requires
                n == v * 10 + last,
                last < 10,
        ;
        assert(decimal_bytes(n) =~= front.push(d.last()));
        assert(front.push(d.last()) =~= d);
    }
}

/// The number read at `i` is written there with its own digits.
proof fn lemma_number_at_is_decimal(s: Seq<u8>, i: int)
    requires
        0 <= i <= s.len(),
        number_at(s, i) is Some,
    ensures
        ({
            let (n, e) = number_at(s, i)->Some_0;
            &&& i < e <= s.len()
            &&& s.subrange(i, e) == decimal_bytes(n as nat)
        }),
{
    lemma_digits_end_bounds(s, i);
    let e = digits_end(s, i);
    let d = s.subrange(i, e);
    assert forall|k: int| 0 <= k < d.len() implies is_digit(#[trigger] d[k]) by {
        assert(d[k] == s[i + k]);
    }
    assert(d[0] == s[i]);
    lemma_digits_are_decimal(d);
}

/// A cursor is read only from the bytes that writing it gives: whatever
/// the reader accepts is reproduced by writing the cursor it read.
pub proof fn lemma_cursor_json_is_canonical(s: Seq<u8>)
    requires
        cursor_of_json(s) is Some,
    ensures
        cursor_json(cursor_of_json(s)->Some_0) == s,
{
    let k1 = offset_key();
    let k2 = line_key();
    let a: int = k1.len() as int;
    lemma_number_at_is_decimal(s, a);
    let (offset, e1) = number_at(s, a)->Some_0;
    let b: int = e1 + k2.len();
    lemma_number_at_is_decimal(s, b);
    let (line, e2) = number_at(s, b)->Some_0;
    let c = Cursor { offset, line };
    assert(cursor_of_json(s) == Some(c));
    assert(s =~= s.subrange(0, a) + s.subrange(a, e1) + s.subrange(e1, b) + s.subrange(b, e2)
        + seq![0x7Du8]);
}

/// An index is read only from the bytes that writing it gives.
pub proof fn lemma_index_json_is_canonical(s: Seq<u8>)
    requires
        index_of_json(s) is Some,
    ensures
        index_json(index_of_json(s)->Some_0) == s,
{
    let k = idx_key();
    let a: int = k.len() as int;
    lemma_number_at_is_decimal(s, a);
    let (idx, e) = number_at(s, a)->Some_0;
    assert(index_of_json(s) == Some(idx));
    assert(s =~= s.subrange(0, a) + s.subrange(a, e) + seq![0x7Du8]);
}

/// The digits of a longer run spell at least what its first digits spell.
proof fn lemma_digits_value_grows(s: Seq<u8>, k: int)
    requires
        0 <= k <= s.len(),
        forall|i: int| 0 <= i < s.len() ==> is_digit(#[trigger] s[i]),
    ensures
        digits_value(s.take(k)) <= digits_value(s),
    decreases s.len() - k,
{
    if k == s.len() {
        assert(s.take(k) =~= s);
    } else {
        lemma_digits_value_grows(s.drop_last(), k);
        assert(s.drop_last().take(k) =~= s.take(k));
    }
}

fn push_decimal(out: &mut Vec<u8>, n: u64)
    ensures
        final(out)@ == old(out)@ + decimal_bytes(n as nat),
    decreases n,
{
    if n < 10 {
        out.push(0x30 + n as u8);
        assert(out@ =~= old(out)@ + decimal_bytes(n as nat));
    } else {
        push_decimal(out, n / 10);
        out.push(0x30 + (n % 10) as u8);
        assert(out@ =~= old(out)@ + decimal_bytes(n as nat));
    }
}

fn offset_key_bytes() -> (v: Vec<u8>)
    ensures
        v@ == offset_key(),
{
    let mut v: Vec<u8> = Vec::new();
    v.push(0x7B);
    v.push(0x22);
    v.push(0x6F);
    v.push(0x66);
    v.push(0x66);
    v.push(0x73);
    v.push(0x65);
    v.push(0x74);
    v.push(0x22);
    v.push(0x3A);
    assert(v@ =~= offset_key());
    v
}

fn line_key_bytes() -> (v: Vec<u8>)
    ensures
        v@ == line_key(),
{
    let mut v: Vec<u8> = Vec::new();
    v.push(0x2C);
    v.push(0x22);
    v.push(0x6C);
    v.push(0x69);
    v.push(0x6E);
    v.push(0x65);
    v.push(0x22);
    v.push(0x3A);
    assert(v@ =~= line_key());
    v
}

fn idx_key_bytes() -> (v: Vec<u8>)
    ensures
        v@ == idx_key(),
{
    let mut v: Vec<u8> = Vec::new();
    v.push(0x7B);
    v.push(0x22);
    v.push(0x69);
    v.push(0x64);
    v.push(0x78);
    v.push(0x22);
    v.push(0x3A);
    assert(v@ =~= idx_key());
    v
}

fn starts_with_at(data: &[u8], pos: usize, pat: &[u8]) -> (r: bool)
    ensures
        r == has_at(data@, pos as int, pat@),
{
    if pat.len() > data.len() || pos > data.len() - pat.len() {
        return false;
    }
    let mut i: usize = 0;
    while i < pat.len()
        invariant
            i <= pat.len(),
            pos + pat.len() <= data.len(),
            forall|j: int| 0 <= j < i ==> data@[pos + j] == pat@[j],
        decreases pat.len() - i,
    {
        if data[pos + i] != pat[i] {
            assert(data@.subrange(pos as int, pos + pat.len())[i as int] != pat@[i as int]);
            return false;
        }
        i += 1;
    }
    assert(data@.subrange(pos as int, pos + pat.len()) =~= pat@);
    true
}

fn parse_number(data: &[u8], pos: usize) -> (r: Option<(u64, usize)>)
    requires
        pos <= data.len(),
    ensures
        match r {
            Some((n, e)) => number_at(data@, pos as int) == Some((n, e as int)) && pos < e
                <= data.len(),
            None => number_at(data@, pos as int) is None,
        },
{
    proof {
        lemma_digits_end_bounds(data@, pos as int);
    }
    let ghost e = digits_end(data@, pos as int);
    let ghost digits = data@.subrange(pos as int, e);
    let mut p: usize = pos;
    let mut value: u64 = 0;
    assert(data@.subrange(pos as int, pos as int) =~= Seq::<u8>::empty());
    while p < data.len() && 0x30 <= data[p] && data[p] <= 0x39
        invariant
            pos <= p <= e <= data.len(),
            e == digits_end(data@, pos as int),
            digits == data@.subrange(pos as int, e),
            digits_end(data@, p as int) == e,
            forall|k: int| pos <= k < e ==> is_digit(#[trigger] data@[k]),
            value == digits_value(data@.subrange(pos as int, p as int)),
        decreases data.len() - p,
    {
        let d = (data[p] - 0x30) as u64;
        let ghost next = data@.subrange(pos as int, p + 1);
        proof {
            assert(next.drop_last() =~= data@.subrange(pos as int, p as int));
            assert(next.last() == data@[p as int]);
            assert(is_digit(data@[p as int]));
            assert(digits_end(data@, p as int) == digits_end(data@, p + 1));
            lemma_digits_end_bounds(data@, p + 1);
        }
        if value > (u64::MAX - d) / 10 {
            proof {
                assert(digits_value(next) > u64::MAX);
                assert(digits.take(p + 1 - pos) =~= next);
                assert forall|i: int| 0 <= i < digits.len() implies is_digit(
                    #[trigger] digits[i],
                ) by {
                    assert(digits[i] == data@[pos + i]);
                }
                lemma_digits_value_grows(digits, p + 1 - pos);
            }
            return None;
        }
        value = value * 10 + d;
        p += 1;
    }
    if p == pos {
        return None;
    }
    if p - pos > 1 && data[pos] == 0x30 {
        return None;
    }
    Some((value, p))
}

/// A bad-cursor error with the given message.
fn bad_cursor(msg: &str) -> (e: CoreError)
    ensures
        e is BadCursor,
        e->BadCursor_0@ == msg@,
{
    CoreError::BadCursor(String::from_str(msg))
}

fn decode_token(token: &str) -> (r: Result<Vec<u8>, CoreError>)
    ensures
        match r {
            Ok(bytes) => base64_url_bytes(token@) == Some(bytes@),
            Err(e) => base64_url_bytes(token@) is None && e is BadCursor,
        },
{
    match base64_url_decode(token) {
        Ok(bytes) => Ok(bytes),
        Err(e) => Err(CoreError::BadCursor(decode_error_text(&e))),
    }
}

/// Where `s` departs from the form of a cursor's JSON object: at its
/// start, at the place of a number that is none, at the place of the second
/// key, or behind the second number.
pub open spec fn cursor_json_fault(s: Seq<u8>) -> int {
    if !has_at(s, 0, offset_key()) {
        0
    } else {
        match number_at(s, offset_key().len() as int) {
            None => offset_key().len() as int,
            Some((_, e1)) => if !has_at(s, e1, line_key()) {
                e1
            } else {
                match number_at(s, e1 + line_key().len()) {
                    None => e1 + line_key().len(),
                    Some((_, e2)) => e2,
                }
            },
        }
    }
}

/// Where `s` departs from the form of an index's JSON object.
pub open spec fn index_json_fault(s: Seq<u8>) -> int {
    if !has_at(s, 0, idx_key()) {
        0
    } else {
        match number_at(s, idx_key().len() as int) {
            None => idx_key().len() as int,
            Some((_, e)) => e,
        }
    }
}

/// The message for bytes that are no JSON object of the expected form: it
/// names the byte at which they depart from it, and how many there are.
pub open spec fn fault_text(at: int, len: nat) -> Seq<char> {
    "json departs from the expected form at byte "@ + decimal_text(at as nat) + " of "@
        + decimal_text(len)
}

/// Reads the compact JSON object of a cursor, or tells where the bytes
/// depart from its form.
pub fn read_cursor_json(data: &[u8]) -> (r: Result<Cursor, usize>)
    ensures
        match r {
            Ok(c) => cursor_of_json(data@) == Some(c),
            Err(at) => cursor_of_json(data@) is None && at == cursor_json_fault(data@) && at
                <= data.len(),
        },
{
    let k1 = offset_key_bytes();
    if !starts_with_at(data, 0, k1.as_slice()) {
        return Err(0);
    }
    let (offset, e1) = match parse_number(data, k1.len()) {
        Some(found) => found,
        None => {
            return Err(k1.len());
        },
    };
    let k2 = line_key_bytes();
    if !starts_with_at(data, e1, k2.as_slice()) {
        return Err(e1);
    }
    let (line, e2) = match parse_number(data, e1 + k2.len()) {
        Some(found) => found,
        None => {
            return Err(e1 + k2.len());
        },
    };
    if e2 < data.len() && e2 + 1 == data.len() && data[e2] == 0x7D {
        Ok(Cursor { offset, line })
    } else {
        Err(e2)
    }
}

/// Reads the compact JSON object of a hit index, or tells where the bytes
/// depart from its form.
pub fn read_index_json(data: &[u8]) -> (r: Result<u64, usize>)
    ensures
        match r {
            Ok(idx) => index_of_json(data@) == Some(idx),
            Err(at) => index_of_json(data@) is None && at == index_json_fault(data@) && at
                <= data.len(),
        },
{
    let k = idx_key_bytes();
    if !starts_with_at(data, 0, k.as_slice()) {
        return Err(0);
    }
    let (idx, e) = match parse_number(data, k.len()) {
        Some(found) => found,
        None => {
            return Err(k.len());
        },
    };
    if e < data.len() && e + 1 == data.len() && data[e] == 0x7D {
        Ok(idx)
    } else {
        Err(e)
    }
}

/// The bad-cursor error for bytes that depart from the expected form at
/// byte `at`.
fn fault(at: usize, len: usize) -> (e: CoreError)
    ensures
        e is BadCursor,
        e->BadCursor_0@ == fault_text(at as int, len as nat),
{
    let message = message_with_numbers(
        "json departs from the expected form at byte ",
        at as u64,
        " of ",
        len as u64,
    );
    bad_cursor(message.as_str())
}

/// Makes the token of cursor `c`. Decoding the token gives `c` back.
pub fn encode_cursor(c: Cursor) -> (token: String)
    ensures
        token@ == cursor_token(c),
        token@.len() > 0,
        cursor_of_token(Some(token@)) == Some(c),
{
    let mut json = offset_key_bytes();
    push_decimal(&mut json, c.offset);
    let k2 = line_key_bytes();
    json.extend_from_slice(k2.as_slice());
    push_decimal(&mut json, c.line);
    json.push(0x7D);
    proof {
        assert(json@ =~= cursor_json(c));
        lemma_cursor_json_round_trip(c);
        lemma_decimal_len(c.offset as nat);
        lemma_decimal_len(c.line as nat);
    }
    base64_url_encode(json.as_slice())
}

/// Reads a token: no token and the empty token stand for the start of the
/// file; any other token must be one that [`encode_cursor`] makes. The
/// error for text that is no Base64 carries the decoder's message; the
/// error for bytes that are no cursor tells where they depart from a
/// cursor's form.
pub fn decode_cursor(token: Option<&str>) -> (r: Result<Cursor, CoreError>)
    ensures
        match r {
            Ok(c) => cursor_of_token(option_text(token)) == Some(c),
            Err(e) => cursor_of_token(option_text(token)) is None && e is BadCursor,
        },
        r matches Err(e) ==> (token matches Some(t) && (base64_url_bytes(t@) matches Some(bytes)
            ==> e->BadCursor_0@ == fault_text(cursor_json_fault(bytes), bytes.len()))),
{
    match token {
        None => Ok(Cursor { offset: 0, line: 0 }),
        Some(t) => {
            if t.unicode_len() == 0 {
                return Ok(Cursor { offset: 0, line: 0 });
            }
            let bytes = decode_token(t)?;
            match read_cursor_json(bytes.as_slice()) {
                Ok(c) => Ok(c),
                Err(at) => Err(fault(at, bytes.len())),
            }
        },
    }
}

/// Makes the token of hit index `idx`. Decoding the token gives `idx` back.
pub fn encode_index_cursor(idx: u64) -> (token: String)
    ensures
        token@ == index_token(idx),
        token@.len() > 0,
        index_of_token(Some(token@)) == Some(idx),
{
    let mut json = idx_key_bytes();
    push_decimal(&mut json, idx);
    json.push(0x7D);
    proof {
        assert(json@ =~= index_json(idx));
        lemma_index_json_round_trip(idx);
        lemma_decimal_len(idx as nat);
    }
    base64_url_encode(json.as_slice())
}

/// Reads the token of a hit index: no token and the empty token stand for
/// 0. The errors are those of [`decode_cursor`].
pub fn decode_index_cursor(token: Option<&str>) -> (r: Result<u64, CoreError>)
    ensures
        match r {
            Ok(idx) => index_of_token(option_text(token)) == Some(idx),
            Err(e) => index_of_token(option_text(token)) is None && e is BadCursor,
        },
        r matches Err(e) ==> (token matches Some(t) && (base64_url_bytes(t@) matches Some(bytes)
            ==> e->BadCursor_0@ == fault_text(index_json_fault(bytes), bytes.len()))),
{
    match token {
        None => Ok(0),
        Some(t) => {
            if t.unicode_len() == 0 {
                return Ok(0);
            }
            let bytes = decode_token(t)?;
            match read_index_json(bytes.as_slice()) {
                Ok(idx) => Ok(idx),
                Err(at) => Err(fault(at, bytes.len())),
            }
        },
    }
}

/// The text of an optional token.
pub open spec fn option_text(token: Option<&str>) -> Option<Seq<char>> {
    match token {
        Some(t) => Some(t@),
        None => None,
    }
}

/// Ten to the power `k`.
pub open spec fn pow10(k: nat) -> nat
    decreases k,
{
    if k == 0 {
        1
    } else {
        10 * pow10((k - 1) as nat)
    }
}

proof fn lemma_decimal_len_under(n: nat, k: nat)
    requires
        k >= 1,
        n < pow10(k),
    ensures
        decimal_bytes(n).len() <= k,
    decreases k,
{
    if n >= 10 {
        if k == 1 {
            assert(pow10(1) == 10) by {
                reveal_with_fuel(pow10, 2);
            }
        } else {
            lemma_decimal_len_under(n / 10, (k - 1) as nat);
        }
    }
}

/// A 64-bit number has at most twenty digits.
proof fn lemma_decimal_len(n: nat)
    requires
        n <= u64::MAX,
    ensures
        decimal_bytes(n).len() <= 20,
{
    assert(pow10(20) == 100_000_000_000_000_000_000nat) by {
        reveal_with_fuel(pow10, 21);
    }
    lemma_decimal_len_under(n, 20);
}

} // verus!
