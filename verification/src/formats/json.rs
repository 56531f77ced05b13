//! JSON documents read lazily: members and elements are located by
//! scanning bytes, and only the requested pieces are decoded.

use vstd::prelude::*;
use vstd::slice::slice_subrange;
use crate::engine::CoreError;
use crate::formats::scan::{
    lemma_skip_ignorable_bounds, lemma_value_end_bounds, scan_value_end, skip_ignorable,
    skip_ws_and_nul, value_end, StopBytes, BACKSLASH, COLON, COMMA, LBRACE, LBRACKET, QUOTE,
    RBRACE, RBRACKET,
};
use crate::models::{path_view, ExportFormat, JsonPathSegment, SegmentView};
use crate::text::{decimal_text, message_with_numbers};

verus! {

/// `serde_json::Error`, carried from the decoder to the error message.
#[verifier::external_type_specification]
#[verifier::external_body]
pub struct ExJsonError(serde_json::Error);

/// The text that a JSON string literal (quotes included) stands for, or
/// `None` where `lit` is not exactly one such literal.
pub uninterp spec fn json_string_value(lit: Seq<u8>) -> Option<Seq<char>>;

/// Calls `serde_json::from_slice::<String>`: the decoded text of the JSON
/// string literal `lit`, or the decoder's error. What it decodes to depends
/// on `lit` alone and is known here only by name.
#[verifier::external_body]
pub(crate) fn decode_json_string(lit: &[u8]) -> (r: Result<String, serde_json::Error>)
    ensures
        match r {
            Ok(s) => json_string_value(lit@) == Some(s@),
            Err(_) => json_string_value(lit@) is None,
        },
{
    serde_json::from_slice::<String>(lit)
}

/// Renders a `serde_json::Error` through its `Display` impl.
#[verifier::external_body]
pub(crate) fn json_error_text(e: &serde_json::Error) -> (s: String) {
    e.to_string()
}

/// An invalid-argument error with the given message.
pub fn invalid_arg(msg: &str) -> (e: CoreError)
    ensures
        e is InvalidArg,
        e->InvalidArg_0@ == msg@,
{
    CoreError::InvalidArg(String::from_str(msg))
}

/// An invalid-argument error that names two numbers.
pub fn invalid_arg_numbers(a: &str, x: u64, b: &str, y: u64) -> (e: CoreError)
    ensures
        e is InvalidArg,
        e->InvalidArg_0@ == a@ + decimal_text(x as nat) + b@ + decimal_text(y as nat),
{
    CoreError::InvalidArg(message_with_numbers(a, x, b, y))
}

/// Position just after the quote that closes a string, when the byte at
/// `pos` is read next and `escape` tells whether a backslash precedes it;
/// `None` when the data ends inside the string.
pub open spec fn string_close(data: Seq<u8>, pos: int, escape: bool) -> Option<int>
    decreases data.len() - pos,
{
    if pos < 0 || pos >= data.len() {
        None
    } else if escape {
        string_close(data, pos + 1, false)
    } else if data[pos] == BACKSLASH {
        string_close(data, pos + 1, true)
    } else if data[pos] == QUOTE {
        Some(pos + 1)
    } else {
        string_close(data, pos + 1, false)
    }
}

/// The string literal that follows the padding at `pos`: the offsets of its
/// opening quote and of the byte after its closing quote.
pub open spec fn string_literal_at(data: Seq<u8>, pos: int) -> Option<(int, int)> {
    let start = skip_ignorable(data, pos);
    if 0 <= start < data.len() && data[start] == QUOTE {
        match string_close(data, start + 1, false) {
            Some(end) => Some((start, end)),
            None => None,
        }
    } else {
        None
    }
}

/// The decoded string that follows the padding at `pos`, and where it ends.
pub open spec fn string_at(data: Seq<u8>, pos: int) -> Option<(Seq<char>, int)> {
    match string_literal_at(data, pos) {
        Some((start, end)) => match json_string_value(data.subrange(start, end)) {
            Some(text) => Some((text, end)),
            None => None,
        },
        None => None,
    }
}

/// Where the value of the member `"key": value` that follows the padding at
/// `pos` starts, judged by syntax alone (the key is not decoded).
pub open spec fn member_value_start(data: Seq<u8>, pos: int) -> Option<int> {
    match string_literal_at(data, pos) {
        Some((_, key_end)) => {
            let colon = skip_ignorable(data, key_end);
            if colon < data.len() && data[colon] == COLON {
                Some(skip_ignorable(data, colon + 1))
            } else {
                None
            }
        },
        None => None,
    }
}

/// The member that follows the padding at `pos`: its decoded key and where
/// its value starts.
pub open spec fn member_at(data: Seq<u8>, pos: int) -> Option<(Seq<char>, int)> {
    match (string_at(data, pos), member_value_start(data, pos)) {
        (Some((key, _)), Some(value_start)) => Some((key, value_start)),
        _ => None,
    }
}

/// A string closes after where it is read from, and within the data.
pub proof fn lemma_string_close_bounds(data: Seq<u8>, pos: int, escape: bool)
    requires
        0 <= pos,
    ensures
        string_close(data, pos, escape) matches Some(end) ==> pos < end <= data.len(),
    decreases data.len() - pos,
{
    if pos < data.len() {
        if escape {
            lemma_string_close_bounds(data, pos + 1, false);
        } else if data[pos] == BACKSLASH {
            lemma_string_close_bounds(data, pos + 1, true);
        } else if data[pos] == QUOTE {
        } else {
            lemma_string_close_bounds(data, pos + 1, false);
        }
    }
}

/// A member's value starts at least three bytes after the member does, and
/// within the data.
pub proof fn lemma_member_bounds(data: Seq<u8>, pos: int)
    requires
        0 <= pos <= data.len(),
    ensures
        string_literal_at(data, pos) matches Some((start, end)) ==> pos <= start && start + 2
            <= end <= data.len(),
        member_value_start(data, pos) matches Some(v) ==> pos + 3 <= v <= data.len(),
{
    lemma_skip_ignorable_bounds(data, pos);
    let start = skip_ignorable(data, pos);
    if start < data.len() && data[start] == QUOTE {
        lemma_string_close_bounds(data, start + 1, false);
        match string_close(data, start + 1, false) {
            Some(end) => {
                lemma_skip_ignorable_bounds(data, end);
                let colon = skip_ignorable(data, end);
                if colon < data.len() {
                    lemma_skip_ignorable_bounds(data, colon + 1);
                }
            },
            None => {},
        }
    }
}

/// Finds the string literal that follows the padding at `pos`.
pub fn skip_json_string_literal(data: &[u8], pos: usize) -> (r: Result<(usize, usize), CoreError>)
    requires
        pos <= data.len(),
    ensures
        match r {
            Ok((start, end)) => string_literal_at(data@, pos as int) == Some(
                (start as int, end as int),
            ) && pos <= start && start + 2 <= end <= data.len(),
            Err(e) => string_literal_at(data@, pos as int) is None && e is InvalidArg,
        },
{
    let start = skip_ws_and_nul(data, pos);
    if start >= data.len() {
        return Err(invalid_arg("unexpected EOF"));
    }
    if data[start] != QUOTE {
        return Err(invalid_arg("expected string"));
    }
    let mut p: usize = start + 1;
    let mut escape = false;
    while p < data.len()
        invariant
            pos <= start < p <= data.len(),
            start == skip_ignorable(data@, pos as int),
            data@[start as int] == QUOTE,
            string_close(data@, start + 1, false) == string_close(data@, p as int, escape),
        decreases data.len() - p,
    {
        let b = data[p];
        p += 1;
        if escape {
            escape = false;
        } else if b == BACKSLASH {
            escape = true;
        } else if b == QUOTE {
            return Ok((start, p));
        }
    }
    Err(invalid_arg("unexpected EOF"))
}

/// Reads and decodes the string that follows the padding at `pos`.
pub fn read_json_string(data: &[u8], pos: usize) -> (r: Result<(String, usize), CoreError>)
    requires
        pos <= data.len(),
    ensures
        match r {
            Ok((text, end)) => string_at(data@, pos as int) == Some((text@, end as int)),
            Err(e) => string_at(data@, pos as int) is None && e is InvalidArg,
        },
{
    let (start, end) = skip_json_string_literal(data, pos)?;
    match decode_json_string(slice_subrange(data, start, end)) {
        Ok(text) => Ok((text, end)),
        Err(e) => {
            let mut msg = String::from_str("invalid json string: ");
            let detail = json_error_text(&e);
            msg.append(detail.as_str());
            Err(CoreError::InvalidArg(msg))
        },
    }
}

/// Checks that `want` follows the padding at `pos`, and steps over it and
/// the padding behind it.
pub fn expect_byte(data: &[u8], pos: usize, want: u8) -> (r: Result<usize, CoreError>)
    requires
        pos <= data.len(),
    ensures
        match r {
            Ok(next) => {
                let at = skip_ignorable(data@, pos as int);
                at < data.len() && data@[at] == want && next == skip_ignorable(data@, at + 1)
            },
            Err(e) => {
                let at = skip_ignorable(data@, pos as int);
                !(at < data.len() && data@[at] == want) && e is InvalidArg
            },
        },
{
    let at = skip_ws_and_nul(data, pos);
    if at >= data.len() {
        return Err(invalid_arg("unexpected EOF"));
    }
    if data[at] != want {
        return Err(invalid_arg("unexpected byte"));
    }
    Ok(skip_ws_and_nul(data, at + 1))
}

/// Reads the member that follows the padding at `pos`: its key, and where
/// its value starts.
pub fn read_member(data: &[u8], pos: usize) -> (r: Result<(String, usize), CoreError>)
    requires
        pos <= data.len(),
    ensures
        match r {
            Ok((key, value_start)) => member_at(data@, pos as int) == Some(
                (key@, value_start as int),
            ) && pos + 3 <= value_start <= data.len(),
            Err(e) => member_at(data@, pos as int) is None && e is InvalidArg,
        },
{
    proof {
        lemma_member_bounds(data@, pos as int);
    }
    let (key, key_end) = read_json_string(data, pos)?;
    let value_start = expect_byte(data, key_end, COLON)?;
    Ok((key, value_start))
}

/// Steps over the key and colon of the member that follows the padding at
/// `pos`, without decoding the key.
pub fn skip_member_key(data: &[u8], pos: usize) -> (r: Result<usize, CoreError>)
    requires
        pos <= data.len(),
    ensures
        match r {
            Ok(value_start) => member_value_start(data@, pos as int) == Some(value_start as int)
                && pos + 3 <= value_start <= data.len(),
            Err(e) => member_value_start(data@, pos as int) is None && e is InvalidArg,
        },
{
    proof {
        lemma_member_bounds(data@, pos as int);
    }
    let (_, key_end) = skip_json_string_literal(data, pos)?;
    expect_byte(data, key_end, COLON)
}

/// The offset just after the comma that follows the padding at `end`, if a
/// comma does follow it.
pub open spec fn after_comma(data: Seq<u8>, end: int) -> Option<int> {
    let p = skip_ignorable(data, end);
    if 0 <= p < data.len() && data[p] == COMMA {
        Some(p + 1)
    } else {
        None
    }
}

/// Among the members that start at `pos` and follow each other separated by
/// commas, the first whose key is `want`: the offset at which its value
/// starts. `None` when a member is malformed or the members end first.
pub open spec fn find_member(data: Seq<u8>, pos: int, want: Seq<char>) -> Option<int>
    decreases data.len() - pos,
{
    if pos < 0 || pos > data.len() {
        None
    } else {
        match member_at(data, pos) {
            None => None,
            Some((key, value_start)) => if key == want {
                Some(value_start)
            } else {
                match after_comma(data, value_end(data, value_start, StopBytes::InObject)) {
                    Some(next) => {
                        proof {
                            lemma_member_bounds(data, pos);
                            lemma_value_end_bounds(data, value_start, StopBytes::InObject);
                            lemma_skip_ignorable_bounds(
                                data,
                                value_end(data, value_start, StopBytes::InObject),
                            );
                        }
                        find_member(data, next, want)
                    },
                    None => None,
                }
            },
        }
    }
}

/// Among the elements that start at `pos` and follow each other separated
/// by commas, the first of which has index `idx`: the offset at which the
/// element with index `want` starts. `None` when the array ends first.
pub open spec fn find_element(data: Seq<u8>, pos: int, idx: nat, want: nat) -> Option<int>
    decreases want - idx,
{
    let p = skip_ignorable(data, pos);
    if 0 <= p < data.len() && data[p] == RBRACKET {
        None
    } else if idx == want {
        Some(p)
    } else if idx > want {
        None
    } else {
        match after_comma(data, value_end(data, p, StopBytes::InArray)) {
            Some(next) => find_element(data, next, idx + 1, want),
            None => None,
        }
    }
}

/// The offset of the value reached from the value at `pos` by following
/// `path`: a key selects a member of an object, an index an element of an
/// array. `None` when a segment does not fit the value it meets or names
/// nothing in it.
pub open spec fn subtree_start(data: Seq<u8>, pos: int, path: Seq<SegmentView>) -> Option<int>
    decreases path.len(),
{
    if path.len() == 0 {
        Some(pos)
    } else {
        let p = skip_ignorable(data, pos);
        if p < 0 || p >= data.len() {
            None
        } else {
            let inner = skip_ignorable(data, p + 1);
            let child = match path[0] {
                SegmentView::Key(k) => if data[p] == LBRACE && !(inner < data.len() && data[inner]
                    == RBRACE) {
                    find_member(data, inner, k)
                } else {
                    None
                },
                SegmentView::Index(i) => if data[p] == LBRACKET && !(inner < data.len()
                    && data[inner] == RBRACKET) {
                    find_element(data, inner, 0, i as nat)
                } else {
                    None
                },
            };
            match child {
                Some(c) => subtree_start(data, c, path.drop_first()),
                None => None,
            }
        }
    }
}

/// A member that is found lies at or after where the search starts.
pub proof fn lemma_find_member_bounds(data: Seq<u8>, pos: int, want: Seq<char>)
    requires
        0 <= pos <= data.len(),
    ensures
        find_member(data, pos, want) matches Some(v) ==> pos <= v <= data.len(),
    decreases data.len() - pos,
{
    lemma_member_bounds(data, pos);
    match member_at(data, pos) {
        None => {},
        Some((key, value_start)) => {
            if key != want {
                let end = value_end(data, value_start, StopBytes::InObject);
                lemma_value_end_bounds(data, value_start, StopBytes::InObject);
                lemma_skip_ignorable_bounds(data, end);
                match after_comma(data, end) {
                    Some(next) => {
                        lemma_find_member_bounds(data, next, want);
                    },
                    None => {},
                }
            }
        },
    }
}

/// An element that is found lies at or after where the search starts.
pub proof fn lemma_find_element_bounds(data: Seq<u8>, pos: int, idx: nat, want: nat)
    requires
        0 <= pos <= data.len(),
    ensures
        find_element(data, pos, idx, want) matches Some(v) ==> pos <= v <= data.len(),
    decreases want - idx,
{
    lemma_skip_ignorable_bounds(data, pos);
    let p = skip_ignorable(data, pos);
    if p < data.len() && data[p] == RBRACKET {
    } else if idx < want {
        let end = value_end(data, p, StopBytes::InArray);
        lemma_value_end_bounds(data, p, StopBytes::InArray);
        lemma_skip_ignorable_bounds(data, end);
        match after_comma(data, end) {
            Some(next) => {
                lemma_find_element_bounds(data, next, idx + 1, want);
            },
            None => {},
        }
    }
}

/// A subtree that is found lies at or after the value it is sought in, and
/// within the data.
pub proof fn lemma_subtree_start_bounds(data: Seq<u8>, pos: int, path: Seq<SegmentView>)
    requires
        0 <= pos <= data.len(),
    ensures
        subtree_start(data, pos, path) matches Some(start) ==> pos <= start <= data.len(),
    decreases path.len(),
{
    if path.len() > 0 {
        lemma_skip_ignorable_bounds(data, pos);
        let p = skip_ignorable(data, pos);
        if p < data.len() {
            lemma_skip_ignorable_bounds(data, p + 1);
            let inner = skip_ignorable(data, p + 1);
            match path[0] {
                SegmentView::Key(k) => {
                    lemma_find_member_bounds(data, inner, k);
                    match find_member(data, inner, k) {
                        Some(c) => {
                            lemma_subtree_start_bounds(data, c, path.drop_first());
                        },
                        None => {},
                    }
                },
                SegmentView::Index(i) => {
                    lemma_find_element_bounds(data, inner, 0, i as nat);
                    match find_element(data, inner, 0, i as nat) {
                        Some(c) => {
                            lemma_subtree_start_bounds(data, c, path.drop_first());
                        },
                        None => {},
                    }
                },
            }
        }
    }
}

/// Steps over the padding at `end` and the comma behind it, if there is one.
pub fn consume_comma(data: &[u8], end: usize) -> (r: Option<usize>)
    requires
        end <= data.len(),
    ensures
        r matches Some(next) ==> end < next <= data.len(),
        match r {
            Some(next) => after_comma(data@, end as int) == Some(next as int),
            None => after_comma(data@, end as int) is None,
        },
{
    let p = skip_ws_and_nul(data, end);
    if p < data.len() && data[p] == COMMA {
        Some(p + 1)
    } else {
        None
    }
}

fn seek_member(data: &[u8], pos: usize, want: &String) -> (r: Result<usize, CoreError>)
    requires
        pos <= data.len(),
    ensures
        match r {
            Ok(v) => find_member(data@, pos as int, want@) == Some(v as int) && pos <= v
                <= data.len(),
            Err(e) => find_member(data@, pos as int, want@) is None && e is InvalidArg,
        },
{
    let mut cur: usize = pos;
    loop
        invariant
            pos <= cur <= data.len(),
            find_member(data@, pos as int, want@) == find_member(data@, cur as int, want@),
        decreases data.len() - cur,
    {
        let (key, value_start) = read_member(data, cur)?;
        if key == *want {
            return Ok(value_start);
        }
        let end = scan_value_end(data, value_start, StopBytes::InObject);
        match consume_comma(data, end) {
            Some(next) => {
                cur = next;
            },
            None => {
                return Err(invalid_arg("path not found (key)"));
            },
        }
    }
}

fn seek_element(data: &[u8], pos: usize, want: u64) -> (r: Result<usize, CoreError>)
    requires
        pos <= data.len(),
    ensures
        match r {
            Ok(v) => find_element(data@, pos as int, 0, want as nat) == Some(v as int) && pos <= v
                <= data.len(),
            Err(e) => find_element(data@, pos as int, 0, want as nat) is None && e is InvalidArg,
        },
{
    let mut cur: usize = pos;
    let mut idx: u64 = 0;
    loop
        invariant
            pos <= cur <= data.len(),
            idx <= want,
            find_element(data@, pos as int, 0, want as nat) == find_element(
                data@,
                cur as int,
                idx as nat,
                want as nat,
            ),
        decreases want - idx,
    {
        let p = skip_ws_and_nul(data, cur);
        if p < data.len() && data[p] == RBRACKET {
            return Err(invalid_arg("path not found (index)"));
        }
        if idx == want {
            return Ok(p);
        }
        let end = scan_value_end(data, p, StopBytes::InArray);
        match consume_comma(data, end) {
            Some(next) => {
                cur = next;
                idx += 1;
            },
            None => {
                return Err(invalid_arg("path not found (index)"));
            },
        }
    }
}

/// Walks from the value at `pos` along `path` and returns the offset of the
/// value it reaches.
pub fn seek_to_subtree(data: &[u8], pos: usize, path: &[JsonPathSegment]) -> (r: Result<
    usize,
    CoreError,
>)
    requires
        pos <= data.len(),
    ensures
        match r {
            Ok(v) => subtree_start(data@, pos as int, path_view(path@)) == Some(v as int) && v
                <= data.len(),
            Err(e) => subtree_start(data@, pos as int, path_view(path@)) is None && e
                is InvalidArg,
        },
{
    let mut cur: usize = pos;
    let mut i: usize = 0;
    proof {
        assert(path_view(path@).subrange(0, path.len() as int) =~= path_view(path@));
    }
    while i < path.len()
        invariant
            i <= path.len(),
            cur <= data.len(),
            subtree_start(data@, pos as int, path_view(path@)) == subtree_start(
                data@,
                cur as int,
                path_view(path@).subrange(i as int, path.len() as int),
            ),
        decreases path.len() - i,
    {
        let ghost rest = path_view(path@).subrange(i as int, path.len() as int);
        proof {
            assert(rest.drop_first() =~= path_view(path@).subrange(i + 1, path.len() as int));
            assert(rest[0] == path@[i as int]@);
        }
        let p = skip_ws_and_nul(data, cur);
        if p >= data.len() {
            return Err(invalid_arg("unexpected EOF"));
        }
        let inner = skip_ws_and_nul(data, p + 1);
        let b = data[p];
        match &path[i] {
            JsonPathSegment::Key(want) => {
                if b != LBRACE {
                    return Err(invalid_arg("path does not match node kind"));
                }
                if inner < data.len() && data[inner] == RBRACE {
                    return Err(invalid_arg("path not found (empty object)"));
                }
                cur = seek_member(data, inner, want)?;
            },
            JsonPathSegment::Index(want) => {
                if b != LBRACKET {
                    return Err(invalid_arg("path does not match node kind"));
                }
                if inner < data.len() && data[inner] == RBRACKET {
                    return Err(invalid_arg("path not found (empty array)"));
                }
                cur = seek_element(data, inner, *want)?;
            },
        }
        i += 1;
    }
    Ok(cur)
}

/// The values of those members, among the ones that start at `pos`, whose
/// key is one of `wanted`, in file order. `None` when a member is malformed.
pub open spec fn selected_members(data: Seq<u8>, pos: int, wanted: Seq<SegmentView>) -> Option<
    Seq<Seq<u8>>,
>
    decreases data.len() - pos,
{
    if pos < 0 || pos > data.len() {
        None
    } else {
        match member_at(data, pos) {
            None => None,
            Some((key, value_start)) => {
                let end = value_end(data, value_start, StopBytes::InObject);
                let here = if wanted.contains(SegmentView::Key(key)) {
                    seq![data.subrange(value_start, end)]
                } else {
                    Seq::empty()
                };
                match after_comma(data, end) {
                    Some(next) => {
                        proof {
                            lemma_member_bounds(data, pos);
                            lemma_value_end_bounds(data, value_start, StopBytes::InObject);
                            lemma_skip_ignorable_bounds(data, end);
                        }
                        match selected_members(data, next, wanted) {
                            Some(rest) => Some(here + rest),
                            None => None,
                        }
                    },
                    None => Some(here),
                }
            },
        }
    }
}

/// The values of those elements, among the ones that start at `pos` with
/// index `idx`, whose index is one of `wanted`, in file order.
pub open spec fn selected_elements(
    data: Seq<u8>,
    pos: int,
    idx: nat,
    wanted: Seq<SegmentView>,
) -> Seq<Seq<u8>>
    decreases data.len() - pos,
{
    let p = skip_ignorable(data, pos);
    if pos < 0 || p >= data.len() || data[p] == RBRACKET {
        Seq::empty()
    } else {
        let end = value_end(data, p, StopBytes::InArray);
        let here = if wanted.contains(SegmentView::Index(idx as u64)) {
            seq![data.subrange(p, end)]
        } else {
            Seq::empty()
        };
        match after_comma(data, end) {
            Some(next) => {
                proof {
                    lemma_skip_ignorable_bounds(data, pos);
                    lemma_value_end_bounds(data, p, StopBytes::InArray);
                    lemma_skip_ignorable_bounds(data, end);
                }
                here + selected_elements(data, next, idx + 1, wanted)
            },
            None => here,
        }
    }
}

/// One value per line: each item followed by a line feed.
pub open spec fn render_lines(items: Seq<Seq<u8>>) -> Seq<u8>
    decreases items.len(),
{
    if items.len() == 0 {
        Seq::empty()
    } else {
        render_lines(items.drop_last()) + items.last() + seq![0x0Au8]
    }
}

/// The inside of a JSON array that has one item per line: a line feed before
/// the first item, a comma and a line feed before each later one.
pub open spec fn render_array_body(items: Seq<Seq<u8>>) -> Seq<u8>
    decreases items.len(),
{
    if items.len() == 0 {
        Seq::empty()
    } else if items.len() == 1 {
        seq![0x0Au8] + items[0]
    } else {
        render_array_body(items.drop_last()) + seq![COMMA, 0x0Au8] + items.last()
    }
}

/// What has been written once `items` are out and more may follow.
pub open spec fn render_open(items: Seq<Seq<u8>>, format: ExportFormat) -> Seq<u8> {
    match format {
        ExportFormat::Jsonl => render_lines(items),
        ExportFormat::Json => seq![LBRACKET] + render_array_body(items),
        ExportFormat::Csv => Seq::empty(),
    }
}

/// What closes the output after `count` items.
pub open spec fn render_close(count: nat, format: ExportFormat) -> Seq<u8> {
    match format {
        ExportFormat::Json => if count > 0 {
            seq![0x0Au8, RBRACKET]
        } else {
            seq![RBRACKET]
        },
        _ => Seq::empty(),
    }
}

/// The items as a whole output: one per line, or a JSON array of them.
pub open spec fn render_items(items: Seq<Seq<u8>>, format: ExportFormat) -> Seq<u8> {
    render_open(items, format) + render_close(items.len(), format)
}

/// The bytes and the number of values that exporting from the value at
/// `pos` gives: the value itself when `include_root` is set or no children
/// are named (bare for JSON output when none is named), else those of its
/// direct children that `children` names. `None` when children are asked of
/// nothing, or a member of the object is malformed.
pub open spec fn subtree_export(
    data: Seq<u8>,
    pos: int,
    include_root: bool,
    children: Seq<SegmentView>,
    format: ExportFormat,
) -> Option<(Seq<u8>, nat)> {
    let p = skip_ignorable(data, pos);
    let root = data.subrange(p, value_end(data, p, StopBytes::Any));
    if include_root || children.len() == 0 {
        if format == ExportFormat::Json && children.len() == 0 {
            Some((root, 1nat))
        } else {
            Some((render_items(seq![root], format), 1nat))
        }
    } else if p < 0 || p >= data.len() {
        None
    } else {
        let inner = skip_ignorable(data, p + 1);
        let items = if data[p] == LBRACE {
            if inner < data.len() && data[inner] == RBRACE {
                Some(Seq::<Seq<u8>>::empty())
            } else {
                selected_members(data, inner, children)
            }
        } else if data[p] == LBRACKET {
            if inner < data.len() && data[inner] == RBRACKET {
                Some(Seq::<Seq<u8>>::empty())
            } else {
                Some(selected_elements(data, inner, 0, children))
            }
        } else {
            Some(seq![root])
        };
        match items {
            Some(found) => Some((render_items(found, format), found.len())),
            None => None,
        }
    }
}

/// The export of the subtree that `path` selects in the record at
/// `record_offset`. `None` for CSV output, an offset beyond the data, a
/// path that leads nowhere, or a malformed object.
pub open spec fn subtree_export_at(
    data: Seq<u8>,
    record_offset: u64,
    path: Seq<SegmentView>,
    include_root: bool,
    children: Seq<SegmentView>,
    format: ExportFormat,
) -> Option<(Seq<u8>, nat)> {
    if format == ExportFormat::Csv || record_offset > data.len() {
        None
    } else {
        match subtree_start(data, record_offset as int, path) {
            Some(start) => subtree_export(data, start, include_root, children, format),
            None => None,
        }
    }
}

fn wants_key(children: &[JsonPathSegment], key: &String) -> (r: bool)
    ensures
        r == path_view(children@).contains(SegmentView::Key(key@)),
{
    let mut i: usize = 0;
    while i < children.len()
        invariant
            i <= children.len(),
            forall|j: int| 0 <= j < i ==> path_view(children@)[j] != SegmentView::Key(key@),
        decreases children.len() - i,
    {
        match &children[i] {
            JsonPathSegment::Key(k) => {
                if *k == *key {
                    assert(path_view(children@)[i as int] == SegmentView::Key(key@));
                    return true;
                }
            },
            JsonPathSegment::Index(_) => {},
        }
        i += 1;
    }
    false
}

fn wants_index(children: &[JsonPathSegment], idx: u64) -> (r: bool)
    ensures
        r == path_view(children@).contains(SegmentView::Index(idx)),
{
    let mut i: usize = 0;
    while i < children.len()
        invariant
            i <= children.len(),
            forall|j: int| 0 <= j < i ==> path_view(children@)[j] != SegmentView::Index(idx),
        decreases children.len() - i,
    {
        match &children[i] {
            JsonPathSegment::Key(_) => {},
            JsonPathSegment::Index(k) => {
                if *k == idx {
                    assert(path_view(children@)[i as int] == SegmentView::Index(idx));
                    return true;
                }
            },
        }
        i += 1;
    }
    false
}

/// Starts an output of the given format.
pub(crate) fn begin_output(out: &mut Vec<u8>, format: ExportFormat)
    requires
        old(out)@.len() == 0,
    ensures
        final(out)@ == render_open(Seq::empty(), format),
{
    if matches!(format, ExportFormat::Json) {
        out.push(LBRACKET);
        assert(out@ =~= seq![LBRACKET] + render_array_body(Seq::empty()));
    }
}

/// Writes `item` as the next item.
pub(crate) fn write_item(
    out: &mut Vec<u8>,
    item: &[u8],
    format: ExportFormat,
    Ghost(items): Ghost<Seq<Seq<u8>>>,
)
    requires
        format != ExportFormat::Csv,
        old(out)@ == render_open(items, format),
    ensures
        final(out)@ == render_open(items.push(item@), format),
{
    let ghost more = items.push(item@);
    proof {
        assert(more.drop_last() =~= items);
        assert(more.last() == item@);
    }
    match format {
        ExportFormat::Jsonl => {
            out.extend_from_slice(item);
            out.push(0x0A);
            assert(out@ =~= render_lines(items) + item@ + seq![0x0Au8]);
        },
        _ => {
            if out.len() > 1 {
                out.push(COMMA);
            }
            out.push(0x0A);
            out.extend_from_slice(item);
            proof {
                lemma_array_body_len(items);
                if items.len() == 0 {
                    assert(more[0] == item@);
                    assert(out@ =~= seq![LBRACKET] + (seq![0x0Au8] + item@));
                } else {
                    assert(out@ =~= seq![LBRACKET] + (render_array_body(items) + seq![
                        COMMA,
                        0x0Au8,
                    ] + item@));
                }
            }
        },
    }
}

/// The inside of an array is empty exactly when there are no items.
pub proof fn lemma_array_body_len(items: Seq<Seq<u8>>)
    ensures
        render_array_body(items).len() == 0 <==> items.len() == 0,
    decreases items.len(),
{
    if items.len() > 1 {
        lemma_array_body_len(items.drop_last());
    }
}

/// Ends an output that holds `items`.
pub(crate) fn end_output(out: &mut Vec<u8>, format: ExportFormat, Ghost(items): Ghost<Seq<Seq<u8>>>)
    requires
        old(out)@ == render_open(items, format),
    ensures
        final(out)@ == render_items(items, format),
{
    if matches!(format, ExportFormat::Json) {
        proof {
            lemma_array_body_len(items);
        }
        if out.len() > 1 {
            out.push(0x0A);
            out.push(RBRACKET);
            assert(out@ =~= render_open(items, format) + seq![0x0Au8, RBRACKET]);
        } else {
            out.push(RBRACKET);
            assert(out@ =~= render_open(items, format) + seq![RBRACKET]);
        }
    } else {
        assert(out@ =~= render_open(items, format) + Seq::<u8>::empty());
    }
}

fn export_members(
    data: &[u8],
    pos: usize,
    children: &[JsonPathSegment],
    format: ExportFormat,
    out: &mut Vec<u8>,
) -> (r: Result<(u64, Ghost<Seq<Seq<u8>>>), CoreError>)
    requires
        pos <= data.len(),
        format != ExportFormat::Csv,
        old(out)@ == render_open(Seq::empty(), format),
    ensures
        match r {
            Ok((n, items)) => selected_members(data@, pos as int, path_view(children@)) == Some(
                items@,
            ) && final(out)@ == render_open(items@, format) && n == items@.len(),
            Err(e) => selected_members(data@, pos as int, path_view(children@)) is None && e
                is InvalidArg,
        },
{
    let ghost wanted = path_view(children@);
    let ghost mut done: Seq<Seq<u8>> = Seq::empty();
    let mut cur: usize = pos;
    let mut written: u64 = 0;
    proof {
        match selected_members(data@, pos as int, wanted) {
            Some(rest) => {
                assert(done + rest =~= rest);
            },
            None => {},
        }
    }
    loop
        invariant
            pos <= cur <= data.len(),
            format != ExportFormat::Csv,
            wanted == path_view(children@),
            written == done.len(),
            written <= cur - pos,
            out@ == render_open(done, format),
            selected_members(data@, pos as int, wanted) == match selected_members(
                data@,
                cur as int,
                wanted,
            ) {
                Some(rest) => Some(done + rest),
                None => None,
            },
        decreases data.len() - cur,
    {
        let (key, value_start) = read_member(data, cur)?;
        let end = scan_value_end(data, value_start, StopBytes::InObject);
        let ghost before = done;
        let ghost here: Seq<Seq<u8>> = if wanted.contains(SegmentView::Key(key@)) {
            seq![data@.subrange(value_start as int, end as int)]
        } else {
            Seq::empty()
        };
        if wants_key(children, &key) {
            write_item(out, slice_subrange(data, value_start, end), format, Ghost(done));
            written += 1;
            proof {
                done = done.push(data@.subrange(value_start as int, end as int));
            }
        }
        assert(done =~= before + here);
        match consume_comma(data, end) {
            Some(next) => {
                proof {
                    match selected_members(data@, next as int, wanted) {
                        Some(rest) => {
                            assert((before + here) + rest =~= before + (here + rest));
                        },
                        None => {},
                    }
                }
                cur = next;
            },
            None => {
                return Ok((written, Ghost(done)));
            },
        }
    }
}

fn export_elements(
    data: &[u8],
    pos: usize,
    children: &[JsonPathSegment],
    format: ExportFormat,
    out: &mut Vec<u8>,
) -> (r: (u64, Ghost<Seq<Seq<u8>>>))
    requires
        pos <= data.len(),
        format != ExportFormat::Csv,
        old(out)@ == render_open(Seq::empty(), format),
    ensures
        selected_elements(data@, pos as int, 0, path_view(children@)) == r.1@,
        final(out)@ == render_open(r.1@, format),
        r.0 == r.1@.len(),
{
    let ghost wanted = path_view(children@);
    let ghost mut done: Seq<Seq<u8>> = Seq::empty();
    let mut cur: usize = pos;
    let mut idx: u64 = 0;
    let mut written: u64 = 0;
    proof {
        assert(done + selected_elements(data@, pos as int, 0, wanted) =~= selected_elements(
            data@,
            pos as int,
            0,
            wanted,
        ));
    }
    loop
        invariant
            pos <= cur <= data.len(),
            format != ExportFormat::Csv,
            wanted == path_view(children@),
            written == done.len(),
            written <= idx <= cur - pos,
            out@ == render_open(done, format),
            selected_elements(data@, pos as int, 0, wanted) == done + selected_elements(
                data@,
                cur as int,
                idx as nat,
                wanted,
            ),
        decreases data.len() - cur,
    {
        let p = skip_ws_and_nul(data, cur);
        if p >= data.len() || data[p] == RBRACKET {
            assert(done + Seq::<Seq<u8>>::empty() =~= done);
            return (written, Ghost(done));
        }
        let end = scan_value_end(data, p, StopBytes::InArray);
        let ghost before = done;
        let ghost here: Seq<Seq<u8>> = if wanted.contains(SegmentView::Index(idx)) {
            seq![data@.subrange(p as int, end as int)]
        } else {
            Seq::empty()
        };
        if wants_index(children, idx) {
            write_item(out, slice_subrange(data, p, end), format, Ghost(done));
            written += 1;
            proof {
                done = done.push(data@.subrange(p as int, end as int));
            }
        }
        assert(done =~= before + here);
        match consume_comma(data, end) {
            Some(next) => {
                proof {
                    let rest = selected_elements(data@, next as int, (idx + 1) as nat, wanted);
                    assert((before + here) + rest =~= before + (here + rest));
                }
                cur = next;
                idx += 1;
            },
            None => {
                return (written, Ghost(done));
            },
        }
    }
}

/// Exports the subtree that `path` selects in the record at `record_offset`,
/// or chosen direct children of it, and appends the output to `writer`.
/// Returns how many values were written. On an error nothing is appended.
pub fn export_json_subtree_stream(
    data: &[u8],
    record_offset: u64,
    path: &[JsonPathSegment],
    include_root: bool,
    children: &[JsonPathSegment],
    out_format: ExportFormat,
    writer: &mut Vec<u8>,
) -> (r: Result<u64, CoreError>)
    ensures
        match r {
            Ok(n) => subtree_export_at(
                data@,
                record_offset,
                path_view(path@),
                include_root,
                path_view(children@),
                out_format,
            ) matches Some((bytes, count)) && n == count && final(writer)@ == old(writer)@
                + bytes,
            Err(e) => subtree_export_at(
                data@,
                record_offset,
                path_view(path@),
                include_root,
                path_view(children@),
                out_format,
            ) is None && e is InvalidArg && final(writer)@ == old(writer)@,
        },
{
    if matches!(out_format, ExportFormat::Csv) {
        return Err(invalid_arg("json_subtree export does not support csv output"));
    }
    if record_offset > data.len() as u64 {
        return Err(
            invalid_arg_numbers("offset ", record_offset, " beyond file len ", data.len() as u64),
        );
    }
    let start = seek_to_subtree(data, record_offset as usize, path)?;
    let p = skip_ws_and_nul(data, start);
    let root_end = scan_value_end(data, p, StopBytes::Any);
    let ghost root = data@.subrange(p as int, root_end as int);
    let mut out: Vec<u8> = Vec::new();

    if include_root || children.len() == 0 {
        if matches!(out_format, ExportFormat::Json) && children.len() == 0 {
            writer.extend_from_slice(slice_subrange(data, p, root_end));
            return Ok(1);
        }
        begin_output(&mut out, out_format);
        write_item(&mut out, slice_subrange(data, p, root_end), out_format, Ghost(Seq::empty()));
        let ghost one = seq![root];
        assert(Seq::<Seq<u8>>::empty().push(root) =~= one);
        end_output(&mut out, out_format, Ghost(one));
        writer.extend_from_slice(out.as_slice());
        return Ok(1);
    }
    if p >= data.len() {
        return Err(invalid_arg("unexpected EOF"));
    }
    let first = data[p];
    let inner = skip_ws_and_nul(data, p + 1);
    begin_output(&mut out, out_format);
    let written: u64;
    let ghost items: Seq<Seq<u8>>;
    if first == LBRACE {
        if inner < data.len() && data[inner] == RBRACE {
            written = 0;
            proof {
                items = Seq::empty();
            }
        } else {
            let (n, found) = export_members(data, inner, children, out_format, &mut out)?;
            written = n;
            proof {
                items = found@;
            }
        }
    } else if first == LBRACKET {
        if inner < data.len() && data[inner] == RBRACKET {
            written = 0;
            proof {
                items = Seq::empty();
            }
        } else {
            let (n, found) = export_elements(data, inner, children, out_format, &mut out);
            written = n;
            proof {
                items = found@;
            }
        }
    } else {
        write_item(&mut out, slice_subrange(data, p, root_end), out_format, Ghost(Seq::empty()));
        written = 1;
        proof {
            items = seq![root];
            assert(Seq::<Seq<u8>>::empty().push(root) =~= seq![root]);
        }
    }
    end_output(&mut out, out_format, Ghost(items));
    writer.extend_from_slice(out.as_slice());
    Ok(written)
}

} // verus!
