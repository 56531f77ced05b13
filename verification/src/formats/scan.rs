//! Byte-level scanner for JSON text: it finds where a value ends by tracking
//! strings, escapes and nesting depth, without building the value.

use vstd::prelude::*;

verus! {

pub const QUOTE: u8 = 0x22;
pub const BACKSLASH: u8 = 0x5C;
pub const COMMA: u8 = 0x2C;
pub const COLON: u8 = 0x3A;
pub const LBRACKET: u8 = 0x5B;
pub const RBRACKET: u8 = 0x5D;
pub const LBRACE: u8 = 0x7B;
pub const RBRACE: u8 = 0x7D;

/// Bytes that may pad a value: NUL, space, line feed, carriage return, tab.
pub open spec fn is_ignorable(b: u8) -> bool {
    b == 0 || b == 0x20 || b == 0x0A || b == 0x0D || b == 0x09
}

/// ASCII whitespace: space, tab, line feed, form feed, carriage return.
pub open spec fn is_ascii_space(b: u8) -> bool {
    b == 0x20 || b == 0x09 || b == 0x0A || b == 0x0C || b == 0x0D
}

/// The first position at or after `pos` that holds no ignorable byte
/// (the length of `data` if there is none).
pub open spec fn skip_ignorable(data: Seq<u8>, pos: int) -> int
    decreases data.len() - pos,
{
    if 0 <= pos < data.len() && is_ignorable(data[pos]) {
        skip_ignorable(data, pos + 1)
    } else {
        pos
    }
}

/// Where the value being scanned lives; it decides which closing bytes end it.
#[derive(Debug, Clone, Copy, PartialEq, Eq, Structural)]
pub enum StopBytes {
    /// Inside `[...]` or at the top level: `,` and `]` end a value.
    InArray,
    /// Inside `{...}`: `,` and `}` end a value.
    InObject,
    /// Unknown surroundings: `,`, `]` and `}` end a value.
    Any,
}

/// A byte that ends a value when it stands at nesting depth 0 outside a string.
pub open spec fn is_stop(b: u8, stops: StopBytes) -> bool {
    b == COMMA || (b == RBRACKET && stops != StopBytes::InObject) || (b == RBRACE && stops
        != StopBytes::InArray)
}

/// A byte before which a value at rest ends: a stop byte, whitespace or NUL.
pub open spec fn ends_value(b: u8, stops: StopBytes) -> bool {
    is_stop(b, stops) || is_ascii_space(b) || b == 0
}

/// State of the scanner between two bytes.
pub struct ScanState {
    pub in_string: bool,
    pub escape: bool,
    pub depth: nat,
}

/// The state in which every value starts.
pub open spec fn scan_start() -> ScanState {
    ScanState { in_string: false, escape: false, depth: 0 }
}

/// The state after byte `b` was read in state `s`.
pub open spec fn scan_step(s: ScanState, b: u8) -> ScanState {
    if s.in_string {
        if s.escape {
            ScanState { escape: false, ..s }
        } else if b == BACKSLASH {
            ScanState { escape: true, ..s }
        } else if b == QUOTE {
            ScanState { in_string: false, ..s }
        } else {
            s
        }
    } else if b == QUOTE {
        ScanState { in_string: true, ..s }
    } else if b == LBRACE || b == LBRACKET {
        ScanState { depth: s.depth + 1, ..s }
    } else if b == RBRACE || b == RBRACKET {
        ScanState { depth: if s.depth > 0 { (s.depth - 1) as nat } else { 0 }, ..s }
    } else {
        s
    }
}

/// Outside any string and any bracket.
pub open spec fn at_rest(s: ScanState) -> bool {
    !s.in_string && s.depth == 0
}

/// End of the value whose byte at `pos` is read next in state `s`: the scan
/// stops after the first byte that leaves it at rest before a byte that ends
/// a value, or at the end of `data`.
pub open spec fn value_end_from(data: Seq<u8>, pos: int, s: ScanState, stops: StopBytes) -> int
    decreases data.len() - pos,
{
    if pos < 0 || pos >= data.len() {
        data.len() as int
    } else {
        let s2 = scan_step(s, data[pos]);
        if at_rest(s2) && (pos + 1 >= data.len() || ends_value(data[pos + 1], stops)) {
            pos + 1
        } else {
            value_end_from(data, pos + 1, s2, stops)
        }
    }
}

/// End (exclusive) of the value that starts at `start`. A stop byte at
/// `start` itself, or the end of `data`, makes the value empty.
pub open spec fn value_end(data: Seq<u8>, start: int, stops: StopBytes) -> int {
    if start < 0 || start >= data.len() || is_stop(data[start], stops) {
        start
    } else {
        value_end_from(data, start, scan_start(), stops)
    }
}

/// Skipping padding stays within the data, passes over padding only,
/// stops at a byte that is no padding, and changes nothing when repeated.
pub proof fn lemma_skip_ignorable_bounds(data: Seq<u8>, pos: int)
    requires
        0 <= pos <= data.len(),
    ensures
        pos <= skip_ignorable(data, pos) <= data.len(),
        skip_ignorable(data, pos) < data.len() ==> !is_ignorable(
            data[skip_ignorable(data, pos)],
        ),
        forall|i: int| pos <= i < skip_ignorable(data, pos) ==> is_ignorable(#[trigger] data[i]),
        skip_ignorable(data, skip_ignorable(data, pos)) == skip_ignorable(data, pos),
    decreases data.len() - pos,
{
    if pos < data.len() && is_ignorable(data[pos]) {
        lemma_skip_ignorable_bounds(data, pos + 1);
    }
}

/// A scan that reads a byte ends after that byte, and within the data.
pub proof fn lemma_value_end_from_bounds(data: Seq<u8>, pos: int, s: ScanState, stops: StopBytes)
    requires
        0 <= pos < data.len(),
    ensures
        pos < value_end_from(data, pos, s, stops) <= data.len(),
    decreases data.len() - pos,
{
    let s2 = scan_step(s, data[pos]);
    if at_rest(s2) && (pos + 1 >= data.len() || ends_value(data[pos + 1], stops)) {
    } else if pos + 1 < data.len() {
        lemma_value_end_from_bounds(data, pos + 1, s2, stops);
    }
}

/// A value never ends before it starts nor beyond the data, and it is empty
/// only at the end of the data or at a stop byte.
pub proof fn lemma_value_end_bounds(data: Seq<u8>, start: int, stops: StopBytes)
    requires
        0 <= start <= data.len(),
    ensures
        start <= value_end(data, start, stops) <= data.len(),
        value_end(data, start, stops) == start <==> (start == data.len() || is_stop(
            data[start],
            stops,
        )),
{
    if start < data.len() && !is_stop(data[start], stops) {
        lemma_value_end_from_bounds(data, start, scan_start(), stops);
    }
}

/// Whether `b` may pad a value.
pub fn is_ignorable_head_byte(b: u8) -> (r: bool)
    ensures
        r == is_ignorable(b),
{
    b == 0 || b == 0x20 || b == 0x0A || b == 0x0D || b == 0x09
}

/// Whether `b` ends a value at nesting depth 0 outside a string.
pub fn is_stop_byte(b: u8, stops: StopBytes) -> (r: bool)
    ensures
        r == is_stop(b, stops),
{
    b == COMMA || (b == RBRACKET && !matches!(stops, StopBytes::InObject)) || (b == RBRACE
        && !matches!(stops, StopBytes::InArray))
}

/// Whether a value at rest ends before `b`.
pub fn ends_value_byte(b: u8, stops: StopBytes) -> (r: bool)
    ensures
        r == ends_value(b, stops),
{
    is_stop_byte(b, stops) || b == 0x20 || b == 0x09 || b == 0x0A || b == 0x0C || b == 0x0D || b
        == 0
}

/// Skips NUL and whitespace padding from `pos` on.
pub fn skip_ws_and_nul(data: &[u8], pos: usize) -> (r: usize)
    requires
        pos <= data.len(),
    ensures
        r == skip_ignorable(data@, pos as int),
        pos <= r <= data.len(),
{
    let mut p: usize = pos;
    while p < data.len() && is_ignorable_head_byte(data[p])
        invariant
            pos <= p <= data.len(),
            skip_ignorable(data@, pos as int) == skip_ignorable(data@, p as int),
        decreases data.len() - p,
    {
        p += 1;
    }
    p
}

/// Finds the end of the value that starts at `start`.
pub fn scan_value_end(data: &[u8], start: usize, stops: StopBytes) -> (end: usize)
    requires
        start <= data.len(),
    ensures
        end == value_end(data@, start as int, stops),
        start <= end <= data.len(),
{
    if start >= data.len() || is_stop_byte(data[start], stops) {
        return start;
    }
    let mut pos: usize = start;
    let mut in_string = false;
    let mut escape = false;
    let mut depth: usize = 0;
    while pos < data.len()
        invariant
            start <= pos <= data.len(),
            depth <= pos - start,
            value_end(data@, start as int, stops) == value_end_from(
                data@,
                pos as int,
                ScanState { in_string, escape, depth: depth as nat },
                stops,
            ),
        decreases data.len() - pos,
    {
        let b = data[pos];
        if in_string {
            if escape {
                escape = false;
            } else if b == BACKSLASH {
                escape = true;
            } else if b == QUOTE {
                in_string = false;
            }
        } else if b == QUOTE {
            in_string = true;
        } else if b == LBRACE || b == LBRACKET {
            depth += 1;
        } else if b == RBRACE || b == RBRACKET {
            if depth > 0 {
                depth -= 1;
            }
        }
        pos += 1;
        if !in_string && depth == 0 {
            if pos >= data.len() || ends_value_byte(data[pos], stops) {
                return pos;
            }
        }
    }
    pos
}

} // verus!
