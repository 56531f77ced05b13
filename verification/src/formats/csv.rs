//! Paging over CSV files. Records end at a line feed outside quotes, so a
//! quoted cell may span lines.

use vstd::prelude::*;
use vstd::slice::slice_subrange;
use crate::cursor::Cursor;
use crate::engine::CoreError;
use crate::formats::lines::{
    find_line_end, lemma_line_end_bounds, line_end, advance_id, page_of,
    trimmed_end, without_terminator, CR, LF,
};
use crate::formats::page::{
    ids_count_from, ids_match_meta, page_consistent, page_view, records_adjacent,
    LinesPageInternal, PageView,
};
use crate::formats::scan::{COMMA, QUOTE};
use crate::json_text::{
    fields_view, json_object_text, object_to_json, strings_view, JsonCell, JsonCellView,
    JsonField, JsonFieldView,
};
use crate::models::{next_index, records_view, Record, RecordMeta, RecordView};
use crate::text::{
    char_is_whitespace, chars_of, decimal_string, decimal_text, is_whitespace, lossy_text,
    message_with_numbers, push_char, string_from_chars, truncate_chars, truncated, utf8_lossy,
};

verus! {

/// Quote state while reading a record: inside a quoted cell, and at the
/// start of a cell (where an opening quote may stand).
pub struct QuoteState {
    pub in_quotes: bool,
    pub at_field_start: bool,
}

/// The state after `bytes[i..]` is read in state `s`. Inside quotes a
/// doubled quote is an escaped quote and a single one closes the cell.
/// Outside, a comma starts a cell, blanks before a cell's content keep the
/// cell at its start, and a quote opens a quoted cell only there.
pub open spec fn quote_state_after(bytes: Seq<u8>, i: int, s: QuoteState) -> QuoteState
    decreases bytes.len() - i,
{
    if i < 0 || i >= bytes.len() {
        s
    } else {
        let b = bytes[i];
        if s.in_quotes {
            if b == QUOTE {
                if i + 1 < bytes.len() && bytes[i + 1] == QUOTE {
                    quote_state_after(bytes, i + 2, s)
                } else {
                    quote_state_after(bytes, i + 1, QuoteState { in_quotes: false, ..s })
                }
            } else {
                quote_state_after(bytes, i + 1, s)
            }
        } else if b == COMMA {
            quote_state_after(bytes, i + 1, QuoteState { at_field_start: true, ..s })
        } else if (b == 0x20 || b == 0x09) && s.at_field_start {
            quote_state_after(bytes, i + 1, s)
        } else if b == QUOTE && s.at_field_start {
            quote_state_after(
                bytes,
                i + 1,
                QuoteState { in_quotes: true, at_field_start: false },
            )
        } else {
            quote_state_after(bytes, i + 1, QuoteState { at_field_start: false, ..s })
        }
    }
}

/// The line that starts at `pos`, without its line feed.
pub open spec fn line_body(data: Seq<u8>, pos: int) -> Seq<u8> {
    let e = line_end(data, pos);
    if e > pos && data[e - 1] == LF {
        data.subrange(pos, e - 1)
    } else {
        data.subrange(pos, e)
    }
}

/// Whether the line that starts at `pos` ends with a line feed.
pub open spec fn line_has_feed(data: Seq<u8>, pos: int) -> bool {
    line_end(data, pos) > pos && data[line_end(data, pos) - 1] == LF
}

/// The offset at which the record ends whose next line starts at `pos`, in
/// quote state `s`: after the first line feed that is met outside quotes,
/// or at the end of `data`.
pub open spec fn csv_record_end(data: Seq<u8>, pos: int, s: QuoteState) -> int
    decreases data.len() - pos,
{
    if pos < 0 || pos >= data.len() {
        data.len() as int
    } else {
        let s2 = quote_state_after(line_body(data, pos), 0, s);
        if line_has_feed(data, pos) && s2.in_quotes {
            proof {
                lemma_line_end_bounds(data, pos);
            }
            csv_record_end(data, line_end(data, pos), s2)
        } else {
            line_end(data, pos)
        }
    }
}

/// Whether that record ends with a line feed outside quotes (rather than at
/// the end of `data`).
pub open spec fn csv_record_closed(data: Seq<u8>, pos: int, s: QuoteState) -> bool
    decreases data.len() - pos,
{
    if pos < 0 || pos >= data.len() {
        false
    } else {
        let s2 = quote_state_after(line_body(data, pos), 0, s);
        if line_has_feed(data, pos) && s2.in_quotes {
            proof {
                lemma_line_end_bounds(data, pos);
            }
            csv_record_closed(data, line_end(data, pos), s2)
        } else {
            line_has_feed(data, pos)
        }
    }
}

/// The state in which every record starts.
pub open spec fn record_start() -> QuoteState {
    QuoteState { in_quotes: false, at_field_start: true }
}

/// A record that starts within the data is not empty and ends within it.
pub proof fn lemma_csv_record_end_bounds(data: Seq<u8>, pos: int, s: QuoteState)
    requires
        0 <= pos < data.len(),
    ensures
        pos < csv_record_end(data, pos, s) <= data.len(),
    decreases data.len() - pos,
{
    lemma_line_end_bounds(data, pos);
    let s2 = quote_state_after(line_body(data, pos), 0, s);
    if line_has_feed(data, pos) && s2.in_quotes {
        if line_end(data, pos) < data.len() {
            lemma_csv_record_end_bounds(data, line_end(data, pos), s2);
        } else {
            assert(csv_record_end(data, line_end(data, pos), s2) == data.len());
        }
    }
}

/// Carries the quote state over `bytes`, the body of one line.
pub fn update_csv_quote_state(in_quotes: &mut bool, at_field_start: &mut bool, bytes: &[u8])
    ensures
        (QuoteState { in_quotes: *final(in_quotes), at_field_start: *final(at_field_start) })
            == quote_state_after(
            bytes@,
            0,
            QuoteState { in_quotes: *old(in_quotes), at_field_start: *old(at_field_start) },
        ),
{
    let ghost first = QuoteState { in_quotes: *in_quotes, at_field_start: *at_field_start };
    let mut i: usize = 0;
    while i < bytes.len()
        invariant
            i <= bytes.len(),
            quote_state_after(bytes@, 0, first) == quote_state_after(
                bytes@,
                i as int,
                QuoteState { in_quotes: *in_quotes, at_field_start: *at_field_start },
            ),
        decreases bytes.len() - i,
    {
        let b = bytes[i];
        if *in_quotes {
            if b == QUOTE {
                if i + 1 < bytes.len() && bytes[i + 1] == QUOTE {
                    i += 2;
                    continue ;
                }
                *in_quotes = false;
            }
            i += 1;
            continue ;
        }
        if b == COMMA {
            *at_field_start = true;
        } else if (b == 0x20 || b == 0x09) && *at_field_start {
        } else if b == QUOTE && *at_field_start {
            *in_quotes = true;
            *at_field_start = false;
        } else {
            *at_field_start = false;
        }
        i += 1;
    }
}

/// Finds where the record that starts at `pos` ends, and whether a line
/// feed outside quotes ends it.
pub fn read_csv_record_bytes(data: &[u8], pos: usize) -> (r: (usize, bool))
    requires
        pos <= data.len(),
    ensures
        r.0 == csv_record_end(data@, pos as int, record_start()),
        r.1 == csv_record_closed(data@, pos as int, record_start()),
        pos <= r.0 <= data.len(),
        pos < data.len() ==> pos < r.0,
{
    let mut in_quotes = false;
    let mut at_field_start = true;
    let mut cur: usize = pos;
    loop
        invariant
            pos <= cur <= data.len(),
            pos < data.len() ==> cur < data.len() || pos < cur,
            csv_record_end(data@, pos as int, record_start()) == csv_record_end(
                data@,
                cur as int,
                QuoteState { in_quotes, at_field_start },
            ),
            csv_record_closed(data@, pos as int, record_start()) == csv_record_closed(
                data@,
                cur as int,
                QuoteState { in_quotes, at_field_start },
            ),
        decreases data.len() - cur,
    {
        if cur >= data.len() {
            return (cur, false);
        }
        let e = find_line_end(data, cur);
        let has_feed = data[e - 1] == LF;
        let body_end = if has_feed {
            e - 1
        } else {
            e
        };
        update_csv_quote_state(
            &mut in_quotes,
            &mut at_field_start,
            slice_subrange(data, cur, body_end),
        );
        if !(has_feed && in_quotes) {
            return (e, has_feed);
        }
        cur = e;
    }
}

/// Takes the line feed off the end of `buf`, and the carriage return
/// before that line feed.
pub fn trim_record_terminator(buf: &mut Vec<u8>)
    ensures
        final(buf)@ == without_terminator(old(buf)@),
{
    let n = buf.len();
    if n > 0 && buf[n - 1] == LF {
        buf.pop();
        if n > 1 && buf[n - 2] == CR {
            buf.pop();
            assert(buf@ =~= old(buf)@.take(n - 2));
        } else {
            assert(buf@ =~= old(buf)@.take(n - 1));
        }
    }
}

/// The cells of a CSV line, read from character `i` on with `cur` as the
/// cell so far. A quote toggles quoting, a doubled quote inside quotes is a
/// quote character, and a comma outside quotes ends the cell.
pub open spec fn csv_fields_from(
    chars: Seq<char>,
    i: int,
    cur: Seq<char>,
    in_quotes: bool,
) -> Seq<Seq<char>>
    decreases chars.len() - i,
{
    if i < 0 || i >= chars.len() {
        seq![cur]
    } else if chars[i] == '"' {
        if in_quotes && i + 1 < chars.len() && chars[i + 1] == '"' {
            csv_fields_from(chars, i + 2, cur.push('"'), in_quotes)
        } else {
            csv_fields_from(chars, i + 1, cur, !in_quotes)
        }
    } else if chars[i] == ',' && !in_quotes {
        seq![cur] + csv_fields_from(chars, i + 1, Seq::empty(), in_quotes)
    } else {
        csv_fields_from(chars, i + 1, cur.push(chars[i]), in_quotes)
    }
}

/// The cells of the CSV line `line`.
pub open spec fn csv_fields(line: Seq<char>) -> Seq<Seq<char>> {
    csv_fields_from(line, 0, Seq::empty(), false)
}

/// Splits a CSV record into its cells.
pub fn parse_csv_line(line: &str) -> (out: Vec<String>)
    ensures
        strings_view(out@) == csv_fields(line@),
        out@.len() >= 1,
{
    let chars = chars_of(line);
    let mut out: Vec<String> = Vec::new();
    let mut cur = String::new();
    let mut in_quotes = false;
    let mut i: usize = 0;
    proof {
        assert(strings_view(out@) + csv_fields(line@) =~= csv_fields(line@));
    }
    while i < chars.len()
        invariant
            i <= chars.len(),
            chars@ == line@,
            csv_fields(line@) == strings_view(out@) + csv_fields_from(
                chars@,
                i as int,
                cur@,
                in_quotes,
            ),
        decreases chars.len() - i,
    {
        let ch = chars[i];
        if ch == '"' {
            if in_quotes && i + 1 < chars.len() && chars[i + 1] == '"' {
                push_char(&mut cur, '"');
                i += 2;
            } else {
                in_quotes = !in_quotes;
                i += 1;
            }
        } else if ch == ',' && !in_quotes {
            let ghost before = strings_view(out@);
            let ghost cell = cur@;
            out.push(cur);
            cur = String::new();
            i += 1;
            proof {
                assert(strings_view(out@) =~= before + seq![cell]);
                let rest = csv_fields_from(chars@, i as int, Seq::empty(), in_quotes);
                assert((before + seq![cell]) + rest =~= before + (seq![cell] + rest));
            }
        } else {
            push_char(&mut cur, ch);
            i += 1;
        }
    }
    let ghost before = strings_view(out@);
    let ghost cell = cur@;
    out.push(cur);
    assert(strings_view(out@) =~= before + seq![cell]);
    out
}

/// `s` without the byte order marks at its start.
pub open spec fn strip_leading_bom(s: Seq<char>) -> Seq<char>
    decreases s.len(),
{
    if s.len() > 0 && s[0] == '\u{feff}' {
        strip_leading_bom(s.drop_first())
    } else {
        s
    }
}

/// Whether `s` holds nothing but whitespace.
pub open spec fn is_blank(s: Seq<char>) -> bool {
    forall|i: int| 0 <= i < s.len() ==> char_is_whitespace(#[trigger] s[i])
}

/// The name of column `i`: the header cell, or `col_<i>` where that is
/// blank.
pub open spec fn header_name(cell: Seq<char>, i: nat) -> Seq<char> {
    if is_blank(cell) {
        "col_"@ + decimal_text(i)
    } else {
        cell
    }
}

/// The column names: the cells of the file's first record, without a byte
/// order mark. An empty file has none.
pub open spec fn csv_headers(data: Seq<u8>) -> Seq<Seq<char>> {
    if data.len() == 0 {
        Seq::empty()
    } else {
        let end = csv_record_end(data, 0, record_start());
        let cells = csv_fields(
            strip_leading_bom(lossy_text(without_terminator(data.subrange(0, end)))),
        );
        Seq::new(cells.len(), |i: int| header_name(cells[i], i as nat))
    }
}

/// The fields of the object for a data row: each column name with the
/// row's cell at that place (empty where the row is shorter), and under
/// `__extra__` the cells beyond the last column, if there are any.
pub open spec fn csv_row_fields(headers: Seq<Seq<char>>, cells: Seq<Seq<char>>) -> Seq<
    JsonFieldView,
> {
    let named = Seq::new(
        headers.len(),
        |i: int|
            JsonFieldView {
                key: headers[i],
                value: JsonCellView::Text(
                    if i < cells.len() {
                        cells[i]
                    } else {
                        Seq::empty()
                    },
                ),
            },
    );
    if cells.len() > headers.len() {
        named.push(
            JsonFieldView {
                key: "__extra__"@,
                value: JsonCellView::List(cells.subrange(headers.len() as int, cells.len() as int)),
            },
        )
    } else {
        named
    }
}

/// `s` with a backslash put before every backslash and every quote.
pub open spec fn sanitized(s: Seq<char>) -> Seq<char>
    decreases s.len(),
{
    if s.len() == 0 {
        Seq::empty()
    } else if s.last() == '\\' || s.last() == '"' {
        sanitized(s.drop_last()).push('\\').push(s.last())
    } else {
        sanitized(s.drop_last()).push(s.last())
    }
}

/// The raw text of a data row: the JSON object of its fields; should the
/// serializer fail, an object that holds the line itself.
pub open spec fn csv_row_json(headers: Seq<Seq<char>>, line: Seq<char>) -> Seq<char> {
    match json_object_text(csv_row_fields(headers, csv_fields(line))) {
        Some(t) => t,
        None => "{\"__raw__\":\""@ + sanitized(line) + "\"}"@,
    }
}

/// The record for the CSV record `data[start..end]`. The record with id 0
/// is the header row and keeps its own text as raw text.
pub open spec fn csv_record(
    data: Seq<u8>,
    start: int,
    end: int,
    id: u64,
    headers: Seq<Seq<char>>,
    preview_max_chars: nat,
) -> RecordView {
    let line = lossy_text(without_terminator(data.subrange(start, end)));
    RecordView {
        id,
        preview: truncated(line, preview_max_chars),
        raw: Some(
            if id == 0 {
                line
            } else {
                csv_row_json(headers, line)
            },
        ),
        meta: Some(
            RecordMeta { line_no: id, byte_offset: start as u64, byte_len: (end - start) as u64 },
        ),
    }
}

/// The records of up to `n` CSV records from `pos` on, the first with id
/// `id`.
pub open spec fn csv_records(
    data: Seq<u8>,
    pos: int,
    id: u64,
    n: nat,
    headers: Seq<Seq<char>>,
    preview_max_chars: nat,
) -> Seq<RecordView>
    decreases n,
{
    if n == 0 || pos < 0 || pos >= data.len() {
        Seq::empty()
    } else {
        seq![
            csv_record(
                data,
                pos,
                csv_record_end(data, pos, record_start()),
                id,
                headers,
                preview_max_chars,
            ),
        ] + csv_records(
            data,
            csv_record_end(data, pos, record_start()),
            next_index(id),
            (n - 1) as nat,
            headers,
            preview_max_chars,
        )
    }
}

/// The offset after up to `n` CSV records from `pos` on.
pub open spec fn csv_records_end(data: Seq<u8>, pos: int, n: nat) -> int
    decreases n,
{
    if n == 0 || pos < 0 || pos >= data.len() {
        pos
    } else {
        csv_records_end(data, csv_record_end(data, pos, record_start()), (n - 1) as nat)
    }
}

/// The page of up to `n` CSV records that starts at `cursor`.
pub open spec fn csv_page(data: Seq<u8>, cursor: Cursor, n: nat, preview_max_chars: nat) -> PageView {
    page_of(
        csv_records(
            data,
            cursor.offset as int,
            cursor.line,
            n,
            csv_headers(data),
            preview_max_chars,
        ),
        csv_records_end(data, cursor.offset as int, n),
        data.len() as int,
        cursor,
    )
}

/// Escapes backslashes and quotes, for text that is put between quotes.
pub fn sanitize_json_string(s: &str) -> (r: String)
    ensures
        r@ == sanitized(s@),
{
    let chars = chars_of(s);
    let mut out = String::new();
    let mut i: usize = 0;
    assert(chars@.take(0) =~= Seq::empty());
    while i < chars.len()
        invariant
            i <= chars.len(),
            chars@ == s@,
            out@ == sanitized(chars@.take(i as int)),
        decreases chars.len() - i,
    {
        let ch = chars[i];
        proof {
            assert(chars@.take(i + 1).drop_last() =~= chars@.take(i as int));
            assert(chars@.take(i + 1).last() == ch);
        }
        if ch == '\\' || ch == '"' {
            push_char(&mut out, '\\');
        }
        push_char(&mut out, ch);
        i += 1;
    }
    assert(chars@.take(chars.len() as int) =~= chars@);
    out
}

fn blank(s: &str) -> (r: bool)
    ensures
        r == is_blank(s@),
{
    let chars = chars_of(s);
    let mut i: usize = 0;
    while i < chars.len()
        invariant
            i <= chars.len(),
            chars@ == s@,
            forall|j: int| 0 <= j < i ==> char_is_whitespace(#[trigger] chars@[j]),
        decreases chars.len() - i,
    {
        if !is_whitespace(chars[i]) {
            return false;
        }
        i += 1;
    }
    true
}

/// Reads the column names from the file's first record.
pub fn read_csv_header(data: &[u8]) -> (headers: Vec<String>)
    ensures
        strings_view(headers@) == csv_headers(data@),
{
    let mut headers: Vec<String> = Vec::new();
    if data.len() == 0 {
        assert(strings_view(headers@) =~= Seq::empty());
        return headers;
    }
    let (end, _) = read_csv_record_bytes(data, 0);
    let text_end = trimmed_end(data, 0, end);
    let text = utf8_lossy(slice_subrange(data, 0, text_end));
    let chars = chars_of(text.as_str());
    let mut k: usize = 0;
    proof {
        assert(chars@.subrange(0, chars.len() as int) =~= chars@);
    }
    while k < chars.len() && chars[k] == '\u{feff}'
        invariant
            k <= chars.len(),
            strip_leading_bom(chars@) == strip_leading_bom(
                chars@.subrange(k as int, chars.len() as int),
            ),
        decreases chars.len() - k,
    {
        assert(chars@.subrange(k as int, chars.len() as int).drop_first() =~= chars@.subrange(
            k + 1,
            chars.len() as int,
        ));
        k += 1;
    }
    let line = string_from_chars(chars.as_slice(), k, chars.len());
    let cells = parse_csv_line(line.as_str());
    let ghost cell_views = csv_fields(line@);
    let mut i: usize = 0;
    while i < cells.len()
        invariant
            i <= cells.len(),
            strings_view(cells@) == cell_views,
            headers@.len() == i,
            forall|j: int|
                0 <= j < i ==> (#[trigger] headers@[j])@ == header_name(cell_views[j], j as nat),
        decreases cells.len() - i,
    {
        assert(cells@[i as int]@ == cell_views[i as int]);
        let name = if blank(cells[i].as_str()) {
            let mut n = String::from_str("col_");
            let digits = decimal_string(i as u128);
            n.append(digits.as_str());
            n
        } else {
            cells[i].clone()
        };
        headers.push(name);
        i += 1;
    }
    assert(strings_view(headers@) =~= csv_headers(data@));
    headers
}

fn copy_strings(src: &Vec<String>, from: usize) -> (out: Vec<String>)
    requires
        from <= src.len(),
    ensures
        strings_view(out@) == strings_view(src@).subrange(from as int, src.len() as int),
{
    let mut out: Vec<String> = Vec::new();
    let mut i: usize = from;
    while i < src.len()
        invariant
            from <= i <= src.len(),
            out@.len() == i - from,
            forall|j: int| 0 <= j < i - from ==> (#[trigger] out@[j])@ == src@[from + j]@,
        decreases src.len() - i,
    {
        out.push(src[i].clone());
        i += 1;
    }
    assert(strings_view(out@) =~= strings_view(src@).subrange(from as int, src.len() as int));
    out
}

/// The JSON object of a data row, or `None` should the serializer fail.
pub fn csv_line_to_object(headers: &Vec<String>, line: &str) -> (r: Option<String>)
    ensures
        match r {
            Some(t) => json_object_text(csv_row_fields(strings_view(headers@), csv_fields(line@)))
                == Some(t@),
            None => json_object_text(csv_row_fields(strings_view(headers@), csv_fields(line@)))
                is None,
        },
{
    let cells = parse_csv_line(line);
    let ghost hv = strings_view(headers@);
    let ghost cv = csv_fields(line@);
    let mut fields: Vec<JsonField> = Vec::new();
    let mut i: usize = 0;
    while i < headers.len()
        invariant
            i <= headers.len(),
            hv == strings_view(headers@),
            cv == strings_view(cells@),
            fields@.len() == i,
            forall|j: int|
                0 <= j < i ==> (#[trigger] fields@[j])@ == (JsonFieldView {
                    key: hv[j],
                    value: JsonCellView::Text(
                        if j < cv.len() {
                            cv[j]
                        } else {
                            Seq::empty()
                        },
                    ),
                }),
        decreases headers.len() - i,
    {
        let value = if i < cells.len() {
            assert(cells@[i as int]@ == cv[i as int]);
            cells[i].clone()
        } else {
            String::new()
        };
        assert(headers@[i as int]@ == hv[i as int]);
        fields.push(JsonField { key: headers[i].clone(), value: JsonCell::Text(value) });
        i += 1;
    }
    if cells.len() > headers.len() {
        let extra = copy_strings(&cells, headers.len());
        fields.push(JsonField { key: String::from_str("__extra__"), value: JsonCell::List(extra) });
    }
    assert(fields_view(fields@) =~= csv_row_fields(hv, cv));
    object_to_json(&fields)
}

/// The raw text of a data row.
fn row_to_json(headers: &Vec<String>, line: &str) -> (r: String)
    ensures
        r@ == csv_row_json(strings_view(headers@), line@),
{
    match csv_line_to_object(headers, line) {
        Some(t) => t,
        None => {
            let mut out = String::from_str("{\"__raw__\":\"");
            let inner = sanitize_json_string(line);
            out.append(inner.as_str());
            out.append("\"}");
            out
        },
    }
}

fn make_csv_record(
    data: &[u8],
    start: usize,
    end: usize,
    id: u64,
    headers: &Vec<String>,
    preview_max_chars: usize,
) -> (r: Record)
    requires
        start <= end <= data.len(),
    ensures
        r@ == csv_record(
            data@,
            start as int,
            end as int,
            id,
            strings_view(headers@),
            preview_max_chars as nat,
        ),
{
    let text_end = trimmed_end(data, start, end);
    let line = utf8_lossy(slice_subrange(data, start, text_end));
    let preview = truncate_chars(line.as_str(), preview_max_chars);
    let raw = if id == 0 {
        line
    } else {
        row_to_json(headers, line.as_str())
    };
    Record {
        id,
        preview,
        raw: Some(raw),
        meta: Some(
            RecordMeta { line_no: id, byte_offset: start as u64, byte_len: (end - start) as u64 },
        ),
    }
}

/// Reads the page of up to `page_size` CSV records that starts at `cursor`.
/// The raw text of a data row is always whole, so `_raw_max_chars` plays no
/// part.
pub fn read_csv_page(
    data: &[u8],
    cursor: Cursor,
    page_size: usize,
    preview_max_chars: usize,
    _raw_max_chars: usize,
) -> (r: Result<(LinesPageInternal, Option<Cursor>), CoreError>)
    ensures
        match r {
            Ok((page, next)) => cursor.offset <= data.len() && page_view(page, next) == csv_page(
                data@,
                cursor,
                page_size as nat,
                preview_max_chars as nat,
            ),
            Err(e) => cursor.offset > data.len() && e is BadCursor,
        },
        r matches Ok((page, next)) ==> ids_match_meta(records_view(page.records@))
            && ids_count_from(records_view(page.records@), cursor.line) && records_adjacent(
            records_view(page.records@),
        ) && page_consistent(page_view(page, next)) && page.records@.len() <= page_size,
{
    proof {
        if cursor.offset <= data.len() {
            lemma_csv_records_props(
                data@,
                cursor.offset as int,
                cursor.line,
                page_size as nat,
                csv_headers(data@),
                preview_max_chars as nat,
            );
        }
    }
    if cursor.offset > data.len() as u64 {
        return Err(
            CoreError::BadCursor(
                message_with_numbers(
                    "offset ",
                    cursor.offset,
                    " beyond file len ",
                    data.len() as u64,
                ),
            ),
        );
    }
    let headers = read_csv_header(data);
    let ghost hv = csv_headers(data@);
    let ghost pm = preview_max_chars as nat;
    let start = cursor.offset as usize;
    let mut records: Vec<Record> = Vec::new();
    let mut cur: usize = start;
    let mut id: u64 = cursor.line;
    let mut i: usize = 0;
    let ghost whole = csv_records(data@, start as int, cursor.line, page_size as nat, hv, pm);
    proof {
        assert(Seq::<RecordView>::empty() + whole =~= whole);
    }
    while i < page_size && cur < data.len()
        invariant
            i <= page_size,
            start <= cur <= data.len(),
            pm == preview_max_chars as nat,
            hv == strings_view(headers@),
            records@.len() == i,
            id == advance_id(cursor.line, i as nat),
            whole == records_view(records@) + csv_records(
                data@,
                cur as int,
                id,
                (page_size - i) as nat,
                hv,
                pm,
            ),
            csv_records_end(data@, start as int, page_size as nat) == csv_records_end(
                data@,
                cur as int,
                (page_size - i) as nat,
            ),
        decreases page_size - i,
    {
        let ghost done = records_view(records@);
        let (end, _) = read_csv_record_bytes(data, cur);
        let record = make_csv_record(data, cur, end, id, &headers, preview_max_chars);
        let ghost rv = record@;
        records.push(record);
        proof {
            assert(records_view(records@) =~= done + seq![rv]);
        }
        cur = end;
        id = if id < u64::MAX {
            id + 1
        } else {
            id
        };
        i += 1;
        proof {
            let rest = csv_records(data@, cur as int, id, (page_size - i) as nat, hv, pm);
            assert((done + seq![rv]) + rest =~= done + (seq![rv] + rest));
        }
    }
    proof {
        assert(records_view(records@) + Seq::<RecordView>::empty() =~= records_view(records@));
    }
    let reached_eof = records.len() == 0 || cur >= data.len();
    let next = if reached_eof {
        None
    } else {
        Some(Cursor { offset: cur as u64, line: id })
    };
    Ok((LinesPageInternal { records, reached_eof }, next))
}

/// In a run of CSV records every record carries its own id in its place,
/// and each starts where the one before it ends.
pub proof fn lemma_csv_records_props(
    data: Seq<u8>,
    pos: int,
    id: u64,
    n: nat,
    headers: Seq<Seq<char>>,
    preview_max_chars: nat,
)
    requires
        0 <= pos <= data.len() <= u64::MAX,
    ensures
        ids_match_meta(csv_records(data, pos, id, n, headers, preview_max_chars)),
        ids_count_from(csv_records(data, pos, id, n, headers, preview_max_chars), id),
        records_adjacent(csv_records(data, pos, id, n, headers, preview_max_chars)),
        csv_records(data, pos, id, n, headers, preview_max_chars).len() > 0 ==> csv_records(
            data,
            pos,
            id,
            n,
            headers,
            preview_max_chars,
        )[0].meta == Some(
            RecordMeta {
                line_no: id,
                byte_offset: pos as u64,
                byte_len: (csv_record_end(data, pos, record_start()) - pos) as u64,
            },
        ),
        pos <= csv_records_end(data, pos, n) <= data.len(),
        csv_records(data, pos, id, n, headers, preview_max_chars).len() <= n,
        (csv_records(data, pos, id, n, headers, preview_max_chars).len() == 0) == (n == 0 || pos
            >= data.len()),
    decreases n,
{
    let records = csv_records(data, pos, id, n, headers, preview_max_chars);
    if n == 0 || pos >= data.len() {
    } else {
        let end = csv_record_end(data, pos, record_start());
        lemma_csv_record_end_bounds(data, pos, record_start());
        let first = csv_record(data, pos, end, id, headers, preview_max_chars);
        let rest = csv_records(data, end, next_index(id), (n - 1) as nat, headers, preview_max_chars);
        lemma_csv_records_props(data, end, next_index(id), (n - 1) as nat, headers, preview_max_chars);
        assert(records =~= seq![first] + rest);
        assert(records[0] == first);
        assert forall|i: int| 0 <= i && i + 1 < records.len() implies (#[trigger] records[i]).meta
            is Some && records[i + 1].meta is Some && records[i + 1].meta->Some_0.byte_offset
            == records[i].meta->Some_0.byte_offset + records[i].meta->Some_0.byte_len by {
            if i == 0 {
                assert(records[1] == rest[0]);
            } else {
                assert(records[i] == rest[i - 1]);
                assert(records[i + 1] == rest[i]);
            }
        }
        assert forall|i: int| 0 <= i < records.len() && (#[trigger] records[i]).meta
            is Some implies records[i].meta->Some_0.line_no == records[i].id by {
            if i > 0 {
                assert(records[i] == rest[i - 1]);
            }
        }
        assert forall|i: int| 0 <= i < records.len() implies (#[trigger] records[i]).id
            == advance_id(id, i as nat) by {
            if i > 0 {
                assert(records[i] == rest[i - 1]);
            }
        }
    }
}

/// Every record that reading from `pos` on to the end of the file gives,
/// the first of them with id `id`.
pub open spec fn csv_all_from(
    data: Seq<u8>,
    pos: int,
    id: u64,
    headers: Seq<Seq<char>>,
    preview_max_chars: nat,
) -> Seq<RecordView>
    decreases data.len() - pos,
{
    if pos < 0 || pos >= data.len() {
        Seq::empty()
    } else {
        proof {
            lemma_csv_record_end_bounds(data, pos, record_start());
        }
        seq![
            csv_record(
                data,
                pos,
                csv_record_end(data, pos, record_start()),
                id,
                headers,
                preview_max_chars,
            ),
        ] + csv_all_from(
            data,
            csv_record_end(data, pos, record_start()),
            next_index(id),
            headers,
            preview_max_chars,
        )
    }
}

/// The records still to come after a page: those from its next cursor on.
pub open spec fn csv_remaining(data: Seq<u8>, next: Option<Cursor>, preview_max_chars: nat) -> Seq<
    RecordView,
> {
    match next {
        Some(c) => csv_all_from(
            data,
            c.offset as int,
            c.line,
            csv_headers(data),
            preview_max_chars,
        ),
        None => Seq::empty(),
    }
}

proof fn lemma_csv_prefix(
    data: Seq<u8>,
    pos: int,
    id: u64,
    n: nat,
    headers: Seq<Seq<char>>,
    pm: nat,
)
    requires
        0 <= pos <= data.len(),
    ensures
        csv_all_from(data, pos, id, headers, pm) == csv_records(data, pos, id, n, headers, pm)
            + csv_all_from(
            data,
            csv_records_end(data, pos, n),
            advance_id(id, csv_records(data, pos, id, n, headers, pm).len()),
            headers,
            pm,
        ),
    decreases n,
{
    let all = csv_all_from(data, pos, id, headers, pm);
    if n == 0 || pos >= data.len() {
        assert(Seq::<RecordView>::empty() + all =~= all);
    } else {
        let end = csv_record_end(data, pos, record_start());
        lemma_csv_record_end_bounds(data, pos, record_start());
        lemma_csv_prefix(data, end, next_index(id), (n - 1) as nat, headers, pm);
        let first = csv_record(data, pos, end, id, headers, pm);
        let rest = csv_records(data, end, next_index(id), (n - 1) as nat, headers, pm);
        let tail = csv_all_from(
            data,
            csv_records_end(data, end, (n - 1) as nat),
            advance_id(next_index(id), rest.len()),
            headers,
            pm,
        );
        assert((seq![first] + rest).len() == rest.len() + 1);
        assert(seq![first] + (rest + tail) =~= (seq![first] + rest) + tail);
    }
}

/// Paging is a sequential read in pieces: for a page of at least one
/// record, its records followed by all records from its next cursor on are
/// exactly the records that one sequential read from the page's own cursor
/// gives. Nothing is read twice and nothing is left out.
pub proof fn lemma_csv_paging_is_sequential(
    data: Seq<u8>,
    cursor: Cursor,
    n: nat,
    preview_max_chars: nat,
)
    requires
        cursor.offset <= data.len() <= u64::MAX,
        n > 0,
    ensures
        csv_all_from(
            data,
            cursor.offset as int,
            cursor.line,
            csv_headers(data),
            preview_max_chars,
        ) == csv_page(data, cursor, n, preview_max_chars).records + csv_remaining(
            data,
            csv_page(data, cursor, n, preview_max_chars).next,
            preview_max_chars,
        ),
{
    let page = csv_page(data, cursor, n, preview_max_chars);
    lemma_csv_prefix(
        data,
        cursor.offset as int,
        cursor.line,
        n,
        csv_headers(data),
        preview_max_chars,
    );
    lemma_csv_records_props(
        data,
        cursor.offset as int,
        cursor.line,
        n,
        csv_headers(data),
        preview_max_chars,
    );
    if page.next is None {
        assert(page.records + Seq::<RecordView>::empty() =~= page.records);
    }
}

} // verus!
