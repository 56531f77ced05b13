//! Rows of a columnar file: how a typed cell is shown as text and as JSON,
//! and pages, raw rows and exports built from the rows that the row source
//! hands over.

use vstd::prelude::*;
use vstd::string::StringExecFns;
use crate::cursor::Cursor;
use crate::engine::CoreError;
use crate::formats::csv::{sanitize_json_string, sanitized};
use crate::formats::json::{begin_output, end_output, invalid_arg, render_items, render_open, write_item};
use crate::formats::lines::{advance_id};
use crate::formats::page::{
    ids_count_from, ids_match_meta, page_consistent, page_view, LinesPageInternal, PageView,
};
use crate::json_text::{
    cell_ready, fields_ready, fields_view, is_json_number, json_number_parses,
    json_object_text, object_to_json, JsonCell, JsonCellView, JsonField, JsonFieldView,
};
use crate::models::{records_view, ExportFormat, Record, RecordMeta, RecordView};
use crate::text::{
    chars_of, int_string, int_text, push_char, truncate_chars, truncated,
};
use vstd::utf8::encode_utf8;

verus! {

/// The unit that a time value counts in.
#[derive(Debug, Clone, Copy, PartialEq, Eq, Structural)]
pub enum TimeUnit {
    Second,
    Millisecond,
    Microsecond,
    Nanosecond,
}

/// A typed cell. Floating-point cells come as text: `text` is the number as
/// it is displayed, `json` its JSON form, absent for a number that is not
/// finite.
#[derive(Debug)]
pub enum CellValue {
    Null,
    Boolean(bool),
    Int(i64),
    UInt(u64),
    HugeInt(i128),
    Float { text: String, json: Option<String> },
    Decimal(String),
    Timestamp(TimeUnit, i64),
    Text(String),
    Blob(Vec<u8>),
    Date32(i32),
    Time64(TimeUnit, i64),
    Interval { months: i32, days: i32, nanos: i64 },
    List(Vec<CellValue>),
    Enum(String),
    Struct(Vec<CellField>),
    Mapping(Vec<CellEntry>),
    Union(Box<CellValue>),
}

/// A named field of a struct cell.
#[derive(Debug)]
pub struct CellField {
    pub name: String,
    pub value: CellValue,
}

/// An entry of a map cell.
#[derive(Debug)]
pub struct CellEntry {
    pub key: CellValue,
    pub value: CellValue,
}

/// Standard Base64 text of `bytes`, with padding.
pub uninterp spec fn base64_std_text(bytes: Seq<u8>) -> Seq<char>;

/// The longest input for which the Base64 length can be computed.
pub open spec fn base64_fits(len: nat) -> bool {
    len / 3 * 4 + 4 <= usize::MAX
}

/// Calls `Engine::encode` of `base64::engine::general_purpose::STANDARD`.
/// The text depends on the bytes alone and is known here only by name. The
/// crate panics when the length of the text overflows, which the bound on
/// the input excludes.
#[verifier::external_body]
pub(crate) fn base64_std_encode(bytes: &[u8]) -> (r: String)
    requires
        base64_fits(bytes@.len()),
    ensures
        r@ == base64_std_text(bytes@),
{
    base64::Engine::encode(&base64::engine::general_purpose::STANDARD, bytes)
}

/// The name of a time unit.
pub open spec fn unit_name(u: TimeUnit) -> Seq<char> {
    match u {
        TimeUnit::Second => "Second"@,
        TimeUnit::Millisecond => "Millisecond"@,
        TimeUnit::Microsecond => "Microsecond"@,
        TimeUnit::Nanosecond => "Nanosecond"@,
    }
}

/// A cell as text. Scalars are shown as they are, binary data as tagged
/// Base64 (empty where it is too long to encode), and composite cells in a
/// compact bracketed form.
pub open spec fn value_text(v: CellValue) -> Seq<char>
    decreases v, 0nat,
{
    match v {
        CellValue::Null => "null"@,
        CellValue::Boolean(b) => if b {
            "true"@
        } else {
            "false"@
        },
        CellValue::Int(x) => int_text(x as int),
        CellValue::UInt(x) => int_text(x as int),
        CellValue::HugeInt(x) => int_text(x as int),
        CellValue::Float { text, json } => text@,
        CellValue::Decimal(t) => t@,
        CellValue::Timestamp(u, x) => "timestamp("@ + unit_name(u) + ","@ + int_text(x as int)
            + ")"@,
        CellValue::Text(s) => s@,
        CellValue::Blob(b) => "blob(base64:"@ + (if base64_fits(b@.len()) {
            base64_std_text(b@)
        } else {
            Seq::empty()
        }) + ")"@,
        CellValue::Date32(d) => "date32("@ + int_text(d as int) + ")"@,
        CellValue::Time64(u, x) => "time64("@ + unit_name(u) + ","@ + int_text(x as int) + ")"@,
        CellValue::Interval { months, days, nanos } => "interval("@ + int_text(months as int)
            + "m,"@ + int_text(days as int) + "d,"@ + int_text(nanos as int) + "n)"@,
        CellValue::List(xs) => "["@ + joined_values(xs, xs@.len()) + "]"@,
        CellValue::Enum(s) => s@,
        CellValue::Struct(fields) => "{"@ + joined_fields(fields, fields@.len()) + "}"@,
        CellValue::Mapping(entries) => "{"@ + joined_entries(entries, entries@.len()) + "}"@,
        CellValue::Union(inner) => value_text(*inner),
    }
}

/// The first `n` of `xs` as text, joined by a comma and a space.
pub open spec fn joined_values(xs: Vec<CellValue>, n: nat) -> Seq<char>
    decreases xs, n,
{
    if n == 0 || n > xs@.len() {
        Seq::empty()
    } else if n == 1 {
        value_text(xs@[0])
    } else {
        joined_values(xs, (n - 1) as nat) + ", "@ + value_text(xs@[n - 1])
    }
}

/// The first `n` of `fields` as `name: value`, joined by a comma and a
/// space.
pub open spec fn joined_fields(fields: Vec<CellField>, n: nat) -> Seq<char>
    decreases fields, n,
{
    if n == 0 || n > fields@.len() {
        Seq::empty()
    } else if n == 1 {
        fields@[0].name@ + ": "@ + value_text(fields@[0].value)
    } else {
        joined_fields(fields, (n - 1) as nat) + ", "@ + fields@[n - 1].name@ + ": "@ + value_text(
            fields@[n - 1].value,
        )
    }
}

/// The first `n` of `entries` as `key: value`, joined by a comma and a
/// space.
pub open spec fn joined_entries(entries: Vec<CellEntry>, n: nat) -> Seq<char>
    decreases entries, n,
{
    if n == 0 || n > entries@.len() {
        Seq::empty()
    } else if n == 1 {
        value_text(entries@[0].key) + ": "@ + value_text(entries@[0].value)
    } else {
        joined_entries(entries, (n - 1) as nat) + ", "@ + value_text(entries@[n - 1].key) + ": "@
            + value_text(entries@[n - 1].value)
    }
}

fn unit_str(u: TimeUnit) -> (s: &'static str)
    ensures
        s@ == unit_name(u),
{
    match u {
        TimeUnit::Second => "Second",
        TimeUnit::Millisecond => "Millisecond",
        TimeUnit::Microsecond => "Microsecond",
        TimeUnit::Nanosecond => "Nanosecond",
    }
}

/// Shows a cell as text.
pub fn value_to_string(v: &CellValue) -> (s: String)
    ensures
        s@ == value_text(*v),
    decreases v,
{
    match v {
        CellValue::Null => String::from_str("null"),
        CellValue::Boolean(b) => if *b {
            String::from_str("true")
        } else {
            String::from_str("false")
        },
        CellValue::Int(x) => int_string(*x as i128),
        CellValue::UInt(x) => int_string(*x as i128),
        CellValue::HugeInt(x) => int_string(*x),
        CellValue::Float { text, json } => text.clone(),
        CellValue::Decimal(t) => t.clone(),
        CellValue::Timestamp(u, x) => {
            let mut s = String::from_str("timestamp(");
            s.append(unit_str(*u));
            s.append(",");
            let n = int_string(*x as i128);
            s.append(n.as_str());
            s.append(")");
            s
        },
        CellValue::Text(t) => t.clone(),
        CellValue::Blob(b) => {
            let mut s = String::from_str("blob(base64:");
            if b.len() / 3 <= (usize::MAX - 4) / 4 {
                let enc = base64_std_encode(b.as_slice());
                s.append(enc.as_str());
            } else {
                assert(s@ + Seq::<char>::empty() =~= s@);
            }
            s.append(")");
            s
        },
        CellValue::Date32(d) => {
            let mut s = String::from_str("date32(");
            let n = int_string(*d as i128);
            s.append(n.as_str());
            s.append(")");
            s
        },
        CellValue::Time64(u, x) => {
            let mut s = String::from_str("time64(");
            s.append(unit_str(*u));
            s.append(",");
            let n = int_string(*x as i128);
            s.append(n.as_str());
            s.append(")");
            s
        },
        CellValue::Interval { months, days, nanos } => {
            let mut s = String::from_str("interval(");
            let m = int_string(*months as i128);
            s.append(m.as_str());
            s.append("m,");
            let d = int_string(*days as i128);
            s.append(d.as_str());
            s.append("d,");
            let n = int_string(*nanos as i128);
            s.append(n.as_str());
            s.append("n)");
            s
        },
        CellValue::List(xs) => {
            let mut s = String::from_str("[");
            let mut i: usize = 0;
            assert(s@ + joined_values(*xs, 0) =~= s@);
            while i < xs.len()
                invariant
                    i <= xs.len(),
                    *v == CellValue::List(*xs),
                    s@ == "["@ + joined_values(*xs, i as nat),
                decreases xs.len() - i,
            {
                if i > 0 {
                    s.append(", ");
                }
                proof {
                    vstd::std_specs::vec::axiom_vec_index_decreases(*xs, i as int);
                    assert(v->List_0 == *xs);
                    assert(decreases_to!(*v => v->List_0));
                }
                let t = value_to_string(&xs[i]);
                s.append(t.as_str());
                assert(s@ =~= "["@ + joined_values(*xs, (i + 1) as nat));
                i += 1;
            }
            s.append("]");
            s
        },
        CellValue::Enum(t) => t.clone(),
        CellValue::Struct(fields) => {
            let mut s = String::from_str("{");
            let mut i: usize = 0;
            assert(s@ + joined_fields(*fields, 0) =~= s@);
            while i < fields.len()
                invariant
                    i <= fields.len(),
                    *v == CellValue::Struct(*fields),
                    s@ == "{"@ + joined_fields(*fields, i as nat),
                decreases fields.len() - i,
            {
                if i > 0 {
                    s.append(", ");
                }
                s.append(fields[i].name.as_str());
                s.append(": ");
                proof {
                    vstd::std_specs::vec::axiom_vec_index_decreases(*fields, i as int);
                    assert(v->Struct_0 == *fields);
                    assert(decreases_to!(*v => v->Struct_0));
                }
                let t = value_to_string(&fields[i].value);
                s.append(t.as_str());
                assert(s@ =~= "{"@ + joined_fields(*fields, (i + 1) as nat));
                i += 1;
            }
            s.append("}");
            s
        },
        CellValue::Mapping(entries) => {
            let mut s = String::from_str("{");
            let mut i: usize = 0;
            assert(s@ + joined_entries(*entries, 0) =~= s@);
            while i < entries.len()
                invariant
                    i <= entries.len(),
                    *v == CellValue::Mapping(*entries),
                    s@ == "{"@ + joined_entries(*entries, i as nat),
                decreases entries.len() - i,
            {
                if i > 0 {
                    s.append(", ");
                }
                proof {
                    vstd::std_specs::vec::axiom_vec_index_decreases(*entries, i as int);
                    assert(v->Mapping_0 == *entries);
                    assert(decreases_to!(*v => v->Mapping_0));
                }
                let k = value_to_string(&entries[i].key);
                s.append(k.as_str());
                s.append(": ");
                let t = value_to_string(&entries[i].value);
                s.append(t.as_str());
                assert(s@ =~= "{"@ + joined_entries(*entries, (i + 1) as nat));
                i += 1;
            }
            s.append("}");
            s
        },
        CellValue::Union(inner) => value_to_string(inner),
    }
}

/// One column of a row: its name and its cell.
#[derive(Debug)]
pub struct ParquetColumn {
    pub name: String,
    pub value: CellValue,
}

/// One row, as the row source hands it over.
#[derive(Debug)]
pub struct ParquetRow {
    pub columns: Vec<ParquetColumn>,
}

/// `s` with every line feed, carriage return and tab replaced by a space.
pub open spec fn sanitized_cell(s: Seq<char>) -> Seq<char> {
    s.map_values(
        |c: char|
            if c == '\n' || c == '\r' || c == '\t' {
                ' '
            } else {
                c
            },
    )
}

/// Replaces line feeds, carriage returns and tabs by spaces, so that a
/// cell stays within its place in a tab-separated line.
pub fn sanitize_cell(s: &str) -> (r: String)
    ensures
        r@ == sanitized_cell(s@),
{
    let chars = chars_of(s);
    let mut out = String::new();
    let mut i: usize = 0;
    while i < chars.len()
        invariant
            i <= chars.len(),
            chars@ == s@,
            out@ == sanitized_cell(s@).take(i as int),
        decreases chars.len() - i,
    {
        let c = chars[i];
        push_char(
            &mut out,
            if c == '\n' || c == '\r' || c == '\t' {
                ' '
            } else {
                c
            },
        );
        assert(out@ =~= sanitized_cell(s@).take(i + 1));
        i += 1;
    }
    assert(sanitized_cell(s@).take(chars.len() as int) =~= sanitized_cell(s@));
    out
}

/// The preview line of the first `n` columns of a row: the cells as text,
/// sanitized and joined by tabs.
pub open spec fn row_line_upto(row: ParquetRow, n: nat) -> Seq<char>
    decreases n,
{
    if n == 0 || n > row.columns@.len() {
        Seq::empty()
    } else if n == 1 {
        sanitized_cell(value_text(row.columns@[0].value))
    } else {
        row_line_upto(row, (n - 1) as nat).push('\t') + sanitized_cell(
            value_text(row.columns@[n - 1].value),
        )
    }
}

/// The preview line of a row.
pub open spec fn row_line(row: ParquetRow) -> Seq<char> {
    row_line_upto(row, row.columns@.len())
}

/// A cell as a JSON value: null, booleans and integers that fit 64 bits as
/// they are, a floating-point number whose JSON form is read as a number as
/// that number, and everything else as its text cut to `cell_max`
/// characters.
pub open spec fn cell_json(v: CellValue, cell_max: nat) -> JsonCellView {
    match v {
        CellValue::Null => JsonCellView::Null,
        CellValue::Boolean(b) => JsonCellView::Bool(b),
        CellValue::Int(x) => JsonCellView::Int(x),
        CellValue::UInt(x) => JsonCellView::UInt(x),
        CellValue::Float { text, json } => match json {
            Some(number) => if json_number_parses(number@) {
                JsonCellView::Number(number@)
            } else {
                JsonCellView::Text(truncated(text@, cell_max))
            },
            None => JsonCellView::Text(truncated(text@, cell_max)),
        },
        _ => JsonCellView::Text(truncated(value_text(v), cell_max)),
    }
}

/// The fields of the JSON object of a row.
pub open spec fn row_fields(row: ParquetRow, cell_max: nat) -> Seq<JsonFieldView> {
    Seq::new(
        row.columns@.len(),
        |i: int|
            JsonFieldView {
                key: row.columns@[i].name@,
                value: cell_json(row.columns@[i].value, cell_max),
            },
    )
}

/// The JSON object of a row, or `None` should the serializer fail.
pub open spec fn row_json(row: ParquetRow, cell_max: nat) -> Option<Seq<char>> {
    json_object_text(row_fields(row, cell_max))
}

/// The most characters of a cell's text in a page: `raw_max_chars`, but at
/// least 64 and at most 2000.
pub open spec fn cell_cap(raw_max_chars: nat) -> nat {
    if raw_max_chars < 64 {
        64
    } else if raw_max_chars > 2000 {
        2000
    } else {
        raw_max_chars
    }
}

/// The record of row `row` with id `id`: the preview is the row's line, the
/// raw text its JSON object (should the serializer fail, an object that
/// holds the line). A row's place is its index; rows have no place in
/// bytes, so both byte fields are 0.
pub open spec fn parquet_record(
    row: ParquetRow,
    id: u64,
    preview_max_chars: nat,
    raw_max_chars: nat,
) -> RecordView {
    RecordView {
        id,
        preview: truncated(row_line(row), preview_max_chars),
        raw: Some(
            match row_json(row, cell_cap(raw_max_chars)) {
                Some(t) => t,
                None => "{\"__raw__\":\""@ + sanitized(row_line(row)) + "\"}"@,
            },
        ),
        meta: Some(RecordMeta { line_no: id, byte_offset: 0, byte_len: 0 }),
    }
}

/// How many of `given` rows make a page of `page_size` rows: no more than
/// were asked for.
pub open spec fn rows_in_page(given: nat, page_size: nat) -> nat {
    if given > page_size {
        page_size
    } else {
        given
    }
}

/// The page made of `rows`, which the row source gave for `page_size` rows
/// from row `cursor.line` on. Rows beyond the page size are left out; fewer
/// rows than asked for end the file, and a page without rows names no next
/// page.
pub open spec fn parquet_page(
    rows: Seq<ParquetRow>,
    cursor: Cursor,
    page_size: nat,
    preview_max_chars: nat,
    raw_max_chars: nat,
) -> PageView {
    let reached_eof = rows.len() < page_size;
    PageView {
        records: Seq::new(
            rows_in_page(rows.len(), page_size),
            |i: int|
                parquet_record(
                    rows[i],
                    advance_id(cursor.line, i as nat),
                    preview_max_chars,
                    raw_max_chars,
                ),
        ),
        next: if reached_eof || rows_in_page(rows.len(), page_size) == 0 {
            None
        } else {
            Some(
                Cursor {
                    offset: 0,
                    line: advance_id(cursor.line, rows_in_page(rows.len(), page_size)),
                },
            )
        },
        reached_eof,
    }
}

/// Whether a page window can be handed to the row source: both numbers must
/// fit a signed 64-bit integer.
pub open spec fn window_fits(cursor: Cursor, page_size: nat) -> bool {
    cursor.line <= i64::MAX && page_size <= i64::MAX
}

/// Makes the JSON value of a cell, with text cut to `cell_max` characters.
pub fn duckdb_value_to_json(v: &CellValue, cell_max: usize) -> (r: JsonCell)
    ensures
        r@ == cell_json(*v, cell_max as nat),
        cell_ready(r@),
{
    match v {
        CellValue::Null => JsonCell::Null,
        CellValue::Boolean(b) => JsonCell::Bool(*b),
        CellValue::Int(x) => JsonCell::Int(*x),
        CellValue::UInt(x) => JsonCell::UInt(*x),
        CellValue::Float { text, json } => match json {
            Some(number) => if is_json_number(number.as_str()) {
                JsonCell::Number(number.clone())
            } else {
                JsonCell::Text(truncate_chars(text.as_str(), cell_max))
            },
            None => JsonCell::Text(truncate_chars(text.as_str(), cell_max)),
        },
        _ => {
            let text = value_to_string(v);
            JsonCell::Text(truncate_chars(text.as_str(), cell_max))
        },
    }
}

/// The preview line of a row.
pub fn row_to_line(row: &ParquetRow) -> (s: String)
    ensures
        s@ == row_line(*row),
{
    let mut s = String::new();
    let mut i: usize = 0;
    while i < row.columns.len()
        invariant
            i <= row.columns.len(),
            s@ == row_line_upto(*row, i as nat),
        decreases row.columns.len() - i,
    {
        if i > 0 {
            push_char(&mut s, '\t');
        }
        let text = value_to_string(&row.columns[i].value);
        let cell = sanitize_cell(text.as_str());
        s.append(cell.as_str());
        assert(s@ =~= row_line_upto(*row, (i + 1) as nat));
        i += 1;
    }
    s
}

/// The JSON object of a row, or `None` should the serializer fail.
pub fn row_to_json(row: &ParquetRow, cell_max: usize) -> (r: Option<String>)
    ensures
        match r {
            Some(t) => row_json(*row, cell_max as nat) == Some(t@),
            None => row_json(*row, cell_max as nat) is None,
        },
{
    let mut fields: Vec<JsonField> = Vec::new();
    let mut i: usize = 0;
    while i < row.columns.len()
        invariant
            i <= row.columns.len(),
            fields@.len() == i,
            forall|j: int|
                0 <= j < i ==> (#[trigger] fields@[j])@ == row_fields(*row, cell_max as nat)[j],
            forall|j: int| 0 <= j < i ==> cell_ready((#[trigger] fields@[j])@.value),
        decreases row.columns.len() - i,
    {
        let c = &row.columns[i];
        fields.push(JsonField { key: c.name.clone(), value: duckdb_value_to_json(&c.value, cell_max) });
        i += 1;
    }
    assert(fields_view(fields@) =~= row_fields(*row, cell_max as nat));
    object_to_json(&fields)
}

fn make_parquet_record(row: &ParquetRow, id: u64, preview_max_chars: usize, raw_max_chars: usize) -> (r:
    Record)
    ensures
        r@ == parquet_record(*row, id, preview_max_chars as nat, raw_max_chars as nat),
{
    let line = row_to_line(row);
    let cell_max: usize = if raw_max_chars < 64 {
        64
    } else if raw_max_chars > 2000 {
        2000
    } else {
        raw_max_chars
    };
    let raw = match row_to_json(row, cell_max) {
        Some(t) => t,
        None => {
            let mut out = String::from_str("{\"__raw__\":\"");
            let inner = sanitize_json_string(line.as_str());
            out.append(inner.as_str());
            out.append("\"}");
            out
        },
    };
    Record {
        id,
        preview: truncate_chars(line.as_str(), preview_max_chars),
        raw: Some(raw),
        meta: Some(RecordMeta { line_no: id, byte_offset: 0, byte_len: 0 }),
    }
}

/// The limit and the offset to ask the row source for, for the page of
/// `page_size` rows at `cursor`.
pub fn parquet_window(cursor: Cursor, page_size: usize) -> (r: Result<(i64, i64), CoreError>)
    ensures
        match r {
            Ok((limit, offset)) => window_fits(cursor, page_size as nat) && limit == page_size
                && offset == cursor.line,
            Err(e) => !window_fits(cursor, page_size as nat) && e is InvalidArg,
        },
{
    if cursor.line > i64::MAX as u64 {
        return Err(invalid_arg("invalid cursor offset for parquet"));
    }
    if page_size as u64 > i64::MAX as u64 {
        return Err(invalid_arg("invalid page_size"));
    }
    Ok((page_size as i64, cursor.line as i64))
}

/// Makes the page at `cursor` out of the rows that the row source gave for
/// it.
pub fn read_parquet_page(
    rows: &Vec<ParquetRow>,
    cursor: Cursor,
    page_size: usize,
    preview_max_chars: usize,
    raw_max_chars: usize,
) -> (r: Result<(LinesPageInternal, Option<Cursor>), CoreError>)
    ensures
        match r {
            Ok((page, next)) => window_fits(cursor, page_size as nat) && page_view(page, next)
                == parquet_page(
                rows@,
                cursor,
                page_size as nat,
                preview_max_chars as nat,
                raw_max_chars as nat,
            ),
            Err(e) => !window_fits(cursor, page_size as nat) && e is InvalidArg,
        },
        r matches Ok((page, next)) ==> ids_match_meta(records_view(page.records@))
            && ids_count_from(records_view(page.records@), cursor.line) && page_consistent(
            page_view(page, next),
        ) && page.records@.len() <= page_size,
{
    let _ = parquet_window(cursor, page_size)?;
    let count = if rows.len() > page_size {
        page_size
    } else {
        rows.len()
    };
    let mut records: Vec<Record> = Vec::new();
    let mut id: u64 = cursor.line;
    let mut i: usize = 0;
    let ghost goal = parquet_page(
        rows@,
        cursor,
        page_size as nat,
        preview_max_chars as nat,
        raw_max_chars as nat,
    );
    while i < count
        invariant
            i <= count <= rows.len(),
            count == rows_in_page(rows@.len(), page_size as nat),
            records@.len() == i,
            id == advance_id(cursor.line, i as nat),
            goal == parquet_page(
                rows@,
                cursor,
                page_size as nat,
                preview_max_chars as nat,
                raw_max_chars as nat,
            ),
            forall|j: int| 0 <= j < i ==> (#[trigger] records@[j])@ == goal.records[j],
        decreases count - i,
    {
        records.push(make_parquet_record(&rows[i], id, preview_max_chars, raw_max_chars));
        id = if id < u64::MAX {
            id + 1
        } else {
            id
        };
        i += 1;
    }
    assert(records_view(records@) =~= goal.records);
    let reached_eof = rows.len() < page_size;
    let next = if reached_eof || count == 0 {
        None
    } else {
        Some(Cursor { offset: 0, line: id })
    };
    Ok((LinesPageInternal { records, reached_eof }, next))
}

/// The most characters of a cell's text in a row that is read whole:
/// `raw_max_chars`, but at least 64.
pub open spec fn raw_cell_cap(raw_max_chars: nat) -> nat {
    if raw_max_chars < 64 {
        64
    } else {
        raw_max_chars
    }
}

/// The raw text of the row with index `row_idx`, which the row source gave
/// as `row` (`None` for an index beyond the last row).
pub fn read_parquet_row_raw(row: Option<&ParquetRow>, row_idx: u64, raw_max_chars: usize) -> (r:
    Result<String, CoreError>)
    ensures
        match r {
            Ok(text) => row matches Some(found) && row_idx <= i64::MAX && row_json(
                *found,
                raw_cell_cap(raw_max_chars as nat),
            ) == Some(text@),
            Err(e) => e is InvalidArg && (row_idx > i64::MAX || row is None || row_json(
                *row->Some_0,
                raw_cell_cap(raw_max_chars as nat),
            ) is None),
        },
{
    if row_idx > i64::MAX as u64 {
        return Err(invalid_arg("invalid row index for parquet"));
    }
    let found = match row {
        Some(found) => found,
        None => {
            return Err(invalid_arg("parquet row out of range"));
        },
    };
    let cell_max: usize = if raw_max_chars < 64 {
        64
    } else {
        raw_max_chars
    };
    match row_to_json(found, cell_max) {
        Some(t) => Ok(t),
        None => Err(invalid_arg("parquet row cannot be written as json")),
    }
}

/// The JSON objects of the first `n` rows, with whole cells, as bytes;
/// `None` should the serializer fail on a row.
pub open spec fn row_items(rows: Seq<ParquetRow>, n: nat) -> Option<Seq<Seq<u8>>>
    decreases n,
{
    if n == 0 || n > rows.len() {
        Some(Seq::empty())
    } else {
        match (row_items(rows, (n - 1) as nat), row_json(rows[n - 1], usize::MAX as nat)) {
            (Some(front), Some(t)) => Some(front.push(encode_utf8(t))),
            _ => None,
        }
    }
}

proof fn lemma_row_items_fail(rows: Seq<ParquetRow>, k: nat, n: nat)
    requires
        1 <= k <= n <= rows.len(),
        row_items(rows, k) is None,
    ensures
        row_items(rows, n) is None,
    decreases n,
{
    if k < n {
        lemma_row_items_fail(rows, k, (n - 1) as nat);
    }
}

/// Writes `rows`, the rows that the row source found for the chosen row
/// indices, as JSON objects: one per line or as a JSON array. Returns how
/// many were written. On an error nothing is appended.
pub fn export_parquet(rows: &Vec<ParquetRow>, out_format: ExportFormat, writer: &mut Vec<u8>) -> (r:
    Result<u64, CoreError>)
    requires
        out_format != ExportFormat::Csv,
    ensures
        match r {
            Ok(n) => row_items(rows@, rows@.len()) matches Some(items) && n == items.len()
                && final(writer)@ == old(writer)@ + render_items(items, out_format),
            Err(e) => row_items(rows@, rows@.len()) is None && e is InvalidArg && final(writer)@
                == old(writer)@,
        },
{
    let mut out: Vec<u8> = Vec::new();
    begin_output(&mut out, out_format);
    let mut i: usize = 0;
    let ghost mut done: Seq<Seq<u8>> = Seq::empty();
    while i < rows.len()
        invariant
            i <= rows.len(),
            out_format != ExportFormat::Csv,
            row_items(rows@, i as nat) == Some(done),
            done.len() == i,
            out@ == render_open(done, out_format),
            writer@ == old(writer)@,
        decreases rows.len() - i,
    {
        match row_to_json(&rows[i], usize::MAX) {
            Some(text) => {
                write_item(&mut out, text.as_str().as_bytes(), out_format, Ghost(done));
                proof {
                    done = done.push(encode_utf8(text@));
                }
            },
            None => {
                proof {
                    lemma_row_items_fail(rows@, (i + 1) as nat, rows@.len());
                }
                return Err(invalid_arg("parquet row cannot be written as json"));
            },
        }
        i += 1;
    }
    end_output(&mut out, out_format, Ghost(done));
    writer.extend_from_slice(out.as_slice());
    Ok(rows.len() as u64)
}

} // verus!
