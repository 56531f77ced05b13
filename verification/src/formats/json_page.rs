//! Paging over a JSON document: the elements of a root array, or a stream
//! of top-level values.

use vstd::prelude::*;
use vstd::slice::slice_subrange;
use crate::cursor::Cursor;
use crate::engine::CoreError;
use crate::formats::json::{invalid_arg, invalid_arg_numbers};
use crate::formats::lines::advance_id;
use crate::formats::page::{
    eof_page, ids_count_from, ids_match_meta, page_consistent, page_view, LinesPageInternal,
    PageView,
};
use crate::formats::scan::{
    lemma_skip_ignorable_bounds, lemma_value_end_bounds, scan_value_end, skip_ignorable,
    skip_ws_and_nul, value_end, StopBytes, COMMA, LBRACKET, RBRACKET,
};
use crate::models::{next_index, records_view, Record, RecordMeta, RecordView};
use crate::text::{
    decimal_text, lossy_text, message_with_numbers, truncate_chars_force_ellipsis,
    truncated_forced, utf8_lossy,
};

verus! {

/// Whether `data` starts with the UTF-8 byte order mark.
pub open spec fn has_bom(data: Seq<u8>) -> bool {
    data.len() >= 3 && data[0] == 0xEF && data[1] == 0xBB && data[2] == 0xBF
}

/// The most bytes of a value that its preview and raw text are made from.
pub open spec fn capture_cap(preview_max_chars: nat, raw_max_chars: nat) -> nat {
    let most = if raw_max_chars > preview_max_chars {
        raw_max_chars
    } else {
        preview_max_chars
    };
    if most * 4 > 1024 {
        most * 4
    } else {
        1024
    }
}

/// The record for the value `data[start..end]`: both texts are decoded from
/// the value's first bytes, up to the cap, and cut to their character
/// limits; they end with an ellipsis when bytes were left out.
pub open spec fn json_record(
    data: Seq<u8>,
    start: int,
    end: int,
    id: u64,
    preview_max_chars: nat,
    raw_max_chars: nat,
) -> RecordView {
    let cap = capture_cap(preview_max_chars, raw_max_chars);
    let shown_end = if end - start > cap {
        start + cap
    } else {
        end
    };
    let text = lossy_text(data.subrange(start, shown_end));
    RecordView {
        id,
        preview: truncated_forced(text, preview_max_chars, shown_end < end),
        raw: Some(truncated_forced(text, raw_max_chars, shown_end < end)),
        meta: Some(
            RecordMeta { line_no: id, byte_offset: start as u64, byte_len: (end - start) as u64 },
        ),
    }
}

/// A page together with the offset up to which the data was read for it.
pub struct JsonPageRun {
    pub page: PageView,
    pub end: int,
}

/// `first`, then the records of `rest`.
pub open spec fn with_first(first: RecordView, rest: JsonPageRun) -> JsonPageRun {
    JsonPageRun { page: PageView { records: seq![first] + rest.page.records, ..rest.page }, ..rest }
}

/// `done`, then the records of `rest`.
pub open spec fn with_done(done: Seq<RecordView>, rest: JsonPageRun) -> JsonPageRun {
    JsonPageRun { page: PageView { records: done + rest.page.records, ..rest.page }, ..rest }
}

/// The run that ends the file at `end` with no further record.
pub open spec fn run_end(end: int) -> JsonPageRun {
    JsonPageRun { page: eof_page(), end }
}

/// What `n` steps give from `pos` on, the next record having id `id`. A
/// step meets the end of the data or `]`, which ends the file; or a stray
/// comma, which it passes over; or a value, which becomes a record. After a
/// record the padding and one comma are passed over. When the steps run
/// out, the next page starts where reading stopped.
pub open spec fn json_page_from(
    data: Seq<u8>,
    pos: int,
    id: u64,
    n: nat,
    preview_max_chars: nat,
    raw_max_chars: nat,
) -> JsonPageRun
    decreases n,
{
    if n == 0 {
        JsonPageRun {
            page: PageView {
                records: Seq::empty(),
                next: Some(Cursor { offset: pos as u64, line: id }),
                reached_eof: false,
            },
            end: pos,
        }
    } else {
        let p = skip_ignorable(data, pos);
        if p < 0 || p >= data.len() {
            run_end(p)
        } else if data[p] == RBRACKET {
            run_end(p + 1)
        } else if data[p] == COMMA {
            json_page_from(data, p + 1, id, (n - 1) as nat, preview_max_chars, raw_max_chars)
        } else {
            let end = value_end(data, p, StopBytes::InArray);
            let record = json_record(data, p, end, id, preview_max_chars, raw_max_chars);
            let q = skip_ignorable(data, end);
            if q >= data.len() {
                with_first(record, run_end(q))
            } else if data[q] == RBRACKET {
                with_first(record, run_end(q + 1))
            } else {
                let next_pos = if data[q] == COMMA {
                    skip_ignorable(data, q + 1)
                } else {
                    q
                };
                with_first(
                    record,
                    json_page_from(
                        data,
                        next_pos,
                        next_index(id),
                        (n - 1) as nat,
                        preview_max_chars,
                        raw_max_chars,
                    ),
                )
            }
        }
    }
}

/// Where paging starts, or that the file is already at its end.
pub enum PageStart {
    Begin(int),
    Finished(int),
}

/// Where reading continues once `n` values from `pos` on are passed over.
pub open spec fn skip_values(data: Seq<u8>, pos: int, n: nat) -> PageStart
    decreases n,
{
    if n == 0 {
        PageStart::Begin(pos)
    } else {
        let p = skip_ignorable(data, pos);
        if p < 0 || p >= data.len() {
            PageStart::Finished(p)
        } else {
            let q = skip_ignorable(data, value_end(data, p, StopBytes::InArray));
            if q >= data.len() || data[q] == RBRACKET {
                PageStart::Begin(q)
            } else if data[q] == COMMA {
                skip_values(data, skip_ignorable(data, q + 1), (n - 1) as nat)
            } else {
                skip_values(data, q, (n - 1) as nat)
            }
        }
    }
}

/// Where the page at `cursor` starts. At offset 0 a byte order mark, padding
/// and an opening `[` are passed over, an array that closes at once ends
/// the file, and `cursor.line` values are passed over. At any other offset
/// padding and one comma are passed over.
pub open spec fn json_page_start(data: Seq<u8>, cursor: Cursor) -> PageStart {
    if cursor.offset == 0 {
        let p = skip_ignorable(
            data,
            if has_bom(data) {
                3
            } else {
                0
            },
        );
        let p2 = skip_ignorable(
            data,
            if p < data.len() && data[p] == LBRACKET {
                p + 1
            } else {
                p
            },
        );
        if p2 < data.len() && data[p2] == RBRACKET {
            PageStart::Finished(p2 + 1)
        } else {
            skip_values(data, p2, cursor.line as nat)
        }
    } else {
        let p = skip_ignorable(data, cursor.offset as int);
        if 0 <= p < data.len() && data[p] == COMMA {
            PageStart::Begin(skip_ignorable(data, p + 1))
        } else {
            PageStart::Begin(p)
        }
    }
}

/// A run whose page holds no record counts as the end of the file.
pub open spec fn finished(run: JsonPageRun) -> JsonPageRun {
    if run.page.records.len() == 0 {
        run_end(run.end)
    } else {
        run
    }
}

/// The page of up to `n` steps that starts at `cursor`.
pub open spec fn json_page(
    data: Seq<u8>,
    cursor: Cursor,
    n: nat,
    preview_max_chars: nat,
    raw_max_chars: nat,
) -> JsonPageRun {
    match json_page_start(data, cursor) {
        PageStart::Finished(end) => run_end(end),
        PageStart::Begin(pos) => finished(
            json_page_from(data, pos, cursor.line, n, preview_max_chars, raw_max_chars),
        ),
    }
}

fn make_json_record(
    data: &[u8],
    start: usize,
    end: usize,
    id: u64,
    preview_max_chars: usize,
    raw_max_chars: usize,
) -> (r: Record)
    requires
        start <= end <= data.len(),
    ensures
        r@ == json_record(
            data@,
            start as int,
            end as int,
            id,
            preview_max_chars as nat,
            raw_max_chars as nat,
        ),
{
    let most = if raw_max_chars > preview_max_chars {
        raw_max_chars
    } else {
        preview_max_chars
    };
    let cap: usize = if most > usize::MAX / 4 {
        usize::MAX
    } else if most * 4 > 1024 {
        most * 4
    } else {
        1024
    };
    let shown_end = if end - start > cap {
        start + cap
    } else {
        end
    };
    let text = utf8_lossy(slice_subrange(data, start, shown_end));
    let cut = shown_end < end;
    let preview = truncate_chars_force_ellipsis(text.as_str(), preview_max_chars, cut);
    let raw = truncate_chars_force_ellipsis(text.as_str(), raw_max_chars, cut);
    Record {
        id,
        preview,
        raw: Some(raw),
        meta: Some(
            RecordMeta { line_no: id, byte_offset: start as u64, byte_len: (end - start) as u64 },
        ),
    }
}

/// `Ok` with where paging starts, `Err` with where the file was found to end.
fn pass_values(data: &[u8], pos: usize, n: u64) -> (r: Result<usize, usize>)
    requires
        pos <= data.len(),
    ensures
        match r {
            Ok(p) => skip_values(data@, pos as int, n as nat) == PageStart::Begin(p as int) && p
                <= data.len(),
            Err(e) => skip_values(data@, pos as int, n as nat) == PageStart::Finished(e as int)
                && e <= data.len(),
        },
{
    let mut cur: usize = pos;
    let mut i: u64 = 0;
    while i < n
        invariant
            i <= n,
            cur <= data.len(),
            skip_values(data@, pos as int, n as nat) == skip_values(
                data@,
                cur as int,
                (n - i) as nat,
            ),
        decreases n - i,
    {
        let p = skip_ws_and_nul(data, cur);
        if p >= data.len() {
            return Err(p);
        }
        let q = skip_ws_and_nul(data, scan_value_end(data, p, StopBytes::InArray));
        if q >= data.len() || data[q] == RBRACKET {
            return Ok(q);
        }
        if data[q] == COMMA {
            cur = skip_ws_and_nul(data, q + 1);
        } else {
            cur = q;
        }
        i += 1;
    }
    Ok(cur)
}

fn find_json_page_start(data: &[u8], cursor: Cursor) -> (r: Result<usize, usize>)
    requires
        cursor.offset <= data.len(),
    ensures
        match r {
            Ok(p) => json_page_start(data@, cursor) == PageStart::Begin(p as int) && p
                <= data.len(),
            Err(e) => json_page_start(data@, cursor) == PageStart::Finished(e as int) && e
                <= data.len(),
        },
{
    if cursor.offset == 0 {
        let bom = data.len() >= 3 && data[0] == 0xEF && data[1] == 0xBB && data[2] == 0xBF;
        let p = skip_ws_and_nul(
            data,
            if bom {
                3
            } else {
                0
            },
        );
        let p2 = skip_ws_and_nul(
            data,
            if p < data.len() && data[p] == LBRACKET {
                p + 1
            } else {
                p
            },
        );
        if p2 < data.len() && data[p2] == RBRACKET {
            Err(p2 + 1)
        } else {
            pass_values(data, p2, cursor.line)
        }
    } else {
        let p = skip_ws_and_nul(data, cursor.offset as usize);
        if p < data.len() && data[p] == COMMA {
            Ok(skip_ws_and_nul(data, p + 1))
        } else {
            Ok(p)
        }
    }
}

/// The bad-cursor error for an offset that lies beyond data of length
/// `len`; its message names both numbers.
fn bad_cursor(offset: u64, len: usize) -> (e: CoreError)
    ensures
        e is BadCursor,
        e->BadCursor_0@ == "offset "@ + decimal_text(offset as nat) + " beyond file len "@
            + decimal_text(len as nat),
{
    CoreError::BadCursor(message_with_numbers("offset ", offset, " beyond file len ", len as u64))
}

/// Reads the page of up to `page_size` steps that starts at `cursor`, and
/// tells up to which offset the data was read for it.
pub fn read_json_page_with_progress(
    data: &[u8],
    cursor: Cursor,
    page_size: usize,
    preview_max_chars: usize,
    raw_max_chars: usize,
) -> (r: Result<(LinesPageInternal, Option<Cursor>, u64), CoreError>)
    ensures
        match r {
            Ok((page, next, done)) => cursor.offset <= data.len() && (JsonPageRun {
                page: page_view(page, next),
                end: done as int,
            }) == json_page(
                data@,
                cursor,
                page_size as nat,
                preview_max_chars as nat,
                raw_max_chars as nat,
            ),
            Err(e) => cursor.offset > data.len() && e is BadCursor,
        },
        r matches Ok((page, next, done)) ==> ids_match_meta(records_view(page.records@))
            && ids_count_from(records_view(page.records@), cursor.line) && page_consistent(
            page_view(page, next),
        ) && cursor.offset <= done <= data.len() && page.records@.len() <= page_size,
{
    proof {
        if cursor.offset <= data.len() {
            lemma_json_page_props(
                data@,
                cursor,
                page_size as nat,
                preview_max_chars as nat,
                raw_max_chars as nat,
            );
        }
    }
    if cursor.offset > data.len() as u64 {
        return Err(bad_cursor(cursor.offset, data.len()));
    }
    let ghost pm = preview_max_chars as nat;
    let ghost rm = raw_max_chars as nat;
    let start = match find_json_page_start(data, cursor) {
        Ok(p) => p,
        Err(end) => {
            let page = LinesPageInternal { records: Vec::new(), reached_eof: true };
            assert(records_view(page.records@) =~= Seq::empty());
            return Ok((page, None, end as u64));
        },
    };
    let mut records: Vec<Record> = Vec::new();
    let mut cur: usize = start;
    let mut id: u64 = cursor.line;
    let mut i: usize = 0;
    let mut end_at: Option<usize> = None;
    let ghost whole = json_page_from(data@, start as int, cursor.line, page_size as nat, pm, rm);
    proof {
        assert(Seq::<RecordView>::empty() + whole.page.records =~= whole.page.records);
    }
    while i < page_size && end_at.is_none()
        invariant
            i <= page_size,
            cur <= data.len(),
            pm == preview_max_chars as nat,
            rm == raw_max_chars as nat,
            end_at matches Some(e) ==> e <= data.len(),
            whole == (match end_at {
                Some(e) => with_done(records_view(records@), run_end(e as int)),
                None => with_done(
                    records_view(records@),
                    json_page_from(data@, cur as int, id, (page_size - i) as nat, pm, rm),
                ),
            }),
        decreases page_size - i, if end_at is None { 1nat } else { 0nat },
    {
        let ghost done = records_view(records@);
        let p = skip_ws_and_nul(data, cur);
        if p >= data.len() {
            end_at = Some(p);
        } else if data[p] == RBRACKET {
            end_at = Some(p + 1);
        } else if data[p] == COMMA {
            cur = p + 1;
            i += 1;
        } else {
            let end = scan_value_end(data, p, StopBytes::InArray);
            let record = make_json_record(data, p, end, id, preview_max_chars, raw_max_chars);
            let ghost rv = record@;
            records.push(record);
            assert(records_view(records@) =~= done + seq![rv]);
            let q = skip_ws_and_nul(data, end);
            if q >= data.len() {
                end_at = Some(q);
                assert((done + seq![rv]) + Seq::<RecordView>::empty() =~= done + (seq![rv]
                    + Seq::<RecordView>::empty()));
            } else if data[q] == RBRACKET {
                end_at = Some(q + 1);
                assert((done + seq![rv]) + Seq::<RecordView>::empty() =~= done + (seq![rv]
                    + Seq::<RecordView>::empty()));
            } else {
                if data[q] == COMMA {
                    cur = skip_ws_and_nul(data, q + 1);
                } else {
                    cur = q;
                }
                id = if id < u64::MAX {
                    id + 1
                } else {
                    id
                };
                i += 1;
                proof {
                    let rest = json_page_from(
                        data@,
                        cur as int,
                        id,
                        (page_size - i) as nat,
                        pm,
                        rm,
                    );
                    assert((done + seq![rv]) + rest.page.records =~= done + (seq![rv]
                        + rest.page.records));
                }
            }
        }
    }
    let ghost listed = records_view(records@);
    let (reached_eof, done_to): (bool, usize) = match end_at {
        Some(e) => (true, e),
        None => (false, cur),
    };
    proof {
        assert(listed + Seq::<RecordView>::empty() =~= listed);
    }
    if records.len() == 0 {
        let page = LinesPageInternal { records, reached_eof: true };
        Ok((page, None, done_to as u64))
    } else {
        let next = if reached_eof {
            None
        } else {
            Some(Cursor { offset: cur as u64, line: id })
        };
        let page = LinesPageInternal { records, reached_eof };
        Ok((page, next, done_to as u64))
    }
}

/// Reads the page of up to `page_size` steps that starts at `cursor`.
pub fn read_json_page(
    data: &[u8],
    cursor: Cursor,
    page_size: usize,
    preview_max_chars: usize,
    raw_max_chars: usize,
) -> (r: Result<(LinesPageInternal, Option<Cursor>), CoreError>)
    ensures
        match r {
            Ok((page, next)) => cursor.offset <= data.len() && page_view(page, next) == json_page(
                data@,
                cursor,
                page_size as nat,
                preview_max_chars as nat,
                raw_max_chars as nat,
            ).page,
            Err(e) => cursor.offset > data.len() && e is BadCursor,
        },
        r matches Ok((page, next)) ==> ids_match_meta(records_view(page.records@))
            && ids_count_from(records_view(page.records@), cursor.line) && page_consistent(
            page_view(page, next),
        ) && page.records@.len() <= page_size,
{
    let (page, next, _) = read_json_page_with_progress(
        data,
        cursor,
        page_size,
        preview_max_chars,
        raw_max_chars,
    )?;
    Ok((page, next))
}

/// The whole text of the value that follows the padding at `offset`.
/// `None` when the offset lies beyond the data, nothing but padding
/// follows it, or the value is longer than `max_bytes`.
pub open spec fn json_value_text(data: Seq<u8>, offset: u64, max_bytes: u64) -> Option<Seq<char>> {
    let p = skip_ignorable(data, offset as int);
    let end = value_end(data, p, StopBytes::InArray);
    if offset > data.len() || p >= data.len() || end - p > max_bytes {
        None
    } else {
        Some(lossy_text(data.subrange(p, end)))
    }
}

/// Reads the whole value that starts at or after `offset`, for a record
/// whose raw text was shortened in its page.
pub fn read_json_value_at_offset(data: &[u8], offset: u64, max_bytes: u64) -> (r: Result<
    String,
    CoreError,
>)
    ensures
        match r {
            Ok(text) => json_value_text(data@, offset, max_bytes) == Some(text@),
            Err(e) => json_value_text(data@, offset, max_bytes) is None && e is InvalidArg,
        },
{
    if offset > data.len() as u64 {
        return Err(invalid_arg_numbers("offset ", offset, " beyond file len ", data.len() as u64));
    }
    let p = skip_ws_and_nul(data, offset as usize);
    if p >= data.len() {
        return Err(invalid_arg("unexpected EOF at offset"));
    }
    let end = scan_value_end(data, p, StopBytes::InArray);
    if (end - p) as u64 > max_bytes {
        return Err(
            invalid_arg_numbers("json value too large: ", (end - p) as u64, " bytes, max ", max_bytes),
        );
    }
    Ok(utf8_lossy(slice_subrange(data, p, end)))
}

/// Every record that reading from `pos` on to the end of the file gives,
/// the first of them with id `id`.
pub open spec fn json_all_from(
    data: Seq<u8>,
    pos: int,
    id: u64,
    preview_max_chars: nat,
    raw_max_chars: nat,
) -> Seq<RecordView>
    decreases data.len() - pos,
{
    let p = skip_ignorable(data, pos);
    if pos < 0 || p >= data.len() || data[p] == RBRACKET {
        Seq::empty()
    } else if data[p] == COMMA {
        proof {
            lemma_skip_ignorable_bounds(data, pos);
        }
        json_all_from(data, p + 1, id, preview_max_chars, raw_max_chars)
    } else {
        let end = value_end(data, p, StopBytes::InArray);
        let record = json_record(data, p, end, id, preview_max_chars, raw_max_chars);
        let q = skip_ignorable(data, end);
        if q >= data.len() || data[q] == RBRACKET {
            seq![record]
        } else {
            let next_pos = if data[q] == COMMA {
                skip_ignorable(data, q + 1)
            } else {
                q
            };
            proof {
                lemma_skip_ignorable_bounds(data, pos);
                lemma_value_end_bounds(data, p, StopBytes::InArray);
                lemma_skip_ignorable_bounds(data, end);
                lemma_skip_ignorable_bounds(data, q + 1);
            }
            seq![record] + json_all_from(
                data,
                next_pos,
                next_index(id),
                preview_max_chars,
                raw_max_chars,
            )
        }
    }
}

/// Every record that one sequential read gives from `cursor` on.
pub open spec fn json_sequential(
    data: Seq<u8>,
    cursor: Cursor,
    preview_max_chars: nat,
    raw_max_chars: nat,
) -> Seq<RecordView> {
    match json_page_start(data, cursor) {
        PageStart::Finished(_) => Seq::empty(),
        PageStart::Begin(pos) => json_all_from(
            data,
            pos,
            cursor.line,
            preview_max_chars,
            raw_max_chars,
        ),
    }
}

/// The records still to come after a page: those from its next cursor on.
pub open spec fn json_remaining(
    data: Seq<u8>,
    next: Option<Cursor>,
    preview_max_chars: nat,
    raw_max_chars: nat,
) -> Seq<RecordView> {
    match next {
        Some(c) => json_sequential(data, c, preview_max_chars, raw_max_chars),
        None => Seq::empty(),
    }
}

/// A page is conclusive when it holds a record or the file truly ended: its
/// steps were not all spent on stray commas.
pub open spec fn json_page_conclusive(
    data: Seq<u8>,
    cursor: Cursor,
    n: nat,
    preview_max_chars: nat,
    raw_max_chars: nat,
) -> bool {
    match json_page_start(data, cursor) {
        PageStart::Finished(_) => true,
        PageStart::Begin(pos) => {
            let run = json_page_from(
                data,
                pos,
                cursor.line,
                n,
                preview_max_chars,
                raw_max_chars,
            );
            run.page.records.len() > 0 || run.page.reached_eof
        },
    }
}

proof fn lemma_all_from_skips_padding(data: Seq<u8>, pos: int, id: u64, pm: nat, rm: nat)
    requires
        0 <= pos <= data.len(),
    ensures
        json_all_from(data, skip_ignorable(data, pos), id, pm, rm) == json_all_from(
            data,
            pos,
            id,
            pm,
            rm,
        ),
{
    lemma_skip_ignorable_bounds(data, pos);
}

proof fn lemma_skip_values_bounds(data: Seq<u8>, pos: int, n: nat)
    requires
        0 <= pos <= data.len(),
    ensures
        match skip_values(data, pos, n) {
            PageStart::Begin(p) => pos <= p <= data.len(),
            PageStart::Finished(e) => pos <= e <= data.len(),
        },
    decreases n,
{
    if n > 0 {
        lemma_skip_ignorable_bounds(data, pos);
        let p = skip_ignorable(data, pos);
        if p < data.len() {
            lemma_value_end_bounds(data, p, StopBytes::InArray);
            let end = value_end(data, p, StopBytes::InArray);
            lemma_skip_ignorable_bounds(data, end);
            let q = skip_ignorable(data, end);
            if q >= data.len() || data[q] == RBRACKET {
            } else if data[q] == COMMA {
                lemma_skip_ignorable_bounds(data, q + 1);
                lemma_skip_values_bounds(data, skip_ignorable(data, q + 1), (n - 1) as nat);
            } else {
                lemma_skip_values_bounds(data, q, (n - 1) as nat);
            }
        }
    }
}

proof fn lemma_page_start_bounds(data: Seq<u8>, cursor: Cursor)
    requires
        cursor.offset <= data.len(),
    ensures
        match json_page_start(data, cursor) {
            PageStart::Begin(p) => cursor.offset <= p <= data.len(),
            PageStart::Finished(e) => cursor.offset <= e <= data.len(),
        },
{
    if cursor.offset == 0 {
        let b: int = if has_bom(data) {
            3
        } else {
            0
        };
        lemma_skip_ignorable_bounds(data, b);
        let p = skip_ignorable(data, b);
        let p1 = if p < data.len() && data[p] == LBRACKET {
            p + 1
        } else {
            p
        };
        lemma_skip_ignorable_bounds(data, p1);
        lemma_skip_values_bounds(data, skip_ignorable(data, p1), cursor.line as nat);
    } else {
        lemma_skip_ignorable_bounds(data, cursor.offset as int);
        let p = skip_ignorable(data, cursor.offset as int);
        if p < data.len() {
            lemma_skip_ignorable_bounds(data, p + 1);
        }
    }
}

/// The steps of a page take the first records of the sequential read, and
/// its cursor points at the rest.
proof fn lemma_page_from_is_prefix(data: Seq<u8>, pos: int, id: u64, n: nat, pm: nat, rm: nat)
    requires
        0 <= pos <= data.len() <= u64::MAX,
    ensures
        ({
            let run = json_page_from(data, pos, id, n, pm, rm);
            &&& pos <= run.end <= data.len()
            &&& match run.page.next {
                Some(c) => !run.page.reached_eof && pos <= c.offset <= data.len()
                    && (run.page.records.len() > 0 ==> pos < c.offset) && json_all_from(
                    data,
                    pos,
                    id,
                    pm,
                    rm,
                ) == run.page.records + json_all_from(data, c.offset as int, c.line, pm, rm),
                None => run.page.reached_eof && json_all_from(data, pos, id, pm, rm)
                    == run.page.records,
            }
        }),
    decreases n,
{
    let run = json_page_from(data, pos, id, n, pm, rm);
    let all = json_all_from(data, pos, id, pm, rm);
    lemma_skip_ignorable_bounds(data, pos);
    if n == 0 {
        assert(Seq::<RecordView>::empty() + all =~= all);
    } else {
        let p = skip_ignorable(data, pos);
        if p >= data.len() {
        } else if data[p] == RBRACKET {
        } else if data[p] == COMMA {
            lemma_page_from_is_prefix(data, p + 1, id, (n - 1) as nat, pm, rm);
        } else {
            let end = value_end(data, p, StopBytes::InArray);
            lemma_value_end_bounds(data, p, StopBytes::InArray);
            lemma_skip_ignorable_bounds(data, end);
            let record = json_record(data, p, end, id, pm, rm);
            let q = skip_ignorable(data, end);
            if q >= data.len() {
            } else if data[q] == RBRACKET {
            } else {
                lemma_skip_ignorable_bounds(data, q + 1);
                let next_pos = if data[q] == COMMA {
                    skip_ignorable(data, q + 1)
                } else {
                    q
                };
                lemma_page_from_is_prefix(data, next_pos, next_index(id), (n - 1) as nat, pm, rm);
                let rest = json_page_from(data, next_pos, next_index(id), (n - 1) as nat, pm, rm);
                match rest.page.next {
                    Some(c) => {
                        let tail = json_all_from(data, c.offset as int, c.line, pm, rm);
                        assert(seq![record] + (rest.page.records + tail) =~= (seq![record]
                            + rest.page.records) + tail);
                    },
                    None => {},
                }
            }
        }
    }
}

/// Paging is a sequential read in pieces: the records of a conclusive page,
/// followed by all records from its next cursor on, are exactly the records
/// that one sequential read from the page's own cursor gives. Nothing is
/// read twice and nothing is left out.
pub proof fn lemma_json_paging_is_sequential(
    data: Seq<u8>,
    cursor: Cursor,
    n: nat,
    preview_max_chars: nat,
    raw_max_chars: nat,
)
    requires
        cursor.offset <= data.len() <= u64::MAX,
        json_page_conclusive(data, cursor, n, preview_max_chars, raw_max_chars),
    ensures
        json_sequential(data, cursor, preview_max_chars, raw_max_chars) == json_page(
            data,
            cursor,
            n,
            preview_max_chars,
            raw_max_chars,
        ).page.records + json_remaining(
            data,
            json_page(data, cursor, n, preview_max_chars, raw_max_chars).page.next,
            preview_max_chars,
            raw_max_chars,
        ),
{
    let pm = preview_max_chars;
    let rm = raw_max_chars;
    let page = json_page(data, cursor, n, pm, rm).page;
    lemma_page_start_bounds(data, cursor);
    match json_page_start(data, cursor) {
        PageStart::Finished(_) => {
            assert(page.records + Seq::<RecordView>::empty() =~= page.records);
        },
        PageStart::Begin(pos) => {
            lemma_page_from_is_prefix(data, pos, cursor.line, n, pm, rm);
            let run = json_page_from(data, pos, cursor.line, n, pm, rm);
            if run.page.records.len() == 0 {
                assert(page.records + Seq::<RecordView>::empty() =~= page.records);
            } else {
                match run.page.next {
                    Some(c) => {
                        lemma_skip_ignorable_bounds(data, c.offset as int);
                        lemma_all_from_skips_padding(data, c.offset as int, c.line, pm, rm);
                        let p = skip_ignorable(data, c.offset as int);
                        if p < data.len() && data[p] == COMMA {
                            lemma_all_from_skips_padding(data, p + 1, c.line, pm, rm);
                        }
                    },
                    None => {
                        assert(page.records + Seq::<RecordView>::empty() =~= page.records);
                    },
                }
            }
        },
    }
}

proof fn lemma_page_from_props(data: Seq<u8>, pos: int, id: u64, n: nat, pm: nat, rm: nat)
    requires
        0 <= pos <= data.len(),
    ensures
        ids_match_meta(json_page_from(data, pos, id, n, pm, rm).page.records),
        ids_count_from(json_page_from(data, pos, id, n, pm, rm).page.records, id),
        json_page_from(data, pos, id, n, pm, rm).page.records.len() <= n,
        json_page_from(data, pos, id, n, pm, rm).page.next is None <==> json_page_from(
            data,
            pos,
            id,
            n,
            pm,
            rm,
        ).page.reached_eof,
        pos <= json_page_from(data, pos, id, n, pm, rm).end <= data.len(),
    decreases n,
{
    let run = json_page_from(data, pos, id, n, pm, rm);
    lemma_skip_ignorable_bounds(data, pos);
    if n > 0 {
        let p = skip_ignorable(data, pos);
        if p >= data.len() || data[p] == RBRACKET {
        } else if data[p] == COMMA {
            lemma_page_from_props(data, p + 1, id, (n - 1) as nat, pm, rm);
        } else {
            let end = value_end(data, p, StopBytes::InArray);
            lemma_value_end_bounds(data, p, StopBytes::InArray);
            lemma_skip_ignorable_bounds(data, end);
            let record = json_record(data, p, end, id, pm, rm);
            let q = skip_ignorable(data, end);
            if q >= data.len() || data[q] == RBRACKET {
                assert(run.page.records =~= seq![record]);
            } else {
                lemma_skip_ignorable_bounds(data, q + 1);
                let next_pos = if data[q] == COMMA {
                    skip_ignorable(data, q + 1)
                } else {
                    q
                };
                lemma_page_from_props(data, next_pos, next_index(id), (n - 1) as nat, pm, rm);
                let rest = json_page_from(data, next_pos, next_index(id), (n - 1) as nat, pm, rm);
                assert(run.page.records =~= seq![record] + rest.page.records);
                assert forall|i: int| 0 <= i < run.page.records.len() && (
                #[trigger] run.page.records[i]).meta is Some implies run.page.records[i].meta->Some_0.line_no
                    == run.page.records[i].id by {
                    if i > 0 {
                        assert(run.page.records[i] == rest.page.records[i - 1]);
                    }
                }
                assert forall|i: int| 0 <= i < run.page.records.len() implies (
                #[trigger] run.page.records[i]).id == advance_id(id, i as nat) by {
                    if i > 0 {
                        assert(run.page.records[i] == rest.page.records[i - 1]);
                    }
                }
            }
        }
    }
}

/// In every page each record carries its own id in its place, and the page
/// names a next cursor exactly if it holds records and the end was not
/// reached.
pub proof fn lemma_json_page_props(data: Seq<u8>, cursor: Cursor, n: nat, pm: nat, rm: nat)
    requires
        cursor.offset <= data.len(),
    ensures
        ids_match_meta(json_page(data, cursor, n, pm, rm).page.records),
        ids_count_from(json_page(data, cursor, n, pm, rm).page.records, cursor.line),
        json_page(data, cursor, n, pm, rm).page.records.len() <= n,
        page_consistent(json_page(data, cursor, n, pm, rm).page),
        cursor.offset <= json_page(data, cursor, n, pm, rm).end <= data.len(),
{
    lemma_page_start_bounds(data, cursor);
    match json_page_start(data, cursor) {
        PageStart::Finished(_) => {},
        PageStart::Begin(pos) => {
            lemma_page_from_props(data, pos, cursor.line, n, pm, rm);
        },
    }
}

} // verus!
