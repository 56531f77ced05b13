//! Paging over files that hold one record per line.

use vstd::prelude::*;
use vstd::slice::slice_subrange;
use crate::cursor::Cursor;
use crate::engine::CoreError;
use crate::formats::page::{
    ids_count_from, ids_match_meta, page_consistent, page_view, records_adjacent,
    LinesPageInternal, PageView,
};
use crate::models::{next_index, records_view, Record, RecordMeta, RecordView};
use crate::text::{
    lossy_text, message_with_numbers, truncate_chars_force_ellipsis, truncated_forced, utf8_lossy,
};

verus! {

pub const LF: u8 = 0x0A;
pub const CR: u8 = 0x0D;

/// The offset just after the first line feed at or after `pos`, or the
/// length of `data` when no line feed follows.
pub open spec fn line_end(data: Seq<u8>, pos: int) -> int
    decreases data.len() - pos,
{
    if pos < 0 || pos >= data.len() {
        data.len() as int
    } else if data[pos] == LF {
        pos + 1
    } else {
        line_end(data, pos + 1)
    }
}

/// A line that starts within the data is not empty and ends within it.
pub proof fn lemma_line_end_bounds(data: Seq<u8>, pos: int)
    requires
        0 <= pos < data.len(),
    ensures
        pos < line_end(data, pos) <= data.len(),
    decreases data.len() - pos,
{
    if data[pos] != LF {
        if pos + 1 < data.len() {
            lemma_line_end_bounds(data, pos + 1);
        } else {
            assert(line_end(data, pos + 1) == data.len());
        }
    }
}

/// `bytes` without the line feed at its end and the carriage return before
/// that line feed.
pub open spec fn without_terminator(bytes: Seq<u8>) -> Seq<u8> {
    if bytes.len() > 0 && bytes.last() == LF {
        if bytes.len() > 1 && bytes[bytes.len() - 2] == CR {
            bytes.take(bytes.len() - 2)
        } else {
            bytes.take(bytes.len() - 1)
        }
    } else {
        bytes
    }
}

/// The most bytes of a line that its texts are made from: room for one
/// character more than the larger limit, four bytes each, and some slack.
pub open spec fn collect_limit(preview_max_chars: nat, raw_max_chars: nat) -> nat {
    let most = if raw_max_chars > preview_max_chars {
        raw_max_chars
    } else if preview_max_chars > 1 {
        preview_max_chars
    } else {
        1
    };
    (most + 1) * 4 + 64
}

/// The record for the line `data[start..end]`: its texts are decoded from
/// the line's first bytes, up to the limit, without the line terminator;
/// they end with an ellipsis when bytes were left out. There is no raw text
/// when `raw_max_chars` is 0.
pub open spec fn line_record(
    data: Seq<u8>,
    start: int,
    end: int,
    id: u64,
    preview_max_chars: nat,
    raw_max_chars: nat,
) -> RecordView {
    let limit = collect_limit(preview_max_chars, raw_max_chars);
    let shown_end = if end - start > limit {
        start + limit
    } else {
        end
    };
    let text = lossy_text(without_terminator(data.subrange(start, shown_end)));
    RecordView {
        id,
        preview: truncated_forced(text, preview_max_chars, shown_end < end),
        raw: if raw_max_chars == 0 {
            None
        } else {
            Some(truncated_forced(text, raw_max_chars, shown_end < end))
        },
        meta: Some(
            RecordMeta { line_no: id, byte_offset: start as u64, byte_len: (end - start) as u64 },
        ),
    }
}

/// The records of up to `n` lines from `pos` on, the first with id `id`.
pub open spec fn line_records(
    data: Seq<u8>,
    pos: int,
    id: u64,
    n: nat,
    preview_max_chars: nat,
    raw_max_chars: nat,
) -> Seq<RecordView>
    decreases n,
{
    if n == 0 || pos < 0 || pos >= data.len() {
        Seq::empty()
    } else {
        seq![
            line_record(data, pos, line_end(data, pos), id, preview_max_chars, raw_max_chars),
        ] + line_records(
            data,
            line_end(data, pos),
            next_index(id),
            (n - 1) as nat,
            preview_max_chars,
            raw_max_chars,
        )
    }
}

/// The offset after up to `n` lines from `pos` on.
pub open spec fn lines_end(data: Seq<u8>, pos: int, n: nat) -> int
    decreases n,
{
    if n == 0 || pos < 0 || pos >= data.len() {
        pos
    } else {
        lines_end(data, line_end(data, pos), (n - 1) as nat)
    }
}

/// The id `count` places after `id`: their sum, or the largest id where
/// the sum passes it.
pub open spec fn advance_id(id: u64, count: nat) -> u64 {
    if id + count <= u64::MAX {
        (id + count) as u64
    } else {
        u64::MAX
    }
}

/// The page that `records`, read up to offset `end`, make: the file's end is
/// reached when nothing was read or nothing is left, and otherwise the next
/// page starts at `end`.
pub open spec fn page_of(records: Seq<RecordView>, end: int, len: int, cursor: Cursor) -> PageView {
    let reached_eof = records.len() == 0 || end >= len;
    PageView {
        records,
        next: if reached_eof {
            None
        } else {
            Some(Cursor { offset: end as u64, line: advance_id(cursor.line, records.len()) })
        },
        reached_eof,
    }
}

/// The page of up to `n` lines that starts at `cursor`.
pub open spec fn lines_page(
    data: Seq<u8>,
    cursor: Cursor,
    n: nat,
    preview_max_chars: nat,
    raw_max_chars: nat,
) -> PageView {
    page_of(
        line_records(data, cursor.offset as int, cursor.line, n, preview_max_chars, raw_max_chars),
        lines_end(data, cursor.offset as int, n),
        data.len() as int,
        cursor,
    )
}

/// Finds where the line that starts at `pos` ends.
pub fn find_line_end(data: &[u8], pos: usize) -> (end: usize)
    requires
        pos <= data.len(),
    ensures
        end == line_end(data@, pos as int),
        pos <= end <= data.len(),
        pos < data.len() ==> pos < end,
{
    let mut p: usize = pos;
    while p < data.len()
        invariant
            pos <= p <= data.len(),
            line_end(data@, pos as int) == line_end(data@, p as int),
        decreases data.len() - p,
    {
        if data[p] == LF {
            return p + 1;
        }
        p += 1;
    }
    p
}

/// Where `data[start..end]` stops once its line terminator is left off.
pub fn trimmed_end(data: &[u8], start: usize, end: usize) -> (r: usize)
    requires
        start <= end <= data.len(),
    ensures
        start <= r <= end,
        data@.subrange(start as int, r as int) == without_terminator(
            data@.subrange(start as int, end as int),
        ),
{
    let ghost whole = data@.subrange(start as int, end as int);
    if end > start && data[end - 1] == LF {
        if end - start > 1 && data[end - 2] == CR {
            assert(data@.subrange(start as int, end - 2) =~= whole.take(whole.len() - 2));
            end - 2
        } else {
            assert(data@.subrange(start as int, end - 1) =~= whole.take(whole.len() - 1));
            end - 1
        }
    } else {
        end
    }
}

/// The limit of [`collect_limit`], held at the largest value.
fn collect_limit_bytes(preview_max_chars: usize, raw_max_chars: usize) -> (r: usize)
    ensures
        r == collect_limit(preview_max_chars as nat, raw_max_chars as nat) || (r == usize::MAX
            && collect_limit(preview_max_chars as nat, raw_max_chars as nat) > usize::MAX),
{
    let most = if raw_max_chars > preview_max_chars {
        raw_max_chars
    } else if preview_max_chars > 1 {
        preview_max_chars
    } else {
        1
    };
    if most >= (usize::MAX - 64) / 4 {
        usize::MAX
    } else {
        (most + 1) * 4 + 64
    }
}

fn make_line_record(
    data: &[u8],
    start: usize,
    end: usize,
    id: u64,
    preview_max_chars: usize,
    raw_max_chars: usize,
) -> (r: Record)
    requires
        start <= end <= data.len(),
    ensures
        r@ == line_record(
            data@,
            start as int,
            end as int,
            id,
            preview_max_chars as nat,
            raw_max_chars as nat,
        ),
{
    let limit = collect_limit_bytes(preview_max_chars, raw_max_chars);
    let shown_end = if end - start > limit {
        start + limit
    } else {
        end
    };
    let cut = shown_end < end;
    let text_end = trimmed_end(data, start, shown_end);
    let text = utf8_lossy(slice_subrange(data, start, text_end));
    let preview = truncate_chars_force_ellipsis(text.as_str(), preview_max_chars, cut);
    let raw = if raw_max_chars == 0 {
        None
    } else {
        Some(truncate_chars_force_ellipsis(text.as_str(), raw_max_chars, cut))
    };
    Record {
        id,
        preview,
        raw,
        meta: Some(
            RecordMeta { line_no: id, byte_offset: start as u64, byte_len: (end - start) as u64 },
        ),
    }
}

/// Reads the page of up to `page_size` lines that starts at `cursor`.
pub fn read_lines_page(
    data: &[u8],
    cursor: Cursor,
    page_size: usize,
    preview_max_chars: usize,
    raw_max_chars: usize,
) -> (r: Result<(LinesPageInternal, Option<Cursor>), CoreError>)
    ensures
        match r {
            Ok((page, next)) => cursor.offset <= data.len() && page_view(page, next) == lines_page(
                data@,
                cursor,
                page_size as nat,
                preview_max_chars as nat,
                raw_max_chars as nat,
            ),
            Err(e) => cursor.offset > data.len() && e is BadCursor,
        },
        r matches Ok((page, next)) ==> ids_match_meta(records_view(page.records@))
            && ids_count_from(records_view(page.records@), cursor.line) && records_adjacent(
            records_view(page.records@),
        ) && page_consistent(page_view(page, next)) && page.records@.len() <= page_size,
{
    proof {
        if cursor.offset <= data.len() {
            lemma_line_records_props(
                data@,
                cursor.offset as int,
                cursor.line,
                page_size as nat,
                preview_max_chars as nat,
                raw_max_chars as nat,
            );
        }
    }
    if cursor.offset > data.len() as u64 {
        return Err(
            CoreError::BadCursor(
                message_with_numbers(
                    "offset ",
                    cursor.offset,
                    " beyond file len ",
                    data.len() as u64,
                ),
            ),
        );
    }
    let ghost pm = preview_max_chars as nat;
    let ghost rm = raw_max_chars as nat;
    let start = cursor.offset as usize;
    let mut records: Vec<Record> = Vec::new();
    let mut cur: usize = start;
    let mut id: u64 = cursor.line;
    let mut i: usize = 0;
    let ghost whole = line_records(data@, start as int, cursor.line, page_size as nat, pm, rm);
    proof {
        assert(Seq::<RecordView>::empty() + whole =~= whole);
    }
    while i < page_size && cur < data.len()
        invariant
            i <= page_size,
            start <= cur <= data.len(),
            pm == preview_max_chars as nat,
            rm == raw_max_chars as nat,
            records@.len() == i,
            id == advance_id(cursor.line, i as nat),
            whole == records_view(records@) + line_records(
                data@,
                cur as int,
                id,
                (page_size - i) as nat,
                pm,
                rm,
            ),
            lines_end(data@, start as int, page_size as nat) == lines_end(
                data@,
                cur as int,
                (page_size - i) as nat,
            ),
        decreases page_size - i,
    {
        let ghost done = records_view(records@);
        let end = find_line_end(data, cur);
        let record = make_line_record(data, cur, end, id, preview_max_chars, raw_max_chars);
        let ghost rv = record@;
        records.push(record);
        proof {
            assert(records_view(records@) =~= done + seq![rv]);
        }
        cur = end;
        id = if id < u64::MAX {
            id + 1
        } else {
            id
        };
        i += 1;
        proof {
            let rest = line_records(data@, cur as int, id, (page_size - i) as nat, pm, rm);
            assert((done + seq![rv]) + rest =~= done + (seq![rv] + rest));
        }
    }
    proof {
        assert(records_view(records@) + Seq::<RecordView>::empty() =~= records_view(records@));
    }
    let reached_eof = records.len() == 0 || cur >= data.len();
    let next = if reached_eof {
        None
    } else {
        Some(Cursor { offset: cur as u64, line: id })
    };
    Ok((LinesPageInternal { records, reached_eof }, next))
}

/// In a run of line records every record carries its own id in its place,
/// the first record starts at `pos`, and each starts where the one before
/// it ends.
pub proof fn lemma_line_records_props(
    data: Seq<u8>,
    pos: int,
    id: u64,
    n: nat,
    preview_max_chars: nat,
    raw_max_chars: nat,
)
    requires
        0 <= pos <= data.len() <= u64::MAX,
    ensures
        ids_match_meta(line_records(data, pos, id, n, preview_max_chars, raw_max_chars)),
        ids_count_from(line_records(data, pos, id, n, preview_max_chars, raw_max_chars), id),
        records_adjacent(line_records(data, pos, id, n, preview_max_chars, raw_max_chars)),
        line_records(data, pos, id, n, preview_max_chars, raw_max_chars).len() > 0 ==> line_records(
            data,
            pos,
            id,
            n,
            preview_max_chars,
            raw_max_chars,
        )[0].meta == Some(
            RecordMeta {
                line_no: id,
                byte_offset: pos as u64,
                byte_len: (line_end(data, pos) - pos) as u64,
            },
        ),
        pos <= lines_end(data, pos, n) <= data.len(),
        line_records(data, pos, id, n, preview_max_chars, raw_max_chars).len() <= n,
        (line_records(data, pos, id, n, preview_max_chars, raw_max_chars).len() == 0) == (n == 0
            || pos >= data.len()),
    decreases n,
{
    let records = line_records(data, pos, id, n, preview_max_chars, raw_max_chars);
    if n == 0 || pos >= data.len() {
    } else {
        let end = line_end(data, pos);
        lemma_line_end_bounds(data, pos);
        let first = line_record(data, pos, end, id, preview_max_chars, raw_max_chars);
        let rest = line_records(
            data,
            end,
            next_index(id),
            (n - 1) as nat,
            preview_max_chars,
            raw_max_chars,
        );
        lemma_line_records_props(
            data,
            end,
            next_index(id),
            (n - 1) as nat,
            preview_max_chars,
            raw_max_chars,
        );
        assert(records =~= seq![first] + rest);
        assert(records[0] == first);
        assert forall|i: int| 1 <= i < records.len() implies records[i] == rest[i - 1] by {}
        assert forall|i: int| 0 <= i && i + 1 < records.len() implies (#[trigger] records[i]).meta
            is Some && records[i + 1].meta is Some && records[i + 1].meta->Some_0.byte_offset
            == records[i].meta->Some_0.byte_offset + records[i].meta->Some_0.byte_len by {
            if i == 0 {
                assert(records[1] == rest[0]);
            } else {
                assert(records[i] == rest[i - 1]);
                assert(records[i + 1] == rest[i]);
            }
        }
        assert forall|i: int| 0 <= i < records.len() && (#[trigger] records[i]).meta
            is Some implies records[i].meta->Some_0.line_no == records[i].id by {
            if i > 0 {
                assert(records[i] == rest[i - 1]);
            }
        }
        assert forall|i: int| 0 <= i < records.len() implies (#[trigger] records[i]).id
            == advance_id(id, i as nat) by {
            if i > 0 {
                assert(records[i] == rest[i - 1]);
            }
        }
    }
}

/// Every record that reading from `pos` on to the end of the file gives,
/// the first of them with id `id`.
pub open spec fn lines_all_from(
    data: Seq<u8>,
    pos: int,
    id: u64,
    preview_max_chars: nat,
    raw_max_chars: nat,
) -> Seq<RecordView>
    decreases data.len() - pos,
{
    if pos < 0 || pos >= data.len() {
        Seq::empty()
    } else {
        proof {
            lemma_line_end_bounds(data, pos);
        }
        seq![
            line_record(data, pos, line_end(data, pos), id, preview_max_chars, raw_max_chars),
        ] + lines_all_from(
            data,
            line_end(data, pos),
            next_index(id),
            preview_max_chars,
            raw_max_chars,
        )
    }
}

/// The records still to come after a page: those from its next cursor on.
pub open spec fn lines_remaining(
    data: Seq<u8>,
    next: Option<Cursor>,
    preview_max_chars: nat,
    raw_max_chars: nat,
) -> Seq<RecordView> {
    match next {
        Some(c) => lines_all_from(data, c.offset as int, c.line, preview_max_chars, raw_max_chars),
        None => Seq::empty(),
    }
}

proof fn lemma_lines_prefix(data: Seq<u8>, pos: int, id: u64, n: nat, pm: nat, rm: nat)
    requires
        0 <= pos <= data.len(),
    ensures
        lines_all_from(data, pos, id, pm, rm) == line_records(data, pos, id, n, pm, rm)
            + lines_all_from(
            data,
            lines_end(data, pos, n),
            advance_id(id, line_records(data, pos, id, n, pm, rm).len()),
            pm,
            rm,
        ),
    decreases n,
{
    let all = lines_all_from(data, pos, id, pm, rm);
    if n == 0 || pos >= data.len() {
        assert(Seq::<RecordView>::empty() + all =~= all);
    } else {
        let end = line_end(data, pos);
        lemma_line_end_bounds(data, pos);
        lemma_lines_prefix(data, end, next_index(id), (n - 1) as nat, pm, rm);
        let first = line_record(data, pos, end, id, pm, rm);
        let rest = line_records(data, end, next_index(id), (n - 1) as nat, pm, rm);
        let tail = lines_all_from(
            data,
            lines_end(data, end, (n - 1) as nat),
            advance_id(next_index(id), rest.len()),
            pm,
            rm,
        );
        assert((seq![first] + rest).len() == rest.len() + 1);
        assert(seq![first] + (rest + tail) =~= (seq![first] + rest) + tail);
    }
}

/// Paging is a sequential read in pieces: for a page of at least one line,
/// its records followed by all records from its next cursor on are exactly
/// the records that one sequential read from the page's own cursor gives.
/// Nothing is read twice and nothing is left out.
pub proof fn lemma_lines_paging_is_sequential(
    data: Seq<u8>,
    cursor: Cursor,
    n: nat,
    preview_max_chars: nat,
    raw_max_chars: nat,
)
    requires
        cursor.offset <= data.len() <= u64::MAX,
        n > 0,
    ensures
        lines_all_from(data, cursor.offset as int, cursor.line, preview_max_chars, raw_max_chars)
            == lines_page(data, cursor, n, preview_max_chars, raw_max_chars).records
            + lines_remaining(
            data,
            lines_page(data, cursor, n, preview_max_chars, raw_max_chars).next,
            preview_max_chars,
            raw_max_chars,
        ),
{
    let page = lines_page(data, cursor, n, preview_max_chars, raw_max_chars);
    lemma_lines_prefix(
        data,
        cursor.offset as int,
        cursor.line,
        n,
        preview_max_chars,
        raw_max_chars,
    );
    lemma_line_records_props(
        data,
        cursor.offset as int,
        cursor.line,
        n,
        preview_max_chars,
        raw_max_chars,
    );
    if page.next is None {
        assert(page.records + Seq::<RecordView>::empty() =~= page.records);
    }
}

} // verus!
