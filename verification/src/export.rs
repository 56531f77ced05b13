//! Export of selected records: line files as they are or as a JSON array,
//! CSV rows as JSON objects, and elements of a JSON document.

use vstd::prelude::*;
use vstd::slice::slice_subrange;
use vstd::string::StringExecFns;
use vstd::utf8::encode_utf8;
use crate::engine::CoreError;
use crate::formats::csv::{
    csv_fields, csv_headers, csv_line_to_object, csv_row_fields, lemma_csv_record_end_bounds,
    read_csv_header, read_csv_record_bytes, record_start,
};
use crate::formats::json::{
    begin_output, end_output, export_json_subtree_stream, invalid_arg, render_items,
    render_open, subtree_export_at, write_item,
};
use crate::formats::json_page::has_bom;
use crate::formats::lines::{
    find_line_end, lemma_line_end_bounds, trimmed_end, without_terminator, CR, LF,
};
use crate::formats::scan::{
    lemma_skip_ignorable_bounds, lemma_value_end_bounds, scan_value_end, skip_ignorable,
    skip_ws_and_nul, value_end, StopBytes, COMMA, LBRACKET, RBRACKET,
};
use crate::json_text::json_object_text;
use crate::formats::parquet::{export_parquet, row_items, ParquetRow};
use crate::models::{path_view, ExportFormat, ExportRequest, FileFormat, TaskKind};
use crate::tasks::{task_index, tasks_view, TaskManager, TaskView};
use crate::tasks::record_end;
use crate::text::{lossy_text, utf8_lossy};

verus! {

/// Whether each number is smaller than the next.
pub open spec fn strictly_increasing(s: Seq<u64>) -> bool {
    forall|i: int, j: int| 0 <= i < j < s.len() ==> s[i] < s[j]
}

/// Whether `n` is one of `ids`.
pub open spec fn wanted(ids: Seq<u64>, n: nat) -> bool {
    exists|j: int| 0 <= j < ids.len() && #[trigger] ids[j] == n
}

/// The ids in increasing order, each once.
pub fn normalize_ids(ids: Vec<u64>) -> (out: Vec<u64>)
    ensures
        strictly_increasing(out@),
        forall|x: u64| out@.contains(x) <==> ids@.contains(x),
{
    sorted_ids(ids.as_slice())
}

/// The ids in increasing order, each once.
pub fn sorted_ids(ids: &[u64]) -> (out: Vec<u64>)
    ensures
        strictly_increasing(out@),
        forall|x: u64| out@.contains(x) <==> ids@.contains(x),
{
    let mut out: Vec<u64> = Vec::new();
    let mut i: usize = 0;
    while i < ids.len()
        invariant
            i <= ids.len(),
            strictly_increasing(out@),
            forall|x: u64| out@.contains(x) <==> ids@.take(i as int).contains(x),
        decreases ids.len() - i,
    {
        let id = ids[i];
        let ghost before = out@;
        let mut k: usize = 0;
        while k < out.len() && out[k] < id
            invariant
                k <= out.len(),
                out@ == before,
                forall|j: int| 0 <= j < k ==> out@[j] < id,
            decreases out.len() - k,
        {
            k += 1;
        }
        let found = k < out.len() && out[k] == id;
        if !found {
            out.insert(k, id);
            assert forall|a: int, b: int| 0 <= a < b < out@.len() implies out@[a] < out@[b] by {
                if b == k {
                    assert(out@[a] == before[a]);
                } else if a == k {
                    assert(out@[b] == before[b - 1]);
                } else if b < k {
                    assert(out@[a] == before[a] && out@[b] == before[b]);
                } else if a < k {
                    assert(out@[a] == before[a] && out@[b] == before[b - 1]);
                } else {
                    assert(out@[a] == before[a - 1] && out@[b] == before[b - 1]);
                }
            }
        }
        proof {
            let seen = ids@.take(i as int);
            let more = ids@.take(i + 1);
            assert(more =~= seen.push(id));
            assert forall|x: u64| out@.contains(x) <==> more.contains(x) by {
                if out@.contains(x) {
                    let j = choose|j: int| 0 <= j < out@.len() && out@[j] == x;
                    if found {
                        assert(before.contains(x));
                        assert(seen.contains(x));
                        let m = choose|m: int| 0 <= m < seen.len() && seen[m] == x;
                        assert(more[m] == x);
                    } else if j == k {
                        assert(more[i as int] == x);
                    } else {
                        let jj = if j < k {
                            j
                        } else {
                            j - 1
                        };
                        assert(before[jj] == x);
                        assert(before.contains(x));
                        assert(seen.contains(x));
                        let m = choose|m: int| 0 <= m < seen.len() && seen[m] == x;
                        assert(more[m] == x);
                    }
                }
                if more.contains(x) {
                    let m = choose|m: int| 0 <= m < more.len() && more[m] == x;
                    if m == i {
                        assert(out@[k as int] == x);
                    } else {
                        assert(seen[m] == x);
                        assert(seen.contains(x));
                        assert(before.contains(x));
                        let j = choose|j: int| 0 <= j < before.len() && before[j] == x;
                        if found || j < k {
                            assert(out@[j] == x);
                        } else {
                            assert(out@[j + 1] == x);
                        }
                    }
                }
            }
        }
        i += 1;
    }
    assert(ids@.take(ids.len() as int) =~= ids@);
    out
}

/// A record chosen for export: its number and where it lies.
#[derive(Debug, Clone, Copy, PartialEq, Eq, Structural)]
pub struct Span {
    pub id: u64,
    pub start: usize,
    pub end: usize,
}

/// Whether every span lies within data of length `len`.
pub open spec fn spans_within(spans: Seq<Span>, len: int) -> bool {
    forall|i: int| 0 <= i < spans.len() ==> (#[trigger] spans[i]).start <= spans[i].end <= len
}

/// The records from `pos` on whose number, counted from `n`, is one of
/// `ids`, in file order.
pub open spec fn selected_records(data: Seq<u8>, pos: int, n: nat, ids: Seq<u64>, csv: bool) -> Seq<
    Span,
>
    decreases data.len() - pos,
{
    if pos < 0 || pos >= data.len() {
        Seq::empty()
    } else {
        let end = record_end(data, pos, csv);
        proof {
            lemma_line_end_bounds(data, pos);
            lemma_csv_record_end_bounds(data, pos, record_start());
        }
        (if wanted(ids, n) {
            seq![Span { id: n as u64, start: pos as usize, end: end as usize }]
        } else {
            Seq::empty()
        }) + selected_records(data, end, n + 1, ids, csv)
    }
}

/// The elements from `pos` on whose index, counted from `n`, is one of
/// `ids`, in file order. Stray commas are passed over; `]` or the end of
/// the data ends the elements.
pub open spec fn selected_values(data: Seq<u8>, pos: int, n: nat, ids: Seq<u64>) -> Seq<Span>
    decreases data.len() - pos,
{
    let p = skip_ignorable(data, pos);
    if pos < 0 || p >= data.len() || data[p] == RBRACKET {
        Seq::empty()
    } else if data[p] == COMMA {
        proof {
            lemma_skip_ignorable_bounds(data, pos);
        }
        selected_values(data, p + 1, n, ids)
    } else {
        let end = value_end(data, p, StopBytes::InArray);
        let here = if wanted(ids, n) {
            seq![Span { id: n as u64, start: p as usize, end: end as usize }]
        } else {
            Seq::empty()
        };
        let q = skip_ignorable(data, end);
        if q >= data.len() || data[q] == RBRACKET {
            here
        } else {
            proof {
                lemma_skip_ignorable_bounds(data, pos);
                lemma_value_end_bounds(data, p, StopBytes::InArray);
                lemma_skip_ignorable_bounds(data, end);
            }
            here + selected_values(
                data,
                if data[q] == COMMA {
                    q + 1
                } else {
                    q
                },
                n + 1,
                ids,
            )
        }
    }
}

proof fn lemma_none_selected(data: Seq<u8>, pos: int, n: nat, ids: Seq<u64>, csv: bool)
    requires
        forall|j: int| 0 <= j < ids.len() ==> ids[j] < n,
    ensures
        selected_records(data, pos, n, ids, csv) == Seq::<Span>::empty(),
    decreases data.len() - pos,
{
    if 0 <= pos < data.len() {
        lemma_line_end_bounds(data, pos);
        lemma_csv_record_end_bounds(data, pos, record_start());
        lemma_none_selected(data, record_end(data, pos, csv), n + 1, ids, csv);
        assert(!wanted(ids, n));
        assert(Seq::<Span>::empty() + Seq::<Span>::empty() =~= Seq::<Span>::empty());
    }
}

proof fn lemma_no_value_selected(data: Seq<u8>, pos: int, n: nat, ids: Seq<u64>)
    requires
        forall|j: int| 0 <= j < ids.len() ==> ids[j] < n,
    ensures
        selected_values(data, pos, n, ids) == Seq::<Span>::empty(),
    decreases data.len() - pos,
{
    let p = skip_ignorable(data, pos);
    if pos < 0 || p >= data.len() || data[p] == RBRACKET {
    } else if data[p] == COMMA {
        lemma_skip_ignorable_bounds(data, pos);
        lemma_no_value_selected(data, p + 1, n, ids);
    } else {
        let end = value_end(data, p, StopBytes::InArray);
        let q = skip_ignorable(data, end);
        assert(!wanted(ids, n));
        if q >= data.len() || data[q] == RBRACKET {
        } else {
            lemma_skip_ignorable_bounds(data, pos);
            lemma_value_end_bounds(data, p, StopBytes::InArray);
            lemma_skip_ignorable_bounds(data, end);
            lemma_no_value_selected(
                data,
                if data[q] == COMMA {
                    q + 1
                } else {
                    q
                },
                n + 1,
                ids,
            );
            assert(Seq::<Span>::empty() + Seq::<Span>::empty() =~= Seq::<Span>::empty());
        }
    }
}

/// Finds the records of a line file or CSV file that `ids` name.
pub fn select_records(data: &[u8], ids: &[u64], csv: bool) -> (out: Vec<Span>)
    requires
        strictly_increasing(ids@),
    ensures
        out@ == selected_records(data@, 0, 0, ids@, csv),
        spans_within(out@, data.len() as int),
        out@.len() <= ids@.len(),
{
    let mut out: Vec<Span> = Vec::new();
    let mut pos: usize = 0;
    let mut n: u64 = 0;
    let mut w: usize = 0;
    let ghost goal = selected_records(data@, 0, 0, ids@, csv);
    assert(out@ + goal =~= goal);
    while pos < data.len() && w < ids.len()
        invariant
            pos <= data.len(),
            n <= pos,
            w <= ids.len(),
            out@.len() <= w,
            strictly_increasing(ids@),
            forall|j: int| 0 <= j < w ==> ids@[j] < n,
            forall|j: int| w <= j < ids@.len() ==> ids@[j] >= n,
            spans_within(out@, data.len() as int),
            goal == out@ + selected_records(data@, pos as int, n as nat, ids@, csv),
        decreases data.len() - pos,
    {
        let end = if csv {
            read_csv_record_bytes(data, pos).0
        } else {
            find_line_end(data, pos)
        };
        let ghost before = out@;
        let ghost here: Seq<Span> = if wanted(ids@, n as nat) {
            seq![Span { id: n, start: pos, end }]
        } else {
            Seq::empty()
        };
        if ids[w] == n {
            assert(wanted(ids@, n as nat));
            out.push(Span { id: n, start: pos, end });
            w += 1;
        } else {
            assert(!wanted(ids@, n as nat)) by {
                if wanted(ids@, n as nat) {
                    let j = choose|j: int| 0 <= j < ids@.len() && #[trigger] ids@[j] == n;
                    assert(j > w);
                    assert(ids@[w as int] < ids@[j]);
                }
            }
        }
        proof {
            assert(out@ =~= before + here);
            let rest = selected_records(data@, end as int, (n + 1) as nat, ids@, csv);
            assert((before + here) + rest =~= before + (here + rest));
            assert forall|j: int| w <= j < ids@.len() implies ids@[j] >= n + 1 by {
                if w > 0 && ids@[w - 1] == n {
                    assert(ids@[w - 1] < ids@[j]);
                }
            }
        }
        pos = end;
        n = n + 1;
    }
    proof {
        if pos < data.len() {
            lemma_none_selected(data@, pos as int, n as nat, ids@, csv);
        }
        assert(out@ + Seq::<Span>::empty() =~= out@);
    }
    out
}

/// Finds the elements that `ids` name among those that start at `pos`.
pub fn select_values(data: &[u8], pos: usize, ids: &[u64]) -> (out: Vec<Span>)
    requires
        pos <= data.len(),
        strictly_increasing(ids@),
    ensures
        out@ == selected_values(data@, pos as int, 0, ids@),
        spans_within(out@, data.len() as int),
        out@.len() <= ids@.len(),
{
    let mut out: Vec<Span> = Vec::new();
    let mut cur: usize = pos;
    let mut n: u64 = 0;
    let mut w: usize = 0;
    let ghost goal = selected_values(data@, pos as int, 0, ids@);
    assert(out@ + goal =~= goal);
    while w < ids.len()
        invariant
            pos <= cur <= data.len(),
            n <= cur - pos,
            w <= ids.len(),
            out@.len() <= w,
            strictly_increasing(ids@),
            forall|j: int| 0 <= j < w ==> ids@[j] < n,
            forall|j: int| w <= j < ids@.len() ==> ids@[j] >= n,
            spans_within(out@, data.len() as int),
            goal == selected_values(data@, pos as int, 0, ids@),
            goal == out@ + selected_values(data@, cur as int, n as nat, ids@),
        decreases data.len() - cur,
    {
        let p = skip_ws_and_nul(data, cur);
        if p >= data.len() || data[p] == RBRACKET {
            assert(out@ + Seq::<Span>::empty() =~= out@);
            return out;
        }
        if data[p] == COMMA {
            cur = p + 1;
            continue ;
        }
        let end = scan_value_end(data, p, StopBytes::InArray);
        proof {
            lemma_value_end_bounds(data@, p as int, StopBytes::InArray);
        }
        let ghost before = out@;
        let ghost here: Seq<Span> = if wanted(ids@, n as nat) {
            seq![Span { id: n, start: p, end }]
        } else {
            Seq::empty()
        };
        if ids[w] == n {
            assert(wanted(ids@, n as nat));
            out.push(Span { id: n, start: p, end });
            w += 1;
        } else {
            assert(!wanted(ids@, n as nat)) by {
                if wanted(ids@, n as nat) {
                    let j = choose|j: int| 0 <= j < ids@.len() && #[trigger] ids@[j] == n;
                    assert(j > w);
                    assert(ids@[w as int] < ids@[j]);
                }
            }
        }
        assert(out@ =~= before + here);
        let q = skip_ws_and_nul(data, end);
        if q >= data.len() || data[q] == RBRACKET {
            return out;
        }
        let next = if data[q] == COMMA {
            q + 1
        } else {
            q
        };
        proof {
            let rest = selected_values(data@, next as int, (n + 1) as nat, ids@);
            assert((before + here) + rest =~= before + (here + rest));
            assert forall|j: int| w <= j < ids@.len() implies ids@[j] >= n + 1 by {
                if w > 0 && ids@[w - 1] == n {
                    assert(ids@[w - 1] < ids@[j]);
                }
            }
        }
        cur = next;
        n = n + 1;
    }
    proof {
        lemma_no_value_selected(data@, cur as int, n as nat, ids@);
        assert(out@ + Seq::<Span>::empty() =~= out@);
    }
    out
}

/// `b` without its line ending: a line feed, a carriage return, or a
/// carriage return and a line feed.
pub open spec fn line_content(b: Seq<u8>) -> Seq<u8> {
    let t = if b.len() > 0 && b.last() == LF {
        b.drop_last()
    } else {
        b
    };
    if t.len() > 0 && t.last() == CR {
        t.drop_last()
    } else {
        t
    }
}

/// `b` ending in exactly one line feed.
pub open spec fn normalized_ending(b: Seq<u8>) -> Seq<u8> {
    line_content(b).push(LF)
}

/// Export keeps the bytes of a record: what is written is the record up to
/// its line ending, followed by a single line feed.
pub proof fn lemma_export_keeps_bytes(b: Seq<u8>)
    ensures
        normalized_ending(b) == line_content(b).push(LF),
        line_content(b).len() <= b.len() <= line_content(b).len() + 2,
        line_content(b) == b.take(line_content(b).len() as int),
        forall|i: int| line_content(b).len() <= i < b.len() ==> b[i] == CR || b[i] == LF,
{
    let t = if b.len() > 0 && b.last() == LF {
        b.drop_last()
    } else {
        b
    };
    assert(t =~= b.take(t.len() as int));
    assert(line_content(b) =~= b.take(line_content(b).len() as int));
}

/// Makes `buf` end in exactly one line feed, without a carriage return
/// before it.
pub fn normalize_line_ending(buf: &mut Vec<u8>)
    ensures
        final(buf)@ == normalized_ending(old(buf)@),
{
    let n = buf.len();
    if n > 0 && buf[n - 1] == LF {
        if n > 1 && buf[n - 2] == CR {
            buf.remove(n - 2);
            assert(buf@ =~= normalized_ending(old(buf)@));
        } else {
            assert(buf@ =~= normalized_ending(old(buf)@));
        }
    } else if n > 0 && buf[n - 1] == CR {
        buf.pop();
        buf.push(LF);
        assert(buf@ =~= normalized_ending(old(buf)@));
    } else {
        buf.push(LF);
        assert(buf@ =~= normalized_ending(old(buf)@));
    }
}

/// The bytes of a chosen record.
pub open spec fn span_bytes(data: Seq<u8>, s: Span) -> Seq<u8> {
    data.subrange(s.start as int, s.end as int)
}

/// The chosen records one after the other, each ending in one line feed.
pub open spec fn normalized_text(data: Seq<u8>, spans: Seq<Span>) -> Seq<u8>
    decreases spans.len(),
{
    if spans.len() == 0 {
        Seq::empty()
    } else {
        normalized_text(data, spans.drop_last()) + normalized_ending(
            span_bytes(data, spans.last()),
        )
    }
}

/// The chosen records without their line terminators.
pub open spec fn trimmed_items(data: Seq<u8>, spans: Seq<Span>) -> Seq<Seq<u8>> {
    spans.map_values(|s: Span| without_terminator(span_bytes(data, s)))
}

/// The chosen values as they stand.
pub open spec fn value_items(data: Seq<u8>, spans: Seq<Span>) -> Seq<Seq<u8>> {
    spans.map_values(|s: Span| span_bytes(data, s))
}

/// The JSON object of the CSV row in `s`, as bytes.
pub open spec fn csv_item(data: Seq<u8>, s: Span, headers: Seq<Seq<char>>) -> Option<Seq<u8>> {
    match json_object_text(
        csv_row_fields(
            headers,
            csv_fields(lossy_text(without_terminator(span_bytes(data, s)))),
        ),
    ) {
        Some(t) => Some(encode_utf8(t)),
        None => None,
    }
}

/// The JSON objects of the chosen CSV rows; the header row, record 0, is
/// left out. `None` should the serializer fail on a row.
pub open spec fn csv_items(data: Seq<u8>, spans: Seq<Span>, headers: Seq<Seq<char>>) -> Option<
    Seq<Seq<u8>>,
>
    decreases spans.len(),
{
    if spans.len() == 0 {
        Some(Seq::empty())
    } else {
        match csv_items(data, spans.drop_last(), headers) {
            None => None,
            Some(front) => if spans.last().id == 0 {
                Some(front)
            } else {
                match csv_item(data, spans.last(), headers) {
                    Some(item) => Some(front.push(item)),
                    None => None,
                }
            },
        }
    }
}

/// Writes the records that `ids` name as they are, each ending in one line
/// feed, and returns how many were written.
pub fn export_lines_passthrough(data: &[u8], ids: &[u64], csv: bool, writer: &mut Vec<u8>) -> (n:
    u64)
    requires
        strictly_increasing(ids@),
    ensures
        final(writer)@ == old(writer)@ + normalized_text(
            data@,
            selected_records(data@, 0, 0, ids@, csv),
        ),
        n == selected_records(data@, 0, 0, ids@, csv).len(),
{
    let spans = select_records(data, ids, csv);
    let mut i: usize = 0;
    assert(spans@.take(0) =~= Seq::empty());
    assert(writer@ + Seq::<u8>::empty() =~= writer@);
    while i < spans.len()
        invariant
            i <= spans.len(),
            spans_within(spans@, data.len() as int),
            writer@ == old(writer)@ + normalized_text(data@, spans@.take(i as int)),
        decreases spans.len() - i,
    {
        let s = spans[i];
        let mut buf: Vec<u8> = Vec::new();
        buf.extend_from_slice(slice_subrange(data, s.start, s.end));
        assert(buf@ =~= span_bytes(data@, s));
        normalize_line_ending(&mut buf);
        let ghost before = writer@;
        writer.extend_from_slice(buf.as_slice());
        proof {
            assert(spans@.take(i + 1).drop_last() =~= spans@.take(i as int));
            assert(spans@.take(i + 1).last() == s);
            let front = normalized_text(data@, spans@.take(i as int));
            assert((old(writer)@ + front) + buf@ =~= old(writer)@ + (front + buf@));
        }
        i += 1;
    }
    assert(spans@.take(spans.len() as int) =~= spans@);
    spans.len() as u64
}

/// Writes the records that `ids` name as a JSON array, one record per line,
/// and returns how many were written.
pub fn export_jsonl_to_json_array(data: &[u8], ids: &[u64], writer: &mut Vec<u8>) -> (n: u64)
    requires
        strictly_increasing(ids@),
    ensures
        final(writer)@ == old(writer)@ + render_items(
            trimmed_items(data@, selected_records(data@, 0, 0, ids@, false)),
            ExportFormat::Json,
        ),
        n == selected_records(data@, 0, 0, ids@, false).len(),
{
    let spans = select_records(data, ids, false);
    let mut out: Vec<u8> = Vec::new();
    begin_output(&mut out, ExportFormat::Json);
    let mut i: usize = 0;
    assert(trimmed_items(data@, spans@.take(0)) =~= Seq::empty());
    while i < spans.len()
        invariant
            i <= spans.len(),
            spans_within(spans@, data.len() as int),
            out@ == render_open(trimmed_items(data@, spans@.take(i as int)), ExportFormat::Json),
        decreases spans.len() - i,
    {
        let s = spans[i];
        let end = trimmed_end(data, s.start, s.end);
        let ghost done = trimmed_items(data@, spans@.take(i as int));
        write_item(&mut out, slice_subrange(data, s.start, end), ExportFormat::Json, Ghost(done));
        assert(trimmed_items(data@, spans@.take(i + 1)) =~= done.push(
            without_terminator(span_bytes(data@, s)),
        ));
        i += 1;
    }
    assert(spans@.take(spans.len() as int) =~= spans@);
    end_output(&mut out, ExportFormat::Json, Ghost(trimmed_items(data@, spans@)));
    writer.extend_from_slice(out.as_slice());
    spans.len() as u64
}

/// Writes the CSV rows that `ids` name as JSON objects keyed by the column
/// names, one per line or as a JSON array, and returns how many were
/// written. The header row is never written. On an error nothing is
/// appended.
pub fn export_csv_rows(data: &[u8], ids: &[u64], out_format: ExportFormat, writer: &mut Vec<u8>) -> (r:
    Result<u64, CoreError>)
    requires
        strictly_increasing(ids@),
        out_format != ExportFormat::Csv,
    ensures
        match r {
            Ok(n) => csv_items(
                data@,
                selected_records(data@, 0, 0, ids@, true),
                csv_headers(data@),
            ) matches Some(items) && n == items.len() && final(writer)@ == old(writer)@
                + render_items(items, out_format),
            Err(e) => csv_items(
                data@,
                selected_records(data@, 0, 0, ids@, true),
                csv_headers(data@),
            ) is None && e is InvalidArg && final(writer)@ == old(writer)@,
        },
{
    let headers = read_csv_header(data);
    let ghost hv = csv_headers(data@);
    let spans = select_records(data, ids, true);
    let mut out: Vec<u8> = Vec::new();
    begin_output(&mut out, out_format);
    let mut written: u64 = 0;
    let mut i: usize = 0;
    let ghost mut done: Seq<Seq<u8>> = Seq::empty();
    assert(spans@.take(0) =~= Seq::empty());
    while i < spans.len()
        invariant
            i <= spans.len(),
            written <= i,
            out_format != ExportFormat::Csv,
            spans_within(spans@, data.len() as int),
            hv == crate::json_text::strings_view(headers@),
            csv_items(data@, spans@.take(i as int), hv) == Some(done),
            written == done.len(),
            out@ == render_open(done, out_format),
            writer@ == old(writer)@,
            spans@ == selected_records(data@, 0, 0, ids@, true),
            hv == csv_headers(data@),
        decreases spans.len() - i,
    {
        let s = spans[i];
        proof {
            assert(spans@.take(i + 1).drop_last() =~= spans@.take(i as int));
            assert(spans@.take(i + 1).last() == s);
        }
        if s.id != 0 {
            let end = trimmed_end(data, s.start, s.end);
            let line = utf8_lossy(slice_subrange(data, s.start, end));
            match csv_line_to_object(&headers, line.as_str()) {
                Some(text) => {
                    write_item(&mut out, text.as_str().as_bytes(), out_format, Ghost(done));
                    proof {
                        done = done.push(encode_utf8(text@));
                    }
                    written += 1;
                },
                None => {
                    proof {
                        lemma_csv_items_fail(data@, spans@, i as int, hv);
                    }
                    return Err(invalid_arg("csv row cannot be written as json"));
                },
            }
        }
        i += 1;
    }
    assert(spans@.take(spans.len() as int) =~= spans@);
    end_output(&mut out, out_format, Ghost(done));
    writer.extend_from_slice(out.as_slice());
    Ok(written)
}

/// Once a row fails, the whole export fails.
proof fn lemma_csv_items_fail(data: Seq<u8>, spans: Seq<Span>, i: int, headers: Seq<Seq<char>>)
    requires
        0 <= i < spans.len(),
        csv_items(data, spans.take(i + 1), headers) is None,
    ensures
        csv_items(data, spans, headers) is None,
    decreases spans.len(),
{
    if i + 1 < spans.len() {
        assert(spans.drop_last().take(i + 1) =~= spans.take(i + 1));
        lemma_csv_items_fail(data, spans.drop_last(), i, headers);
    } else {
        assert(spans.take(i + 1) =~= spans);
    }
}

/// What exporting the elements that `ids` name gives for a JSON document:
/// the bytes and the number of values. For a root array the chosen elements
/// are rendered, and an array that closes at once gives nothing at all. Any
/// other document is a single value with id 0: as JSON output it is written
/// bare.
pub open spec fn json_export(data: Seq<u8>, ids: Seq<u64>, format: ExportFormat) -> (Seq<u8>, nat) {
    let p = skip_ignorable(
        data,
        if has_bom(data) {
            3
        } else {
            0
        },
    );
    if p < data.len() && data[p] == LBRACKET {
        let inner = skip_ignorable(data, p + 1);
        if inner < data.len() && data[inner] == RBRACKET {
            (Seq::empty(), 0)
        } else {
            let items = value_items(data, selected_values(data, inner, 0, ids));
            (render_items(items, format), items.len())
        }
    } else if p < data.len() && wanted(ids, 0) {
        let value = data.subrange(p, value_end(data, p, StopBytes::InArray));
        if format == ExportFormat::Json {
            (value, 1)
        } else {
            (render_items(seq![value], format), 1)
        }
    } else {
        (render_items(Seq::empty(), format), 0)
    }
}

/// Writes the elements of a JSON document that `ids` name, one per line or
/// as a JSON array, and returns how many were written.
pub fn export_json_stream(data: &[u8], ids: &[u64], out_format: ExportFormat, writer: &mut Vec<u8>) -> (n:
    u64)
    requires
        strictly_increasing(ids@),
        out_format != ExportFormat::Csv,
    ensures
        final(writer)@ == old(writer)@ + json_export(data@, ids@, out_format).0,
        n == json_export(data@, ids@, out_format).1,
{
    let bom = data.len() >= 3 && data[0] == 0xEF && data[1] == 0xBB && data[2] == 0xBF;
    let p = skip_ws_and_nul(
        data,
        if bom {
            3
        } else {
            0
        },
    );
    let mut out: Vec<u8> = Vec::new();
    if p < data.len() && data[p] == LBRACKET {
        let inner = skip_ws_and_nul(data, p + 1);
        if inner < data.len() && data[inner] == RBRACKET {
            assert(writer@ + Seq::<u8>::empty() =~= writer@);
            return 0;
        }
        let spans = select_values(data, inner, ids);
        begin_output(&mut out, out_format);
        let mut i: usize = 0;
        assert(value_items(data@, spans@.take(0)) =~= Seq::empty());
        while i < spans.len()
            invariant
                i <= spans.len(),
                out_format != ExportFormat::Csv,
                spans_within(spans@, data.len() as int),
                out@ == render_open(value_items(data@, spans@.take(i as int)), out_format),
            decreases spans.len() - i,
        {
            let s = spans[i];
            let ghost done = value_items(data@, spans@.take(i as int));
            write_item(&mut out, slice_subrange(data, s.start, s.end), out_format, Ghost(done));
            assert(value_items(data@, spans@.take(i + 1)) =~= done.push(span_bytes(data@, s)));
            i += 1;
        }
        assert(spans@.take(spans.len() as int) =~= spans@);
        end_output(&mut out, out_format, Ghost(value_items(data@, spans@)));
        writer.extend_from_slice(out.as_slice());
        return spans.len() as u64;
    }
    let chosen = ids.len() > 0 && ids[0] == 0;
    proof {
        if wanted(ids@, 0) {
            let j = choose|j: int| 0 <= j < ids@.len() && #[trigger] ids@[j] == 0;
            if j > 0 {
                assert(ids@[0] < ids@[j]);
            }
        }
    }
    if p < data.len() && chosen {
        let end = scan_value_end(data, p, StopBytes::InArray);
        if matches!(out_format, ExportFormat::Json) {
            writer.extend_from_slice(slice_subrange(data, p, end));
        } else {
            begin_output(&mut out, out_format);
            write_item(&mut out, slice_subrange(data, p, end), out_format, Ghost(Seq::empty()));
            let ghost one = seq![data@.subrange(p as int, end as int)];
            assert(Seq::<Seq<u8>>::empty().push(data@.subrange(p as int, end as int)) =~= one);
            end_output(&mut out, out_format, Ghost(one));
            writer.extend_from_slice(out.as_slice());
        }
        1
    } else {
        begin_output(&mut out, out_format);
        end_output(&mut out, out_format, Ghost(Seq::empty()));
        writer.extend_from_slice(out.as_slice());
        0
    }
}

/// Whether two lists of ids hold the same ids.
pub open spec fn same_members(a: Seq<u64>, b: Seq<u64>) -> bool {
    forall|x: u64| a.contains(x) <==> b.contains(x)
}

proof fn lemma_wanted_same(a: Seq<u64>, b: Seq<u64>, n: nat)
    requires
        same_members(a, b),
    ensures
        wanted(a, n) == wanted(b, n),
{
    if wanted(a, n) {
        let j = choose|j: int| 0 <= j < a.len() && #[trigger] a[j] == n;
        assert(a.contains(a[j]));
        assert(b.contains(a[j]));
        let k = choose|k: int| 0 <= k < b.len() && b[k] == a[j];
        assert(b[k] == n);
    }
    if wanted(b, n) {
        let j = choose|j: int| 0 <= j < b.len() && #[trigger] b[j] == n;
        assert(b.contains(b[j]));
        assert(a.contains(b[j]));
        let k = choose|k: int| 0 <= k < a.len() && a[k] == b[j];
        assert(a[k] == n);
    }
}

/// Which records are chosen depends only on which ids are named, not on
/// their order or on how often each is named.
pub proof fn lemma_selected_records_same(
    data: Seq<u8>,
    pos: int,
    n: nat,
    a: Seq<u64>,
    b: Seq<u64>,
    csv: bool,
)
    requires
        same_members(a, b),
    ensures
        selected_records(data, pos, n, a, csv) == selected_records(data, pos, n, b, csv),
    decreases data.len() - pos,
{
    if 0 <= pos < data.len() {
        lemma_line_end_bounds(data, pos);
        lemma_csv_record_end_bounds(data, pos, record_start());
        lemma_wanted_same(a, b, n);
        lemma_selected_records_same(data, record_end(data, pos, csv), n + 1, a, b, csv);
    }
}

/// Which elements are chosen depends only on which ids are named.
pub proof fn lemma_selected_values_same(data: Seq<u8>, pos: int, n: nat, a: Seq<u64>, b: Seq<u64>)
    requires
        same_members(a, b),
    ensures
        selected_values(data, pos, n, a) == selected_values(data, pos, n, b),
    decreases data.len() - pos,
{
    let p = skip_ignorable(data, pos);
    if pos < 0 || p >= data.len() || data[p] == RBRACKET {
    } else if data[p] == COMMA {
        lemma_skip_ignorable_bounds(data, pos);
        lemma_selected_values_same(data, p + 1, n, a, b);
    } else {
        let end = value_end(data, p, StopBytes::InArray);
        let q = skip_ignorable(data, end);
        lemma_wanted_same(a, b, n);
        if q >= data.len() || data[q] == RBRACKET {
        } else {
            lemma_skip_ignorable_bounds(data, pos);
            lemma_value_end_bounds(data, p, StopBytes::InArray);
            lemma_skip_ignorable_bounds(data, end);
            lemma_selected_values_same(
                data,
                if data[q] == COMMA {
                    q + 1
                } else {
                    q
                },
                n + 1,
                a,
                b,
            );
        }
    }
}

/// What exporting the records that `ids` name gives, for a file of format
/// `session_format` written as `out_format`: the bytes and the number of
/// records. No ids give nothing. `rows` are the rows of a columnar file
/// that the row source found for the ids. `None` for a pair of formats
/// that has no export, and where the serializer fails on a row.
pub open spec fn selection_outcome(
    data: Seq<u8>,
    rows: Seq<ParquetRow>,
    session_format: FileFormat,
    ids: Seq<u64>,
    out_format: ExportFormat,
) -> Option<(Seq<u8>, nat)> {
    if ids.len() == 0 {
        Some((Seq::empty(), 0nat))
    } else {
        match (session_format, out_format) {
            (FileFormat::Jsonl, ExportFormat::Jsonl) | (FileFormat::Jsonl, ExportFormat::Csv) => {
                let spans = selected_records(data, 0, 0, ids, false);
                Some((normalized_text(data, spans), spans.len()))
            },
            (FileFormat::Csv, ExportFormat::Csv) => {
                let spans = selected_records(data, 0, 0, ids, true);
                Some((normalized_text(data, spans), spans.len()))
            },
            (FileFormat::Jsonl, ExportFormat::Json) => {
                let spans = selected_records(data, 0, 0, ids, false);
                Some((render_items(trimmed_items(data, spans), ExportFormat::Json), spans.len()))
            },
            (FileFormat::Csv, _) => match csv_items(
                data,
                selected_records(data, 0, 0, ids, true),
                csv_headers(data),
            ) {
                Some(items) => Some((render_items(items, out_format), items.len())),
                None => None,
            },
            (FileFormat::Json, ExportFormat::Jsonl) | (FileFormat::Json, ExportFormat::Json) => Some(
                json_export(data, ids, out_format),
            ),
            (FileFormat::Parquet, ExportFormat::Jsonl) | (
                FileFormat::Parquet,
                ExportFormat::Json,
            ) => match row_items(rows, rows.len()) {
                Some(items) => Some((render_items(items, out_format), items.len())),
                None => None,
            },
            _ => None,
        }
    }
}

/// Whether records of a file of format `session_format` can be exported as
/// `out_format`.
pub open spec fn has_export(session_format: FileFormat, out_format: ExportFormat) -> bool {
    match (session_format, out_format) {
        (FileFormat::Jsonl, _) => true,
        (FileFormat::Csv, _) => true,
        (FileFormat::Json, ExportFormat::Jsonl) | (FileFormat::Json, ExportFormat::Json) => true,
        (FileFormat::Parquet, ExportFormat::Jsonl) | (FileFormat::Parquet, ExportFormat::Json) => true,
        _ => false,
    }
}

/// The record ids of the hits of a task.
pub open spec fn hit_ids(t: TaskView) -> Seq<u64> {
    Seq::new(t.hits.len(), |i: int| t.hits[i].line_no)
}

/// The ids that an export request names: its own, or those of the hits of
/// its search task. `None` for a request that names a subtree, an unknown
/// task, or a task that is no search.
pub open spec fn requested_ids(tasks: Seq<TaskView>, request: ExportRequest) -> Option<Seq<u64>> {
    match request {
        ExportRequest::Selection { record_ids } => Some(record_ids@),
        ExportRequest::SearchTask { task_id } => match task_index(tasks, task_id@, 0) {
            Some(i) => if tasks[i].kind == TaskKind::SearchScanAll {
                Some(hit_ids(tasks[i]))
            } else {
                None
            },
            None => None,
        },
        ExportRequest::JsonSubtree { .. } => None,
    }
}

/// What an export gives: the bytes and the number of records written.
pub open spec fn export_outcome(
    tasks: Seq<TaskView>,
    data: Seq<u8>,
    rows: Seq<ParquetRow>,
    session_format: FileFormat,
    request: ExportRequest,
    out_format: ExportFormat,
) -> Option<(Seq<u8>, nat)> {
    match request {
        ExportRequest::JsonSubtree { meta, path, include_root, children } => if session_format
            != FileFormat::Json {
            None
        } else {
            subtree_export_at(
                data,
                meta.byte_offset,
                path_view(path@),
                include_root,
                path_view(children@),
                out_format,
            )
        },
        _ => match requested_ids(tasks, request) {
            Some(ids) => selection_outcome(data, rows, session_format, ids, out_format),
            None => None,
        },
    }
}

/// The ids that an export request names, in increasing order and each
/// once; none for a request that names a subtree.
pub fn export_ids(tasks: &TaskManager, request: &ExportRequest) -> (r: Result<Vec<u64>, CoreError>)
    ensures
        match r {
            Ok(ids) => strictly_increasing(ids@) && (match requested_ids(
                tasks_view(tasks.tasks@),
                *request,
            ) {
                Some(named) => same_members(ids@, named),
                None => *request is JsonSubtree && ids@.len() == 0,
            }),
            Err(e) => requested_ids(tasks_view(tasks.tasks@), *request) is None && e is Task,
        },
{
    match request {
        ExportRequest::Selection { record_ids } => Ok(sorted_ids(record_ids.as_slice())),
        ExportRequest::SearchTask { task_id } => match tasks.get_search_task_hit_ids(
            task_id.as_str(),
        ) {
            Ok(ids) => {
                let out = sorted_ids(ids.as_slice());
                proof {
                    let i = task_index(tasks_view(tasks.tasks@), task_id@, 0)->Some_0;
                    let named = hit_ids(tasks_view(tasks.tasks@)[i]);
                    assert(ids@ =~= named);
                }
                Ok(out)
            },
            Err(msg) => Err(CoreError::Task(msg)),
        },
        ExportRequest::JsonSubtree { .. } => Ok(Vec::new()),
    }
}

/// Exports what `request` names from a file of format `session_format`,
/// written as `out_format`, and appends the output to `writer`. Returns how
/// many records were written. On an error nothing is appended.
pub fn export(
    tasks: &TaskManager,
    data: &[u8],
    rows: &Vec<ParquetRow>,
    session_format: FileFormat,
    request: &ExportRequest,
    out_format: ExportFormat,
    writer: &mut Vec<u8>,
) -> (r: Result<u64, CoreError>)
    ensures
        match r {
            Ok(n) => export_outcome(
                tasks_view(tasks.tasks@),
                data@,
                rows@,
                session_format,
                *request,
                out_format,
            ) matches Some((bytes, count)) && n == count && final(writer)@ == old(writer)@
                + bytes,
            Err(e) => export_outcome(
                tasks_view(tasks.tasks@),
                data@,
                rows@,
                session_format,
                *request,
                out_format,
            ) is None && final(writer)@ == old(writer)@,
        },
        r matches Err(e) ==> (match *request {
            ExportRequest::JsonSubtree { .. } => if session_format != FileFormat::Json {
                e == CoreError::UnsupportedFormat(session_format)
            } else {
                e is InvalidArg
            },
            _ => if requested_ids(tasks_view(tasks.tasks@), *request) is None {
                e is Task
            } else if has_export(session_format, out_format) {
                e is InvalidArg
            } else {
                e == CoreError::UnsupportedFormat(session_format)
            },
        }),
{
    if let ExportRequest::JsonSubtree { meta, path, include_root, children } = request {
        if !matches!(session_format, FileFormat::Json) {
            return Err(CoreError::UnsupportedFormat(session_format));
        }
        return export_json_subtree_stream(
            data,
            meta.byte_offset,
            path.as_slice(),
            *include_root,
            children.as_slice(),
            out_format,
            writer,
        );
    }
    let ids = export_ids(tasks, request)?;
    let ghost named = requested_ids(tasks_view(tasks.tasks@), *request)->Some_0;
    proof {
        lemma_selected_records_same(data@, 0, 0, ids@, named, false);
        lemma_selected_records_same(data@, 0, 0, ids@, named, true);
        if ids@.len() > 0 {
            assert(ids@.contains(ids@[0]));
        }
        if named.len() > 0 {
            assert(named.contains(named[0]));
        }
    }
    if ids.len() == 0 {
        assert(writer@ + Seq::<u8>::empty() =~= writer@);
        return Ok(0);
    }
    match (session_format, out_format) {
        (FileFormat::Jsonl, ExportFormat::Jsonl) | (FileFormat::Jsonl, ExportFormat::Csv) => Ok(
            export_lines_passthrough(data, ids.as_slice(), false, writer),
        ),
        (FileFormat::Csv, ExportFormat::Csv) => Ok(
            export_lines_passthrough(data, ids.as_slice(), true, writer),
        ),
        (FileFormat::Jsonl, ExportFormat::Json) => Ok(
            export_jsonl_to_json_array(data, ids.as_slice(), writer),
        ),
        (FileFormat::Csv, _) => export_csv_rows(data, ids.as_slice(), out_format, writer),
        (FileFormat::Json, ExportFormat::Jsonl) | (FileFormat::Json, ExportFormat::Json) => {
            proof {
                lemma_json_export_same(data@, ids@, named, out_format);
            }
            Ok(export_json_stream(data, ids.as_slice(), out_format, writer))
        },
        (FileFormat::Parquet, ExportFormat::Jsonl) | (FileFormat::Parquet, ExportFormat::Json) => {
            export_parquet(rows, out_format, writer)
        },
        _ => Err(CoreError::UnsupportedFormat(session_format)),
    }
}

proof fn lemma_json_export_same(data: Seq<u8>, a: Seq<u64>, b: Seq<u64>, format: ExportFormat)
    requires
        same_members(a, b),
    ensures
        json_export(data, a, format) == json_export(data, b, format),
{
    let p = skip_ignorable(
        data,
        if has_bom(data) {
            3
        } else {
            0
        },
    );
    lemma_wanted_same(a, b, 0);
    if p < data.len() && data[p] == LBRACKET {
        lemma_selected_values_same(data, skip_ignorable(data, p + 1), 0, a, b);
    }
}

} // verus!
