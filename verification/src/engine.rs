//! Errors and options of the engine.

use vstd::prelude::*;
use vstd::slice::slice_subrange;
use vstd::string::StringExecFns;
use crate::cursor::{
    cursor_of_token, cursor_token, decode_cursor, encode_cursor, option_text, zero_cursor, Cursor,
};
use crate::export::{export, export_outcome};
use crate::formats::csv::{csv_page, read_csv_page};
use crate::formats::detect::{
    detect_format, is_plain_name, names_format, names_supported, plain_format,
};
use crate::formats::json::{invalid_arg, invalid_arg_numbers};
use crate::formats::json_page::{
    json_page, json_value_text, read_json_page, read_json_page_with_progress,
    read_json_value_at_offset,
};
use crate::formats::json_tree::{
    children_at_offset, children_by_path, json_node_summary, json_node_summary_at_offset,
    list_json_children_page, list_json_children_page_at_offset, summary_at_offset,
    summary_by_path,
};
use crate::formats::lines::{lines_page, read_lines_page};
use crate::formats::page::{ids_count_from, ids_match_meta, PageView};
use crate::formats::parquet::{
    parquet_page, read_parquet_page, read_parquet_row_raw, row_json, window_fits,
    ParquetRow,
};
use crate::models::{
    path_view, records_view, text_opt_view, ExportFormat, ExportRequest, ExportResult,
    FileFormat, JsonChildrenPage, JsonChildrenPageOffset, JsonNodeSummary,
    JsonNodeSummaryOffset, JsonPathSegment, RecordMeta, RecordPage, RecordPageView, SearchMode,
    SearchQuery, SearchResult, SessionInfo, StatsResult, Task, TaskInfo, TaskKind,
};
use crate::search_match::{page_hits, search_current_page};
use crate::storage::StorageOptions;
use crate::tasks::{
    new_task_id, now_ms, task_index, tasks_view, TaskManager, TaskManagerOptions,
};
use crate::text::{lossy_text, utf8_lossy};

verus! {

/// `std::io::Error`, carried through untouched.
#[verifier::external_type_specification]
#[verifier::external_body]
pub struct ExIoError(std::io::Error);

#[derive(Debug)]
pub enum CoreError {
    Io(std::io::Error),
    UnsupportedFormat(FileFormat),
    UnknownSession(String),
    BadCursor(String),
    InvalidArg(String),
    Storage(String),
    Task(String),
}

#[derive(Debug, Clone)]
pub struct CoreOptions {
    pub default_page_size: usize,
    pub preview_max_chars: usize,
    pub raw_max_chars: usize,
    pub max_concurrent_tasks: usize,
    pub storage: StorageOptions,
}

impl Default for CoreOptions {
    fn default() -> (o: Self)
        ensures
            o.default_page_size == 10,
            o.preview_max_chars == 300,
            o.raw_max_chars == 40_000,
            o.max_concurrent_tasks == 2,
            o.storage.sqlite_path is None,
    {
        CoreOptions {
            default_page_size: 10,
            preview_max_chars: 300,
            raw_max_chars: 40_000,
            max_concurrent_tasks: 2,
            storage: StorageOptions { sqlite_path: None },
        }
    }
}

/// Renders a `std::io::Error` through its `Display` impl.
#[verifier::external_body]
pub(crate) fn io_error_text(e: &std::io::Error) -> (s: String) {
    e.to_string()
}

/// The name of a file format.
pub open spec fn format_name(format: FileFormat) -> Seq<char> {
    match format {
        FileFormat::Jsonl => "Jsonl"@,
        FileFormat::Csv => "Csv"@,
        FileFormat::Json => "Json"@,
        FileFormat::Parquet => "Parquet"@,
        FileFormat::Unknown => "Unknown"@,
    }
}

impl CoreError {
    /// What the message of this error starts with: its kind.
    pub open spec fn kind_text(&self) -> Seq<char> {
        match self {
            CoreError::Io(_) => "io error: "@,
            CoreError::UnsupportedFormat(_) => "unsupported format: "@,
            CoreError::UnknownSession(_) => "unknown session: "@,
            CoreError::BadCursor(_) => "bad cursor token: "@,
            CoreError::InvalidArg(_) => "invalid argument: "@,
            CoreError::Storage(_) => "storage error: "@,
            CoreError::Task(_) => "task error: "@,
        }
    }

    /// The message of this error: its kind, then its detail.
    pub fn message(&self) -> (s: String)
        ensures
            s@.len() >= self.kind_text().len(),
            s@.subrange(0, self.kind_text().len() as int) == self.kind_text(),
            match self {
                CoreError::Io(_) => true,
                CoreError::UnsupportedFormat(f) => s@ == self.kind_text() + format_name(*f),
                CoreError::UnknownSession(d) => s@ == self.kind_text() + d@,
                CoreError::BadCursor(d) => s@ == self.kind_text() + d@,
                CoreError::InvalidArg(d) => s@ == self.kind_text() + d@,
                CoreError::Storage(d) => s@ == self.kind_text() + d@,
                CoreError::Task(d) => s@ == self.kind_text() + d@,
            },
    {
        let (mut out, detail): (String, String) = match self {
            CoreError::Io(e) => (String::from_str("io error: "), io_error_text(e)),
            CoreError::UnsupportedFormat(f) => (
                String::from_str("unsupported format: "),
                String::from_str(
                    match f {
                        FileFormat::Jsonl => "Jsonl",
                        FileFormat::Csv => "Csv",
                        FileFormat::Json => "Json",
                        FileFormat::Parquet => "Parquet",
                        FileFormat::Unknown => "Unknown",
                    },
                ),
            ),
            CoreError::UnknownSession(d) => (String::from_str("unknown session: "), d.clone()),
            CoreError::BadCursor(d) => (String::from_str("bad cursor token: "), d.clone()),
            CoreError::InvalidArg(d) => (String::from_str("invalid argument: "), d.clone()),
            CoreError::Storage(d) => (String::from_str("storage error: "), d.clone()),
            CoreError::Task(d) => (String::from_str("task error: "), d.clone()),
        };
        let ghost head = out@;
        out.append(detail.as_str());
        assert(out@.subrange(0, head.len() as int) =~= head);
        out
    }
}

/// A session: an opened file, and the page that was last read from it.
#[derive(Debug)]
pub struct SessionState {
    pub info: SessionInfo,
    pub format: FileFormat,
    pub last_page: Option<RecordPage>,
}

/// The engine: its options, its sessions and its tasks.
#[derive(Debug)]
pub struct CoreEngine {
    pub options: CoreOptions,
    pub sessions: Vec<SessionState>,
    pub tasks: TaskManager,
}

/// The most bytes of a record that is read whole.
pub const MAX_RECORD_BYTES: u64 = 52_428_800;

/// The index of the first of `sessions` whose id is `id`, looking from
/// index `from` on.
pub open spec fn session_index(sessions: Seq<SessionState>, id: Seq<char>, from: int) -> Option<int>
    decreases sessions.len() - from,
{
    if from < 0 || from >= sessions.len() {
        None
    } else if sessions[from].info.session_id@ == id {
        Some(from)
    } else {
        session_index(sessions, id, from + 1)
    }
}

/// A page with its next cursor as a token.
pub open spec fn with_token(page: PageView) -> RecordPageView {
    RecordPageView {
        records: page.records,
        next_cursor: match page.next {
            Some(c) => Some(cursor_token(c)),
            None => None,
        },
        reached_eof: page.reached_eof,
    }
}

/// The page of `page_size` records at `cursor` of a file of the given
/// format, held as bytes or, for a columnar file, as the rows that the row
/// source gave for the page. `None` for a cursor beyond the data, a window
/// that the row source cannot take, and an unknown format.
pub open spec fn file_page(
    data: Seq<u8>,
    rows: Seq<ParquetRow>,
    format: FileFormat,
    cursor: Cursor,
    page_size: nat,
    options: CoreOptions,
) -> Option<PageView> {
    let pm = options.preview_max_chars as nat;
    let rm = options.raw_max_chars as nat;
    match format {
        FileFormat::Jsonl => if cursor.offset > data.len() {
            None
        } else {
            Some(lines_page(data, cursor, page_size, pm, rm))
        },
        FileFormat::Csv => if cursor.offset > data.len() {
            None
        } else {
            Some(csv_page(data, cursor, page_size, pm))
        },
        FileFormat::Json => if cursor.offset > data.len() {
            None
        } else {
            Some(json_page(data, cursor, page_size, pm, rm).page)
        },
        FileFormat::Parquet => if window_fits(cursor, page_size) {
            Some(parquet_page(rows, cursor, page_size, pm, rm))
        } else {
            None
        },
        FileFormat::Unknown => None,
    }
}

/// The page size that is used for a request: the default for 0.
pub open spec fn page_size_or_default(page_size: usize, options: CoreOptions) -> nat {
    if page_size == 0 {
        options.default_page_size as nat
    } else {
        page_size as nat
    }
}

/// The page that a request for `page_size` records at the cursor `token`
/// gives. `None` for a token that is no cursor, and where [`file_page`]
/// gives none.
pub open spec fn page_for(
    data: Seq<u8>,
    rows: Seq<ParquetRow>,
    format: FileFormat,
    token: Option<Seq<char>>,
    page_size: usize,
    options: CoreOptions,
) -> Option<RecordPageView> {
    match cursor_of_token(token) {
        None => None,
        Some(cursor) => match file_page(
            data,
            rows,
            format,
            cursor,
            page_size_or_default(page_size, options),
            options,
        ) {
            Some(page) => Some(with_token(page)),
            None => None,
        },
    }
}

/// Whether two session infos say the same.
pub open spec fn same_info(a: SessionInfo, b: SessionInfo) -> bool {
    &&& a.session_id@ == b.session_id@
    &&& a.path@ == b.path@
    &&& a.format == b.format
    &&& a.created_at_ms == b.created_at_ms
}

/// Whether no two sessions share an id.
pub open spec fn distinct_session_ids(sessions: Seq<SessionState>) -> bool {
    forall|i: int, j: int|
        0 <= i < j < sessions.len() ==> sessions[i].info.session_id@
            != sessions[j].info.session_id@
}

/// Where a session under `id` is put into `sessions`, as into a map keyed
/// by id: the place of the session that has the id, or behind the last.
pub open spec fn session_place(sessions: Seq<SessionState>, id: Seq<char>) -> int {
    match session_index(sessions, id, 0) {
        Some(i) => i,
        None => sessions.len() as int,
    }
}

/// Whether `after` is `before` with a session put into it that says
/// `info`, has the format of `info` and keeps `page` as its last page.
/// Every other session stays as it is.
pub open spec fn session_put(
    before: Seq<SessionState>,
    after: Seq<SessionState>,
    info: SessionInfo,
    page: RecordPageView,
) -> bool {
    let k = session_place(before, info.session_id@);
    &&& after.len() == (if k < before.len() {
        before.len()
    } else {
        before.len() + 1
    })
    &&& forall|j: int| 0 <= j < before.len() && j != k ==> after[j] == before[j]
    &&& same_info(after[k].info, info)
    &&& after[k].format == info.format
    &&& after[k].last_page is Some
    &&& after[k].last_page->Some_0@ == page
}

/// Where no session is found, no session from `from` on has the id.
pub proof fn lemma_session_index_none(sessions: Seq<SessionState>, id: Seq<char>, from: int)
    requires
        0 <= from,
        session_index(sessions, id, from) is None,
    ensures
        forall|j: int|
            from <= j < sessions.len() ==> (#[trigger] sessions[j]).info.session_id@ != id,
    decreases sessions.len() - from,
{
    if from < sessions.len() {
        lemma_session_index_none(sessions, id, from + 1);
    }
}

/// A session that is found has the id that was looked for.
pub proof fn lemma_session_index(sessions: Seq<SessionState>, id: Seq<char>, from: int)
    requires
        0 <= from,
    ensures
        session_index(sessions, id, from) matches Some(i) ==> from <= i < sessions.len()
            && sessions[i].info.session_id@ == id,
    decreases sessions.len() - from,
{
    if from < sessions.len() && sessions[from].info.session_id@ != id {
        lemma_session_index(sessions, id, from + 1);
    }
}

/// Whether `page` is the page `wanted`: the same records and the same end,
/// and a next cursor exactly where `wanted` has one.
pub open spec fn is_page(page: RecordPage, wanted: Option<RecordPageView>) -> bool {
    &&& wanted is Some
    &&& page@.records == wanted->Some_0.records
    &&& page@.reached_eof == wanted->Some_0.reached_eof
    &&& page@.next_cursor == wanted->Some_0.next_cursor
}

/// `b` without the line feeds, carriage returns and NUL bytes at its end.
pub open spec fn without_filler(b: Seq<u8>) -> Seq<u8>
    decreases b.len(),
{
    if b.len() > 0 && (b.last() == 0x0A || b.last() == 0x0D || b.last() == 0) {
        without_filler(b.drop_last())
    } else {
        b
    }
}

/// The whole text of the record at `meta` in a line file. `None` for a
/// record that is too long or does not lie within the data.
pub open spec fn line_record_text(data: Seq<u8>, meta: RecordMeta) -> Option<Seq<char>> {
    if meta.byte_len > MAX_RECORD_BYTES || meta.byte_offset > data.len() || meta.byte_offset
        + meta.byte_len > data.len() {
        None
    } else {
        Some(
            lossy_text(
                without_filler(
                    data.subrange(meta.byte_offset as int, meta.byte_offset + meta.byte_len),
                ),
            ),
        )
    }
}

/// The most characters of a cell's text when a row is read whole.
pub const FULL_RAW_MAX_CHARS: usize = 100_000_000;

/// The whole text of the record at `meta` in a file of the given format;
/// `row` is what the row source gave for the row `meta.line_no`.
pub open spec fn record_text_of(
    data: Seq<u8>,
    row: Option<&ParquetRow>,
    format: FileFormat,
    meta: RecordMeta,
) -> Option<Seq<char>> {
    match format {
        FileFormat::Unknown => None,
        FileFormat::Json => json_value_text(data, meta.byte_offset, MAX_RECORD_BYTES),
        FileFormat::Parquet => match row {
            Some(found) => if meta.line_no <= i64::MAX {
                row_json(*found, FULL_RAW_MAX_CHARS as nat)
            } else {
                None
            },
            None => None,
        },
        _ => line_record_text(data, meta),
    }
}

/// The share of `done` in `total`, in percent, at most 100; `None` where
/// `total` is 0.
pub open spec fn open_percent(done: u64, total: u64) -> Option<u8> {
    if total == 0 {
        None
    } else if done * 100 / (total as int) >= 100 {
        Some(100u8)
    } else {
        Some((done * 100 / (total as int)) as u8)
    }
}

/// Whether the first page of a file of the given format can be read. The
/// first page of a line file, a CSV file or a JSON document always can; the
/// first page of a columnar file can unless the default page size is more
/// rows than the row source can be asked for; a file of unknown format has
/// no pages.
pub open spec fn first_page_readable(format: FileFormat, options: CoreOptions) -> bool {
    match format {
        FileFormat::Unknown => false,
        FileFormat::Parquet => window_fits(zero_cursor(), options.default_page_size as nat),
        _ => true,
    }
}

/// The first page of a file is the page that a request without a cursor
/// and without a page size gives, and there is one exactly where the first
/// page can be read.
pub proof fn lemma_first_page(
    data: Seq<u8>,
    rows: Seq<ParquetRow>,
    format: FileFormat,
    options: CoreOptions,
)
    ensures
        page_for(data, rows, format, None, options.default_page_size, options) is Some
            <==> first_page_readable(format, options),
{
}

/// The progress that opening a file of the given format reports, when the
/// first page of a JSON document is read up to the offset that its pager
/// tells.
pub open spec fn first_page_progress(data: Seq<u8>, format: FileFormat, options: CoreOptions) -> Seq<
    u8,
> {
    open_progress(
        format,
        json_page(
            data,
            zero_cursor(),
            options.default_page_size as nat,
            options.preview_max_chars as nat,
            options.raw_max_chars as nat,
        ).end,
        data.len() as int,
    )
}

/// The progress that opening a file reports: 0, then for a JSON document
/// of which `done` of `total` bytes were read the share in percent (unless
/// it is 0 or the file is empty), then 100.
pub open spec fn open_progress(format: FileFormat, done: int, total: int) -> Seq<u8> {
    if format == FileFormat::Json && 0 <= done <= u64::MAX && 0 <= total <= u64::MAX {
        match open_percent(done as u64, total as u64) {
            Some(pct) => if pct != 0 {
                seq![0u8, pct, 100u8]
            } else {
                seq![0u8, 100u8]
            },
            None => seq![0u8, 100u8],
        }
    } else {
        seq![0u8, 100u8]
    }
}

/// How far the opening of a file has got, in percent.
pub fn open_progress_pct(done: u64, total: u64) -> (r: Option<u8>)
    ensures
        r == open_percent(done, total),
{
    if total == 0 {
        return None;
    }
    let share = (done as u128) * 100 / (total as u128);
    if share >= 100 {
        Some(100)
    } else {
        Some(share as u8)
    }
}

/// Reads the page of `page_size` records (the default when 0) at the
/// cursor `token`.
pub fn read_page(
    options: &CoreOptions,
    data: &[u8],
    rows: &Vec<ParquetRow>,
    format: FileFormat,
    token: Option<&str>,
    page_size: usize,
) -> (r: Result<RecordPage, CoreError>)
    ensures
        match r {
            Ok(page) => is_page(
                page,
                page_for(data@, rows@, format, option_text(token), page_size, *options),
            ),
            Err(e) => page_for(data@, rows@, format, option_text(token), page_size, *options)
                is None,
        },
        r matches Ok(page) ==> (page.next_cursor matches Some(t) ==> cursor_of_token(Some(t@))
            is Some),
        r matches Ok(page) ==> ids_match_meta(page@.records) && (page@.next_cursor is None <==> (
        page@.reached_eof || page@.records.len() == 0)),
        r matches Ok(page) ==> cursor_of_token(option_text(token)) is Some && ids_count_from(
            page@.records,
            cursor_of_token(option_text(token))->Some_0.line,
        ) && page@.records.len() <= page_size_or_default(page_size, *options),
        r matches Err(e) ==> (if cursor_of_token(option_text(token)) is None {
            e is BadCursor
        } else if format == FileFormat::Unknown {
            e == CoreError::UnsupportedFormat(format)
        } else if format == FileFormat::Parquet {
            e is InvalidArg
        } else {
            e is BadCursor
        }),
{
    let size = if page_size == 0 {
        options.default_page_size
    } else {
        page_size
    };
    let cursor = decode_cursor(token)?;
    let (page, next) = match format {
        FileFormat::Jsonl => read_lines_page(
            data,
            cursor,
            size,
            options.preview_max_chars,
            options.raw_max_chars,
        )?,
        FileFormat::Csv => read_csv_page(
            data,
            cursor,
            size,
            options.preview_max_chars,
            options.raw_max_chars,
        )?,
        FileFormat::Json => read_json_page(
            data,
            cursor,
            size,
            options.preview_max_chars,
            options.raw_max_chars,
        )?,
        FileFormat::Parquet => read_parquet_page(
            rows,
            cursor,
            size,
            options.preview_max_chars,
            options.raw_max_chars,
        )?,
        FileFormat::Unknown => {
            return Err(CoreError::UnsupportedFormat(format));
        },
    };
    let next_cursor = match next {
        Some(c) => Some(encode_cursor(c)),
        None => None,
    };
    Ok(RecordPage { records: page.records, next_cursor, reached_eof: page.reached_eof })
}

impl CoreEngine {
    /// The task registry is well formed, and no two sessions share an id.
    pub open spec fn wf(&self) -> bool {
        &&& self.tasks.wf()
        &&& distinct_session_ids(self.sessions@)
    }

    /// An engine with no sessions and no tasks.
    pub fn new(options: CoreOptions) -> (e: CoreEngine)
        ensures
            e.wf(),
            e.options == options,
            e.sessions@.len() == 0,
            e.tasks.tasks@.len() == 0,
            e.tasks.opts.max_concurrent_tasks == options.max_concurrent_tasks,
    {
        let tasks = TaskManager::new(
            TaskManagerOptions { max_concurrent_tasks: options.max_concurrent_tasks },
        );
        CoreEngine { options, sessions: Vec::new(), tasks }
    }

    /// The index of the first session with id `session_id`.
    pub fn find_session(&self, session_id: &str) -> (r: Result<usize, CoreError>)
        ensures
            match r {
                Ok(i) => session_index(self.sessions@, session_id@, 0) == Some(i as int) && i
                    < self.sessions@.len(),
                Err(e) => session_index(self.sessions@, session_id@, 0) is None && e
                    is UnknownSession && e->UnknownSession_0@ == session_id@,
            },
    {
        let wanted = String::from_str(session_id);
        let mut i: usize = 0;
        while i < self.sessions.len()
            invariant
                i <= self.sessions.len(),
                wanted@ == session_id@,
                session_index(self.sessions@, session_id@, 0) == session_index(
                    self.sessions@,
                    session_id@,
                    i as int,
                ),
            decreases self.sessions.len() - i,
        {
            if self.sessions[i].info.session_id == wanted {
                return Ok(i);
            }
            i += 1;
        }
        Err(CoreError::UnknownSession(wanted))
    }

    /// Opens a session under `session_id` on a file of the given format,
    /// reads its first page and keeps that page as the session's last page.
    /// Sessions are keyed by id: a session that has the id already gives
    /// its place to the new one.
    /// `rows` are the rows that the row source gave for the first page of a
    /// columnar file.
    pub fn open_session(
        &mut self,
        session_id: String,
        created_at_ms: i64,
        path: &str,
        format: FileFormat,
        data: &[u8],
        rows: &Vec<ParquetRow>,
    ) -> (r: Result<(SessionInfo, RecordPage), CoreError>)
        requires
            old(self).wf(),
        ensures
            final(self).wf(),
            final(self).options == old(self).options,
            final(self).tasks == old(self).tasks,
            match r {
                Ok((info, page)) => {
                    &&& is_page(
                        page,
                        page_for(
                            data@,
                            rows@,
                            format,
                            None,
                            old(self).options.default_page_size,
                            old(self).options,
                        ),
                    )
                    &&& info.session_id@ == session_id@
                    &&& info.path@ == path@
                    &&& info.format == format
                    &&& info.created_at_ms == created_at_ms
                    &&& session_put(old(self).sessions@, final(self).sessions@, info, page@)
                },
                Err(e) => {
                    &&& final(self).sessions@ == old(self).sessions@
                    &&& page_for(
                        data@,
                        rows@,
                        format,
                        None,
                        old(self).options.default_page_size,
                        old(self).options,
                    ) is None
                    &&& if format == FileFormat::Unknown {
                        e == CoreError::UnsupportedFormat(format)
                    } else {
                        format == FileFormat::Parquet && e is InvalidArg
                    }
                },
            },
            r is Ok <==> first_page_readable(format, old(self).options),
    {
        proof {
            lemma_first_page(data@, rows@, format, self.options);
        }
        let page = read_page(
            &self.options,
            data,
            rows,
            format,
            None,
            self.options.default_page_size,
        )?;
        let info = SessionInfo {
            session_id: session_id.clone(),
            path: String::from_str(path),
            format,
            created_at_ms,
        };
        let kept = SessionInfo {
            session_id,
            path: String::from_str(path),
            format,
            created_at_ms,
        };
        let ghost before = self.sessions@;
        let fresh = SessionState { info: kept, format, last_page: Some(page.copy()) };
        proof {
            lemma_session_index(before, session_id@, 0);
        }
        match self.find_session(info.session_id.as_str()) {
            Ok(i) => {
                let slot = &mut self.sessions[i];
                *slot = fresh;
                proof {
                    let after = self.sessions@;
                    assert forall|a: int, b: int| 0 <= a < b < after.len() implies after[a].info.session_id@
                        != after[b].info.session_id@ by {
                        assert(after[a].info.session_id@ == before[a].info.session_id@);
                        assert(after[b].info.session_id@ == before[b].info.session_id@);
                    }
                }
            },
            Err(_) => {
                self.sessions.push(fresh);
                proof {
                    let after = self.sessions@;
                    lemma_session_index_none(before, session_id@, 0);
                    assert forall|a: int, b: int| 0 <= a < b < after.len() implies after[a].info.session_id@
                        != after[b].info.session_id@ by {
                        if b < before.len() {
                            assert(after[a] == before[a] && after[b] == before[b]);
                        } else {
                            assert(after[a] == before[a]);
                        }
                    }
                }
            },
        }
        Ok((info, page))
    }

    /// Opens a session as [`Self::open_session`] does, and tells what
    /// progress there is to report: 0 at the start, for a JSON document the
    /// share of the file that the first page took (unless that is 0), and
    /// 100 at the end.
    pub fn open_session_with_progress(
        &mut self,
        session_id: String,
        created_at_ms: i64,
        path: &str,
        format: FileFormat,
        data: &[u8],
        rows: &Vec<ParquetRow>,
    ) -> (r: Result<(SessionInfo, RecordPage, Vec<u8>), CoreError>)
        requires
            old(self).wf(),
        ensures
            final(self).wf(),
            final(self).options == old(self).options,
            final(self).tasks == old(self).tasks,
            match r {
                Ok((info, page, progress)) => {
                    &&& is_page(
                        page,
                        page_for(
                            data@,
                            rows@,
                            format,
                            None,
                            old(self).options.default_page_size,
                            old(self).options,
                        ),
                    )
                    &&& info.session_id@ == session_id@
                    &&& info.path@ == path@
                    &&& info.format == format
                    &&& info.created_at_ms == created_at_ms
                    &&& session_put(old(self).sessions@, final(self).sessions@, info, page@)
                    &&& progress@ == first_page_progress(data@, format, old(self).options)
                },
                Err(e) => {
                    &&& final(self).sessions@ == old(self).sessions@
                    &&& if format == FileFormat::Unknown {
                        e == CoreError::UnsupportedFormat(format)
                    } else {
                        format == FileFormat::Parquet && e is InvalidArg
                    }
                },
            },
            r is Ok <==> first_page_readable(format, old(self).options),
    {
        let (info, page) = self.open_session(session_id, created_at_ms, path, format, data, rows)?;
        let mut progress: Vec<u8> = Vec::new();
        progress.push(0);
        if matches!(format, FileFormat::Json) {
            match read_json_page_with_progress(
                data,
                Cursor { offset: 0, line: 0 },
                self.options.default_page_size,
                self.options.preview_max_chars,
                self.options.raw_max_chars,
            ) {
                Ok((_, _, done)) => match open_progress_pct(done, data.len() as u64) {
                    Some(pct) => {
                        if pct != 0 {
                            progress.push(pct);
                        }
                    },
                    None => {},
                },
                Err(_) => {},
            }
        }
        progress.push(100);
        Ok((info, page, progress))
    }

    /// Opens the file at `path`, whose content is `data` (`rows` for the
    /// first page of a columnar file), under a fresh random session id
    /// stamped with the current time. The format is the one that the
    /// platform's reading of the path gives: a path in which it finds no
    /// extension of a known format is refused as of unknown format, and so
    /// is every path that names none. For the format that is found the
    /// session is opened as [`Self::open_session`] opens it, so that the
    /// only other failure is that of a columnar file whose first page
    /// cannot be asked for. For a plain file name, one without a separator
    /// or a colon, the format is that of the text after its last dot, and
    /// the file is opened exactly where the first page of that format can
    /// be read.
    pub fn open_file(&mut self, path: &str, data: &[u8], rows: &Vec<ParquetRow>) -> (r: Result<
        (SessionInfo, RecordPage),
        CoreError,
    >)
        requires
            old(self).wf(),
        ensures
            final(self).wf(),
            final(self).options == old(self).options,
            final(self).tasks == old(self).tasks,
            match r {
                Ok((info, page)) => {
                    &&& info.format != FileFormat::Unknown
                    &&& names_format(path@, info.format)
                    &&& first_page_readable(info.format, old(self).options)
                    &&& info.path@ == path@
                    &&& is_page(
                        page,
                        page_for(
                            data@,
                            rows@,
                            info.format,
                            None,
                            old(self).options.default_page_size,
                            old(self).options,
                        ),
                    )
                    &&& session_put(old(self).sessions@, final(self).sessions@, info, page@)
                },
                Err(e) => {
                    &&& final(self).sessions@ == old(self).sessions@
                    &&& e == CoreError::UnsupportedFormat(FileFormat::Unknown) || (e is InvalidArg
                        && names_format(path@, FileFormat::Parquet) && !first_page_readable(
                        FileFormat::Parquet,
                        old(self).options,
                    ))
                },
            },
            !names_supported(path@) ==> r is Err && r->Err_0 == CoreError::UnsupportedFormat(
                FileFormat::Unknown,
            ),
            is_plain_name(path@) ==> (r is Ok <==> first_page_readable(
                plain_format(path@),
                old(self).options,
            )),
            is_plain_name(path@) && r is Ok ==> r->Ok_0.0.format == plain_format(path@),
    {
        let format = detect_format(path);
        if matches!(format, FileFormat::Unknown) {
            return Err(CoreError::UnsupportedFormat(format));
        }
        let session_id = new_task_id();
        let created_at_ms = now_ms();
        self.open_session(session_id, created_at_ms, path, format, data, rows)
    }

    /// Opens the file as [`Self::open_file`] does, and tells what progress
    /// there is to report, as [`Self::open_session_with_progress`] does for
    /// the format that is found.
    pub fn open_file_with_progress(
        &mut self,
        path: &str,
        data: &[u8],
        rows: &Vec<ParquetRow>,
    ) -> (r: Result<(SessionInfo, RecordPage, Vec<u8>), CoreError>)
        requires
            old(self).wf(),
        ensures
            final(self).wf(),
            final(self).options == old(self).options,
            final(self).tasks == old(self).tasks,
            match r {
                Ok((info, page, progress)) => {
                    &&& info.format != FileFormat::Unknown
                    &&& names_format(path@, info.format)
                    &&& first_page_readable(info.format, old(self).options)
                    &&& info.path@ == path@
                    &&& is_page(
                        page,
                        page_for(
                            data@,
                            rows@,
                            info.format,
                            None,
                            old(self).options.default_page_size,
                            old(self).options,
                        ),
                    )
                    &&& session_put(old(self).sessions@, final(self).sessions@, info, page@)
                    &&& progress@ == first_page_progress(data@, info.format, old(self).options)
                },
                Err(e) => {
                    &&& final(self).sessions@ == old(self).sessions@
                    &&& e == CoreError::UnsupportedFormat(FileFormat::Unknown) || (e is InvalidArg
                        && names_format(path@, FileFormat::Parquet) && !first_page_readable(
                        FileFormat::Parquet,
                        old(self).options,
                    ))
                },
            },
            !names_supported(path@) ==> r is Err && r->Err_0 == CoreError::UnsupportedFormat(
                FileFormat::Unknown,
            ),
            is_plain_name(path@) ==> (r is Ok <==> first_page_readable(
                plain_format(path@),
                old(self).options,
            )),
            is_plain_name(path@) && r is Ok ==> r->Ok_0.0.format == plain_format(path@),
    {
        let format = detect_format(path);
        if matches!(format, FileFormat::Unknown) {
            return Err(CoreError::UnsupportedFormat(format));
        }
        let session_id = new_task_id();
        let created_at_ms = now_ms();
        self.open_session_with_progress(session_id, created_at_ms, path, format, data, rows)
    }

    /// Reads the page at the cursor `cursor` of the session's file and
    /// keeps it as the session's last page.
    pub fn next_page(
        &mut self,
        session_id: &str,
        data: &[u8],
        rows: &Vec<ParquetRow>,
        cursor: Option<&str>,
        page_size: usize,
    ) -> (r: Result<RecordPage, CoreError>)
        requires
            old(self).wf(),
        ensures
            final(self).wf(),
            final(self).options == old(self).options,
            final(self).tasks == old(self).tasks,
            final(self).sessions@.len() == old(self).sessions@.len(),
            match session_index(old(self).sessions@, session_id@, 0) {
                None => {
                    &&& r matches Err(e) && e is UnknownSession
                    &&& final(self).sessions@ == old(self).sessions@
                },
                Some(i) => match r {
                    Ok(page) => {
                        &&& is_page(
                            page,
                            page_for(
                                data@,
                                rows@,
                                old(self).sessions@[i].format,
                                option_text(cursor),
                                page_size,
                                old(self).options,
                            ),
                        )
                        &&& final(self).sessions@[i].last_page is Some
                        &&& final(self).sessions@[i].last_page->Some_0@ == page@
                        &&& final(self).sessions@[i].info == old(self).sessions@[i].info
                        &&& final(self).sessions@[i].format == old(self).sessions@[i].format
                        &&& forall|j: int|
                            0 <= j < old(self).sessions@.len() && j != i
                                ==> final(self).sessions@[j] == old(self).sessions@[j]
                    },
                    Err(e) => page_for(
                        data@,
                        rows@,
                        old(self).sessions@[i].format,
                        option_text(cursor),
                        page_size,
                        old(self).options,
                    ) is None && final(self).sessions@ == old(self).sessions@,
                },
            },
    {
        let i = self.find_session(session_id)?;
        let format = self.sessions[i].format;
        let page = read_page(&self.options, data, rows, format, cursor, page_size)?;
        let kept = page.copy();
        let ghost before = self.sessions@;
        let session = &mut self.sessions[i];
        session.last_page = Some(kept);
        proof {
            let after = self.sessions@;
            assert forall|a: int, b: int| 0 <= a < b < after.len() implies after[a].info.session_id@
                != after[b].info.session_id@ by {
                assert(after[a].info.session_id@ == before[a].info.session_id@);
                assert(after[b].info.session_id@ == before[b].info.session_id@);
            }
        }
        Ok(page)
    }

    /// Searches the session's last page, or starts a scan of the whole
    /// file. Indexed search is not available.
    pub fn search(&mut self, session_id: &str, query: SearchQuery) -> (r: Result<
        SearchResult,
        CoreError,
    >)
        requires
            old(self).wf(),
        ensures
            final(self).wf(),
            final(self).options == old(self).options,
            final(self).sessions == old(self).sessions,
            match session_index(old(self).sessions@, session_id@, 0) {
                None => {
                    &&& r matches Err(e) && e is UnknownSession
                    &&& final(self).tasks == old(self).tasks
                },
                Some(i) => match query.mode {
                    SearchMode::CurrentPage => {
                        &&& final(self).tasks == old(self).tasks
                        &&& match old(self).sessions@[i].last_page {
                            Some(page) => {
                                &&& r is Ok
                                &&& r->Ok_0.mode == SearchMode::CurrentPage
                                &&& r->Ok_0.task is None
                                &&& !r->Ok_0.truncated
                                &&& records_view(r->Ok_0.hits@) == page_hits(
                                    page@.records,
                                    query.text@,
                                    query.case_sensitive,
                                )
                            },
                            None => r matches Err(e) && e is InvalidArg,
                        }
                    },
                    SearchMode::ScanAll => match r {
                        Ok(found) => {
                            &&& found.mode == SearchMode::ScanAll
                            &&& found.hits@.len() == 0
                            &&& !found.truncated
                            &&& found.task is Some
                            &&& found.task->Some_0.kind == TaskKind::SearchScanAll
                            &&& found.task->Some_0.cancellable
                            &&& crate::tasks::started_in(
                                tasks_view(old(self).tasks.tasks@),
                                tasks_view(final(self).tasks.tasks@),
                                found.task->Some_0.id@,
                            )
                            &&& final(self).tasks.running == crate::tasks::running_with_new(
                                tasks_view(old(self).tasks.tasks@),
                                found.task->Some_0.id@,
                                old(self).tasks.running as int,
                            )
                            &&& old(self).sessions@[i].format != FileFormat::Unknown
                            &&& query.text@.len() > 0
                            &&& old(self).tasks.running < old(self).tasks.opts.max_concurrent_tasks
                        },
                        Err(e) => {
                            &&& final(self).tasks.tasks@ == old(self).tasks.tasks@
                            &&& final(self).tasks.running == old(self).tasks.running
                            &&& if old(self).sessions@[i].format == FileFormat::Unknown {
                                e == CoreError::UnsupportedFormat(FileFormat::Unknown)
                            } else if query.text@.len() == 0 {
                                e is InvalidArg
                            } else {
                                e is Task && old(self).tasks.running
                                    >= old(self).tasks.opts.max_concurrent_tasks
                            }
                        },
                    },
                    SearchMode::Indexed => {
                        &&& r matches Err(e) && e is InvalidArg
                        &&& final(self).tasks == old(self).tasks
                    },
                },
            },
    {
        let i = self.find_session(session_id)?;
        match query.mode {
            SearchMode::CurrentPage => match &self.sessions[i].last_page {
                Some(page) => Ok(search_current_page(page, &query)),
                None => Err(invalid_arg("no page cached")),
            },
            SearchMode::ScanAll => {
                let format = self.sessions[i].format;
                let started = self.tasks.start_search_scan_all(format, &query)?;
                Ok(
                    SearchResult {
                        mode: SearchMode::ScanAll,
                        hits: Vec::new(),
                        task: Some(
                            TaskInfo {
                                id: started.id,
                                kind: TaskKind::SearchScanAll,
                                cancellable: true,
                            },
                        ),
                        truncated: false,
                    },
                )
            },
            SearchMode::Indexed => Err(invalid_arg("indexed search not implemented")),
        }
    }

    /// A snapshot of the task with id `task_id`.
    pub fn get_task(&self, task_id: &str) -> (r: Result<Task, CoreError>)
        ensures
            match r {
                Ok(t) => task_index(tasks_view(self.tasks.tasks@), task_id@, 0) matches Some(i)
                    && crate::tasks::is_snapshot(t, tasks_view(self.tasks.tasks@)[i]),
                Err(e) => task_index(tasks_view(self.tasks.tasks@), task_id@, 0) is None && e
                    is Task,
            },
            self.wf() && r is Ok ==> (if r->Ok_0.finished {
                r->Ok_0.progress_0_100 == 100
            } else {
                r->Ok_0.progress_0_100 <= 99
            }),
    {
        match self.tasks.get_task(task_id) {
            Ok(t) => Ok(t),
            Err(msg) => Err(CoreError::Task(msg)),
        }
    }

    /// Asks the task with id `task_id` to stop.
    pub fn cancel_task(&mut self, task_id: &str) -> (r: Result<(), CoreError>)
        requires
            old(self).wf(),
        ensures
            final(self).wf(),
            final(self).options == old(self).options,
            final(self).sessions == old(self).sessions,
            final(self).tasks.running == old(self).tasks.running,
            match task_index(tasks_view(old(self).tasks.tasks@), task_id@, 0) {
                Some(i) => if tasks_view(old(self).tasks.tasks@)[i].cancellable {
                    r is Ok && tasks_view(final(self).tasks.tasks@) == tasks_view(
                        old(self).tasks.tasks@,
                    ).update(
                        i,
                        crate::tasks::cancelled_task(tasks_view(old(self).tasks.tasks@)[i]),
                    )
                } else {
                    r matches Err(e) && e is Task && final(self).tasks.tasks@ == old(self).tasks.tasks@
                },
                None => {
                    &&& r matches Err(e) && e is Task
                    &&& final(self).tasks.tasks@ == old(self).tasks.tasks@
                },
            },
    {
        match self.tasks.cancel_task(task_id) {
            Ok(()) => Ok(()),
            Err(msg) => Err(CoreError::Task(msg)),
        }
    }

    /// A page of the hits that a search task has gathered.
    pub fn search_task_hits_page(&self, task_id: &str, cursor: Option<&str>, page_size: usize) -> (r:
        Result<RecordPage, CoreError>)
        ensures
            match r {
                Ok(page) => task_index(tasks_view(self.tasks.tasks@), task_id@, 0) matches Some(
                    i,
                ) && crate::cursor::index_of_token(option_text(cursor)) matches Some(idx)
                    && records_view(page.records@) == crate::tasks::hit_records(
                    tasks_view(self.tasks.tasks@)[i].hits,
                    idx as int,
                    if page_size == 0 {
                        50
                    } else {
                        page_size as int
                    },
                ) && page.records@.len() <= tasks_view(self.tasks.tasks@)[i].hits.len()
                    && tasks_view(self.tasks.tasks@)[i].kind == TaskKind::SearchScanAll,
                Err(e) => e is Task && (match task_index(
                    tasks_view(self.tasks.tasks@),
                    task_id@,
                    0,
                ) {
                    Some(i) => tasks_view(self.tasks.tasks@)[i].kind != TaskKind::SearchScanAll
                        || crate::cursor::index_of_token(option_text(cursor)) is None,
                    None => true,
                }),
            },
    {
        match self.tasks.search_task_hits_page(task_id, cursor, page_size) {
            Ok(page) => Ok(page),
            Err(msg) => Err(CoreError::Task(msg)),
        }
    }

    /// Exports what `request` names from the session's file and appends
    /// the output to `writer`; `output_path` is where the caller will put
    /// it.
    pub fn export(
        &self,
        session_id: &str,
        data: &[u8],
        rows: &Vec<ParquetRow>,
        request: &ExportRequest,
        format: ExportFormat,
        output_path: &str,
        writer: &mut Vec<u8>,
    ) -> (r: Result<ExportResult, CoreError>)
        ensures
            match session_index(self.sessions@, session_id@, 0) {
                None => r matches Err(e) && e is UnknownSession && final(writer)@ == old(writer)@,
                Some(i) => match r {
                    Ok(done) => export_outcome(
                        tasks_view(self.tasks.tasks@),
                        data@,
                        rows@,
                        self.sessions@[i].format,
                        *request,
                        format,
                    ) matches Some((bytes, count)) && done.records_written == count
                        && done.output_path@ == output_path@ && final(writer)@ == old(writer)@
                        + bytes,
                    Err(e) => export_outcome(
                        tasks_view(self.tasks.tasks@),
                        data@,
                        rows@,
                        self.sessions@[i].format,
                        *request,
                        format,
                    ) is None && final(writer)@ == old(writer)@,
                },
            },
    {
        let i = self.find_session(session_id)?;
        let written = export(
            &self.tasks,
            data,
            rows,
            self.sessions[i].format,
            request,
            format,
            writer,
        )?;
        Ok(ExportResult { output_path: String::from_str(output_path), records_written: written })
    }

    /// Lists direct children of a subtree of a JSON record, by path and
    /// ordinal; 50 at a time when `limit` is 0.
    pub fn json_list_children(
        &self,
        session_id: &str,
        data: &[u8],
        meta: RecordMeta,
        path: &[JsonPathSegment],
        cursor: Option<u64>,
        limit: usize,
    ) -> (r: Result<JsonChildrenPage, CoreError>)
        ensures
            match session_index(self.sessions@, session_id@, 0) {
                None => r matches Err(e) && e is UnknownSession,
                Some(i) => if self.sessions@[i].format != FileFormat::Json {
                    r matches Err(e) && e == CoreError::UnsupportedFormat(self.sessions@[i].format)
                } else {
                    match r {
                        Ok(page) => children_by_path(
                            data@,
                            meta.byte_offset,
                            path_view(path@),
                            option_or(cursor, 0),
                            limit_or_default(limit),
                            self.options.preview_max_chars as nat,
                        ) == Some(page@),
                        Err(e) => children_by_path(
                            data@,
                            meta.byte_offset,
                            path_view(path@),
                            option_or(cursor, 0),
                            limit_or_default(limit),
                            self.options.preview_max_chars as nat,
                        ) is None && e is InvalidArg,
                    }
                },
            },
    {
        let i = self.find_session(session_id)?;
        let format = self.sessions[i].format;
        if !matches!(format, FileFormat::Json) {
            return Err(CoreError::UnsupportedFormat(format));
        }
        let from = match cursor {
            Some(c) => c,
            None => 0,
        };
        let count = if limit == 0 {
            50
        } else {
            limit
        };
        list_json_children_page(
            data,
            meta.byte_offset,
            path,
            from,
            count,
            self.options.preview_max_chars,
        )
    }

    /// Kind and child count of a subtree of a JSON record; by default up to
    /// 200,000 children and 64 MiB are scanned.
    pub fn json_node_summary(
        &self,
        session_id: &str,
        data: &[u8],
        meta: RecordMeta,
        path: &[JsonPathSegment],
        max_items: Option<u64>,
        max_scan_bytes: Option<u64>,
    ) -> (r: Result<JsonNodeSummary, CoreError>)
        ensures
            match session_index(self.sessions@, session_id@, 0) {
                None => r matches Err(e) && e is UnknownSession,
                Some(i) => if self.sessions@[i].format != FileFormat::Json {
                    r matches Err(e) && e == CoreError::UnsupportedFormat(self.sessions@[i].format)
                } else {
                    match r {
                        Ok(s) => summary_by_path(
                            data@,
                            meta.byte_offset,
                            path_view(path@),
                            option_or(max_items, 200_000),
                            option_or(max_scan_bytes, 67_108_864),
                        ) == Some(s),
                        Err(e) => summary_by_path(
                            data@,
                            meta.byte_offset,
                            path_view(path@),
                            option_or(max_items, 200_000),
                            option_or(max_scan_bytes, 67_108_864),
                        ) is None && e is InvalidArg,
                    }
                },
            },
    {
        let i = self.find_session(session_id)?;
        let format = self.sessions[i].format;
        if !matches!(format, FileFormat::Json) {
            return Err(CoreError::UnsupportedFormat(format));
        }
        let items = match max_items {
            Some(n) => n,
            None => 200_000,
        };
        let bytes = match max_scan_bytes {
            Some(n) => n,
            None => 67_108_864,
        };
        json_node_summary(data, meta.byte_offset, path, items, bytes)
    }

    /// Lists direct children of the value at `node_offset`, which must not
    /// lie before the record; 50 at a time when `limit` is 0. Records of
    /// line files can be walked too.
    pub fn json_list_children_at_offset(
        &self,
        session_id: &str,
        data: &[u8],
        meta: RecordMeta,
        node_offset: u64,
        cursor_offset: Option<u64>,
        cursor_index: Option<u64>,
        limit: usize,
    ) -> (r: Result<JsonChildrenPageOffset, CoreError>)
        ensures
            match session_index(self.sessions@, session_id@, 0) {
                None => r matches Err(e) && e is UnknownSession,
                Some(i) => if self.sessions@[i].format != FileFormat::Json
                    && self.sessions@[i].format != FileFormat::Jsonl {
                    r matches Err(e) && e == CoreError::UnsupportedFormat(self.sessions@[i].format)
                } else if node_offset < meta.byte_offset {
                    r matches Err(e) && e is InvalidArg
                } else {
                    match r {
                        Ok(page) => children_at_offset(
                            data@,
                            node_offset,
                            cursor_offset,
                            cursor_index,
                            limit_or_default(limit),
                            self.options.preview_max_chars as nat,
                        ) == Some(page@),
                        Err(e) => children_at_offset(
                            data@,
                            node_offset,
                            cursor_offset,
                            cursor_index,
                            limit_or_default(limit),
                            self.options.preview_max_chars as nat,
                        ) is None && e is InvalidArg,
                    }
                },
            },
    {
        let i = self.find_session(session_id)?;
        let format = self.sessions[i].format;
        if !matches!(format, FileFormat::Json) && !matches!(format, FileFormat::Jsonl) {
            return Err(CoreError::UnsupportedFormat(format));
        }
        if node_offset < meta.byte_offset {
            return Err(
                invalid_arg_numbers(
                    "node_offset ",
                    node_offset,
                    " is before record_offset ",
                    meta.byte_offset,
                ),
            );
        }
        let count = if limit == 0 {
            50
        } else {
            limit
        };
        list_json_children_page_at_offset(
            data,
            node_offset,
            cursor_offset,
            cursor_index,
            count,
            self.options.preview_max_chars,
        )
    }

    /// Kind and child count of the value at `node_offset`, which must not
    /// lie before the record.
    pub fn json_node_summary_at_offset(
        &self,
        session_id: &str,
        data: &[u8],
        meta: RecordMeta,
        node_offset: u64,
        max_items: Option<u64>,
        max_scan_bytes: Option<u64>,
    ) -> (r: Result<JsonNodeSummaryOffset, CoreError>)
        ensures
            match session_index(self.sessions@, session_id@, 0) {
                None => r matches Err(e) && e is UnknownSession,
                Some(i) => if self.sessions@[i].format != FileFormat::Json
                    && self.sessions@[i].format != FileFormat::Jsonl {
                    r matches Err(e) && e == CoreError::UnsupportedFormat(self.sessions@[i].format)
                } else if node_offset < meta.byte_offset {
                    r matches Err(e) && e is InvalidArg
                } else {
                    match r {
                        Ok(s) => summary_at_offset(
                            data@,
                            node_offset,
                            option_or(max_items, 200_000),
                            option_or(max_scan_bytes, 67_108_864),
                        ) == Some(s),
                        Err(e) => summary_at_offset(
                            data@,
                            node_offset,
                            option_or(max_items, 200_000),
                            option_or(max_scan_bytes, 67_108_864),
                        ) is None && e is InvalidArg,
                    }
                },
            },
    {
        let i = self.find_session(session_id)?;
        let format = self.sessions[i].format;
        if !matches!(format, FileFormat::Json) && !matches!(format, FileFormat::Jsonl) {
            return Err(CoreError::UnsupportedFormat(format));
        }
        if node_offset < meta.byte_offset {
            return Err(
                invalid_arg_numbers(
                    "node_offset ",
                    node_offset,
                    " is before record_offset ",
                    meta.byte_offset,
                ),
            );
        }
        let items = match max_items {
            Some(n) => n,
            None => 200_000,
        };
        let bytes = match max_scan_bytes {
            Some(n) => n,
            None => 67_108_864,
        };
        json_node_summary_at_offset(data, node_offset, items, bytes)
    }

    /// Statistics are not available yet.
    pub fn get_stats(&self, _session_id: &str) -> (r: Result<StatsResult, CoreError>)
        ensures
            r matches Ok(s) && s.message@ == "not implemented"@,
    {
        Ok(StatsResult { message: String::from_str("not implemented") })
    }

    /// The whole text of the record at `meta`, for a record whose raw text
    /// was shortened in its page; `row` is what the row source gave for
    /// row `meta.line_no` of a columnar file.
    pub fn get_record_raw(
        &self,
        session_id: &str,
        data: &[u8],
        row: Option<&ParquetRow>,
        meta: RecordMeta,
    ) -> (r: Result<String, CoreError>)
        ensures
            match session_index(self.sessions@, session_id@, 0) {
                None => r matches Err(e) && e is UnknownSession,
                Some(i) => match r {
                    Ok(text) => record_text_of(data@, row, self.sessions@[i].format, meta) == Some(
                        text@,
                    ),
                    Err(e) => record_text_of(data@, row, self.sessions@[i].format, meta) is None
                        && (if self.sessions@[i].format == FileFormat::Unknown {
                        e == CoreError::UnsupportedFormat(self.sessions@[i].format)
                    } else {
                        e is InvalidArg
                    }),
                },
            },
    {
        let i = self.find_session(session_id)?;
        let format = self.sessions[i].format;
        match format {
            FileFormat::Unknown => Err(CoreError::UnsupportedFormat(format)),
            FileFormat::Json => read_json_value_at_offset(data, meta.byte_offset, MAX_RECORD_BYTES),
            FileFormat::Parquet => read_parquet_row_raw(row, meta.line_no, FULL_RAW_MAX_CHARS),
            _ => read_line_record(data, meta),
        }
    }
}

/// `value`, or `default` where there is none.
pub open spec fn option_or(value: Option<u64>, default: u64) -> u64 {
    match value {
        Some(v) => v,
        None => default,
    }
}

/// The limit that is used for a request: 50 for 0.
pub open spec fn limit_or_default(limit: usize) -> nat {
    if limit == 0 {
        50
    } else {
        limit as nat
    }
}

/// Reads the whole record at `meta` from a line file.
pub fn read_line_record(data: &[u8], meta: RecordMeta) -> (r: Result<String, CoreError>)
    ensures
        match r {
            Ok(text) => line_record_text(data@, meta) == Some(text@),
            Err(e) => line_record_text(data@, meta) is None && e is InvalidArg,
        },
{
    if meta.byte_len > MAX_RECORD_BYTES {
        return Err(
            invalid_arg_numbers("record too large: ", meta.byte_len, " bytes, max ", MAX_RECORD_BYTES),
        );
    }
    let len = data.len() as u64;
    if meta.byte_offset > len {
        return Err(invalid_arg_numbers("byte_offset ", meta.byte_offset, " beyond file len ", len));
    }
    if meta.byte_len > len - meta.byte_offset {
        return Err(
            invalid_arg_numbers("record of ", meta.byte_len, " bytes ends beyond file len ", len),
        );
    }
    let start = meta.byte_offset as usize;
    let whole_end = start + meta.byte_len as usize;
    let mut end = whole_end;
    let ghost whole = data@.subrange(start as int, whole_end as int);
    while end > start && (data[end - 1] == 0x0A || data[end - 1] == 0x0D || data[end - 1] == 0)
        invariant
            start <= end <= whole_end <= data.len(),
            whole == data@.subrange(start as int, whole_end as int),
            without_filler(whole) == without_filler(data@.subrange(start as int, end as int)),
        decreases end - start,
    {
        assert(data@.subrange(start as int, end as int).drop_last() =~= data@.subrange(
            start as int,
            end - 1,
        ));
        end -= 1;
    }
    Ok(utf8_lossy(slice_subrange(data, start, end)))
}

} // verus!
