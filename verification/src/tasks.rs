//! Search tasks: the state of each task, the registry that bounds how many
//! run at once, and pages over the hits a task has gathered.

use vstd::prelude::*;
use vstd::string::StringExecFns;
use crate::cursor::{decode_index_cursor, encode_index_cursor, index_of_token, option_text};
use crate::engine::CoreError;
use vstd::slice::slice_subrange;
use crate::formats::csv::{
    csv_record_end, lemma_csv_record_end_bounds, read_csv_record_bytes, record_start,
};
use crate::formats::json_page::has_bom;
use crate::formats::parquet::{row_line, row_to_line, ParquetRow};
use crate::formats::lines::{
    find_line_end, lemma_line_end_bounds, line_end, trimmed_end, without_terminator,
};
use crate::formats::scan::{
    lemma_skip_ignorable_bounds, lemma_value_end_bounds, scan_value_end, skip_ignorable,
    skip_ws_and_nul, value_end, StopBytes, COMMA, LBRACKET, RBRACKET,
};
use crate::models::{
    next_index, records_view, text_opt_view, FileFormat, Record, RecordMeta, RecordPage,
    RecordView, SearchQuery, Task, TaskKind,
};
use crate::search_match::{
    matches_hay, normalized, prepared, PreparedSearch, PreparedSearchView,
};
use crate::text::{lossy_text, to_lowercase, truncate_chars, truncated, utf8_lossy};

verus! {

#[derive(Debug, Clone)]
pub struct TaskManagerOptions {
    pub max_concurrent_tasks: usize,
}

/// One record that matched a full scan.
#[derive(Debug, Clone)]
pub struct SearchHit {
    pub line_no: u64,
    pub byte_offset: u64,
    pub byte_len: u64,
    pub preview: String,
}

pub struct HitView {
    pub line_no: u64,
    pub byte_offset: u64,
    pub byte_len: u64,
    pub preview: Seq<char>,
}

impl View for SearchHit {
    type V = HitView;

    open spec fn view(&self) -> HitView {
        HitView {
            line_no: self.line_no,
            byte_offset: self.byte_offset,
            byte_len: self.byte_len,
            preview: self.preview@,
        }
    }
}

/// The views of a list of hits, in order.
pub open spec fn hits_view(hits: Seq<SearchHit>) -> Seq<HitView> {
    hits.map_values(|h: SearchHit| h@)
}

/// The state of one task.
#[derive(Debug)]
pub struct TaskState {
    pub id: String,
    pub kind: TaskKind,
    pub started_at_ms: i64,
    pub cancellable: bool,
    pub progress: u8,
    pub finished: bool,
    pub cancelled: bool,
    pub error: Option<String>,
    pub search_hits: Vec<SearchHit>,
    pub truncated: bool,
}

/// A task as mathematics.
pub struct TaskView {
    pub id: Seq<char>,
    pub kind: TaskKind,
    pub started_at_ms: i64,
    pub cancellable: bool,
    pub progress: u8,
    pub finished: bool,
    pub cancelled: bool,
    pub error: Option<Seq<char>>,
    pub hits: Seq<HitView>,
    pub truncated: bool,
}

impl View for TaskState {
    type V = TaskView;

    open spec fn view(&self) -> TaskView {
        TaskView {
            id: self.id@,
            kind: self.kind,
            started_at_ms: self.started_at_ms,
            cancellable: self.cancellable,
            progress: self.progress,
            finished: self.finished,
            cancelled: self.cancelled,
            error: text_opt_view(self.error),
            hits: hits_view(self.search_hits@),
            truncated: self.truncated,
        }
    }
}

/// A task's progress is 100 once it is finished and below 100 before.
pub open spec fn task_wf(t: TaskView) -> bool {
    if t.finished {
        t.progress == 100
    } else {
        t.progress <= 99
    }
}

/// A fresh search task: no progress, no hits, not finished, cancellable.
pub open spec fn new_search_task(id: Seq<char>, started_at_ms: i64) -> TaskView {
    TaskView {
        id,
        kind: TaskKind::SearchScanAll,
        started_at_ms,
        cancellable: true,
        progress: 0,
        finished: false,
        cancelled: false,
        error: None,
        hits: Seq::empty(),
        truncated: false,
    }
}

/// Whether `t` is a fresh search task under `id`, whenever it was started.
pub open spec fn is_new_search_task(t: TaskView, id: Seq<char>) -> bool {
    t == new_search_task(id, t.started_at_ms)
}

/// The task once `hit` was offered to its buffer of at most `max_hits`
/// hits: the hit is appended while there is room; otherwise the task is
/// marked truncated.
pub open spec fn with_hit(t: TaskView, hit: HitView, max_hits: u64) -> TaskView {
    if t.hits.len() < max_hits {
        TaskView { hits: t.hits.push(hit), ..t }
    } else {
        TaskView { truncated: true, ..t }
    }
}

/// The task once `hit` was offered to it, if there is a hit.
pub open spec fn with_hit_opt(t: TaskView, hit: Option<HitView>, max_hits: u64) -> TaskView {
    match hit {
        Some(h) => with_hit(t, h, max_hits),
        None => t,
    }
}

/// The share of `done` in `total`, in percent, rounded down and held below
/// 100; 0 where `total` is 0.
pub open spec fn percent_of(done: nat, total: nat) -> u8 {
    if total == 0 {
        0
    } else if done * 100 / total >= 99 {
        99
    } else {
        (done * 100 / total) as u8
    }
}

/// The task once it has got as far as `done` of `total`: progress never
/// falls, and a finished task stays as it is.
pub open spec fn with_progress(t: TaskView, done: nat, total: nat) -> TaskView {
    if t.finished || total == 0 || percent_of(done, total) <= t.progress {
        t
    } else {
        TaskView { progress: percent_of(done, total), ..t }
    }
}

/// The task once its worker has returned: finished, at 100 percent, with
/// the worker's error if it had one.
pub open spec fn finished_task(t: TaskView, error: Option<Seq<char>>) -> TaskView {
    TaskView {
        finished: true,
        progress: 100,
        error: match error {
            Some(e) => Some(e),
            None => t.error,
        },
        ..t
    }
}

/// Whether two states of a task differ at most in hits and progress.
pub open spec fn same_task(a: TaskView, b: TaskView) -> bool {
    &&& a.id == b.id
    &&& a.kind == b.kind
    &&& a.started_at_ms == b.started_at_ms
    &&& a.cancellable == b.cancellable
    &&& a.finished == b.finished
    &&& a.cancelled == b.cancelled
    &&& a.error == b.error
}

/// Whether a task takes no more work: it is cancelled or finished.
pub open spec fn stopped(t: TaskView) -> bool {
    t.cancelled || t.finished
}

/// The task once its cancellation was asked for.
pub open spec fn cancelled_task(t: TaskView) -> TaskView {
    TaskView { cancelled: true, ..t }
}

impl TaskState {
    /// A fresh search task under `id`, started at `started_at_ms`.
    pub fn new_search(id: String, started_at_ms: i64) -> (t: TaskState)
        ensures
            t@ == new_search_task(id@, started_at_ms),
            task_wf(t@),
    {
        let t = TaskState {
            id,
            kind: TaskKind::SearchScanAll,
            started_at_ms,
            cancellable: true,
            progress: 0,
            finished: false,
            cancelled: false,
            error: None,
            search_hits: Vec::new(),
            truncated: false,
        };
        assert(t@.hits =~= Seq::empty());
        t
    }

    /// Records how far the worker has got.
    pub fn set_progress(&mut self, done: u64, total: u64)
        requires
            task_wf(old(self)@),
        ensures
            final(self)@ == with_progress(old(self)@, done as nat, total as nat),
            task_wf(final(self)@),
            final(self)@.progress >= old(self)@.progress,
    {
        if self.finished || total == 0 {
            return ;
        }
        let share = (done as u128) * 100 / (total as u128);
        let p: u8 = if share >= 99 {
            99
        } else {
            share as u8
        };
        if p > self.progress {
            self.progress = p;
        }
    }

    /// Marks the task finished, with the worker's error if it had one.
    pub fn finish(&mut self, error: Option<String>)
        ensures
            final(self)@ == finished_task(old(self)@, text_opt_view(error)),
            task_wf(final(self)@),
            final(self)@.finished,
            final(self)@.progress == 100,
            final(self)@.hits == old(self)@.hits,
    {
        self.finished = true;
        self.progress = 100;
        match error {
            Some(e) => {
                self.error = Some(e);
            },
            None => {},
        }
    }
}

/// Keeps `hit` if the buffer has room for it, and marks the task truncated
/// if it has not. A buffer that held no more than `query.max_hits` hits
/// still does.
pub fn push_hit(state: &mut TaskState, query: &SearchQuery, hit: SearchHit)
    ensures
        final(state)@ == with_hit(old(state)@, hit@, query.max_hits),
        old(state)@.hits.len() <= query.max_hits ==> final(state)@.hits.len() <= query.max_hits,
        final(state)@.hits.len() == old(state)@.hits.len() ==> final(state)@.truncated,
{
    let ghost before = hits_view(state.search_hits@);
    if (state.search_hits.len() as u64) < query.max_hits {
        state.search_hits.push(hit);
        assert(hits_view(state.search_hits@) =~= before.push(hit@));
    } else {
        state.truncated = true;
    }
}

/// What a scan needs to know besides the data: the matcher, and how
/// matching text is compared, shortened and counted.
pub struct ScanRules {
    pub matcher: PreparedSearchView,
    pub case_sensitive: bool,
    pub preview_max_chars: nat,
    pub max_hits: u64,
}

/// The hit for the bytes `data[start..end]` of record `id`, read as `text`,
/// if the text matches.
pub open spec fn hit_for(text: Seq<char>, start: int, end: int, id: u64, rules: ScanRules) -> Option<
    HitView,
> {
    if matches_hay(rules.matcher, normalized(text, rules.case_sensitive)) {
        Some(
            HitView {
                line_no: id,
                byte_offset: start as u64,
                byte_len: (end - start) as u64,
                preview: truncated(text, rules.preview_max_chars),
            },
        )
    } else {
        None
    }
}

/// Where the record that starts at `pos` ends: at the line's end, or for
/// CSV at the first line feed outside quotes.
pub open spec fn record_end(data: Seq<u8>, pos: int, csv: bool) -> int {
    if csv {
        csv_record_end(data, pos, record_start())
    } else {
        line_end(data, pos)
    }
}

/// The hit for the line record `data[start..end]`, if it matches: the
/// record's text is what it holds before its line terminator.
pub open spec fn line_hit(data: Seq<u8>, start: int, end: int, id: u64, rules: ScanRules) -> Option<
    HitView,
> {
    hit_for(lossy_text(without_terminator(data.subrange(start, end))), start, end, id, rules)
}

/// The task once every record from `pos` on was scanned, the first of them
/// having id `id`.
pub open spec fn scan_lines_from(
    t: TaskView,
    data: Seq<u8>,
    pos: int,
    id: u64,
    csv: bool,
    rules: ScanRules,
) -> TaskView
    decreases data.len() - pos,
{
    if pos < 0 || pos >= data.len() {
        t
    } else {
        let end = record_end(data, pos, csv);
        proof {
            lemma_line_end_bounds(data, pos);
            lemma_csv_record_end_bounds(data, pos, record_start());
        }
        scan_lines_from(
            with_progress(
                with_hit_opt(t, line_hit(data, pos, end, id, rules), rules.max_hits),
                end as nat,
                data.len(),
            ),
            data,
            end,
            next_index(id),
            csv,
            rules,
        )
    }
}

/// The most bytes that one JSON value may have in a full scan.
pub const MAX_JSON_VALUE_BYTES: usize = 52_428_800;

/// The task once every element from `pos` on was scanned, the first of
/// them having index `idx`, and whether the scan failed on an element that
/// is too long.
pub open spec fn scan_json_from(t: TaskView, data: Seq<u8>, pos: int, idx: u64, rules: ScanRules) -> (
    TaskView,
    bool,
)
    decreases data.len() - pos,
{
    let p = skip_ignorable(data, pos);
    if pos < 0 || p >= data.len() || data[p] == RBRACKET {
        (t, false)
    } else if data[p] == COMMA {
        proof {
            lemma_skip_ignorable_bounds(data, pos);
        }
        scan_json_from(t, data, p + 1, idx, rules)
    } else {
        let end = value_end(data, p, StopBytes::InArray);
        if end - p > MAX_JSON_VALUE_BYTES {
            (t, true)
        } else {
            let t2 = with_progress(
                with_hit_opt(
                    t,
                    hit_for(lossy_text(data.subrange(p, end)), p, end, idx, rules),
                    rules.max_hits,
                ),
                end as nat,
                data.len(),
            );
            let q = skip_ignorable(data, end);
            if q >= data.len() || data[q] == RBRACKET {
                (t2, false)
            } else {
                proof {
                    lemma_skip_ignorable_bounds(data, pos);
                    lemma_value_end_bounds(data, p, StopBytes::InArray);
                    lemma_skip_ignorable_bounds(data, end);
                }
                scan_json_from(
                    t2,
                    data,
                    if data[q] == COMMA {
                        q + 1
                    } else {
                        q
                    },
                    next_index(idx),
                    rules,
                )
            }
        }
    }
}

/// Where the elements of the root array start: after a byte order mark,
/// padding and the opening bracket. `None` when no bracket opens the data.
pub open spec fn root_array_start(data: Seq<u8>) -> Option<int> {
    let p = skip_ignorable(
        data,
        if has_bom(data) {
            3
        } else {
            0
        },
    );
    if p < data.len() && data[p] == LBRACKET {
        Some(skip_ignorable(data, p + 1))
    } else {
        None
    }
}

/// The task once the root array was scanned, and whether the scan failed:
/// on data that is no root array, or on an element that is too long.
pub open spec fn scan_json(t: TaskView, data: Seq<u8>, rules: ScanRules) -> (TaskView, bool) {
    match root_array_start(data) {
        None => (t, true),
        Some(start) => scan_json_from(t, data, start, 0, rules),
    }
}

/// The rules that a prepared query scans by.
pub open spec fn rules_of(
    p: PreparedSearchView,
    query: SearchQuery,
    preview_max_chars: nat,
) -> ScanRules {
    ScanRules {
        matcher: p,
        case_sensitive: query.case_sensitive,
        preview_max_chars,
        max_hits: query.max_hits,
    }
}

/// Offers the record `data[start..end]`, read as `text`, to the task.
fn offer(
    state: &mut TaskState,
    text: String,
    start: usize,
    end: usize,
    id: u64,
    matcher: &PreparedSearch,
    query: &SearchQuery,
    preview_max_chars: usize,
)
    requires
        start <= end,
    ensures
        final(state)@ == with_hit_opt(
            old(state)@,
            hit_for(
                text@,
                start as int,
                end as int,
                id,
                rules_of(matcher@, *query, preview_max_chars as nat),
            ),
            query.max_hits,
        ),
{
    let matched = if query.case_sensitive {
        matcher.matches_in_hay(text.as_str())
    } else {
        let hay = to_lowercase(text.as_str());
        matcher.matches_in_hay(hay.as_str())
    };
    if matched {
        let hit = SearchHit {
            line_no: id,
            byte_offset: start as u64,
            byte_len: (end - start) as u64,
            preview: truncate_chars(text.as_str(), preview_max_chars),
        };
        push_hit(state, query, hit);
    }
}

/// A scan in progress: what is searched for, and how far the scan has got.
#[derive(Debug)]
pub struct ScanJob {
    pub matcher: PreparedSearch,
    pub query: SearchQuery,
    pub preview_max_chars: usize,
    /// Whether records end as CSV records do.
    pub csv: bool,
    /// Where the next record starts.
    pub offset: usize,
    /// The id of the next record.
    pub next_id: u64,
    /// For a JSON document: whether the opening of the root array was passed.
    pub opened: bool,
}

impl ScanJob {
    /// The rules that this job scans by.
    pub open spec fn rules(&self) -> ScanRules {
        rules_of(self.matcher@, self.query, self.preview_max_chars as nat)
    }

    /// A job at the start of a file; `None` for a query that is empty once
    /// trimmed.
    pub fn new(query: SearchQuery, csv: bool, preview_max_chars: usize) -> (r: Option<ScanJob>)
        ensures
            match r {
                Some(job) => prepared(query.text@, query.case_sensitive) == Some(job.matcher@)
                    && job.query == query && job.preview_max_chars == preview_max_chars
                    && job.csv == csv && job.offset == 0 && job.next_id == 0 && !job.opened,
                None => prepared(query.text@, query.case_sensitive) is None,
            },
    {
        match PreparedSearch::new(&query) {
            Some(matcher) => Some(
                ScanJob {
                    matcher,
                    query,
                    preview_max_chars,
                    csv,
                    offset: 0,
                    next_id: 0,
                    opened: false,
                },
            ),
            None => None,
        }
    }

    /// Whether two jobs differ at most in how far they have got.
    pub open spec fn same_search(&self, other: ScanJob) -> bool {
        &&& self.matcher == other.matcher
        &&& self.query == other.query
        &&& self.preview_max_chars == other.preview_max_chars
        &&& self.csv == other.csv
    }
}

/// What a step over a line file or a CSV file does: on a task that is
/// cancelled or finished, or at the end of the data, nothing, and nothing
/// follows; else the record at the job's offset is offered to the task,
/// progress is recorded, and the job moves on to the next record.
pub open spec fn lines_step_post(
    before: TaskView,
    job: ScanJob,
    after: TaskView,
    next_job: ScanJob,
    more: bool,
    data: Seq<u8>,
) -> bool {
    if stopped(before) || job.offset >= data.len() {
        !more && after == before && next_job.offset == job.offset && next_job.next_id
            == job.next_id
    } else {
        let end = record_end(data, job.offset as int, job.csv);
        more && job.offset < end && next_job.offset == end && next_job.next_id == next_index(
            job.next_id,
        ) && after == with_progress(
            with_hit_opt(
                before,
                line_hit(data, job.offset as int, end, job.next_id, job.rules()),
                job.query.max_hits,
            ),
            end as nat,
            data.len(),
        )
    }
}

/// What a step over a JSON document does. On a task that is cancelled or
/// finished nothing, and the scan is over. The first step passes the opening of the root array,
/// or fails where there is none. A later step ends the scan at `]` or at
/// the end of the data, passes over a stray comma, fails on an element that
/// is too long, or offers the element to the task, records progress and
/// moves on past the element and the comma behind it.
pub open spec fn json_step_post(
    before: TaskView,
    job: ScanJob,
    after: TaskView,
    next_job: ScanJob,
    out: StepOutcome,
    data: Seq<u8>,
) -> bool {
    if stopped(before) {
        out == StepOutcome::Done && after == before && next_job.offset == job.offset
            && next_job.next_id == job.next_id && next_job.opened == job.opened
    } else if !job.opened {
        after == before && next_job.next_id == job.next_id && (match root_array_start(data) {
            Some(start) => out == StepOutcome::More && next_job.opened && next_job.offset == start,
            None => out == StepOutcome::Failed && !next_job.opened && next_job.offset
                == job.offset,
        })
    } else {
        let p = skip_ignorable(data, job.offset as int);
        let end = value_end(data, p, StopBytes::InArray);
        let q = skip_ignorable(data, end);
        next_job.opened && (if p >= data.len() || data[p] == RBRACKET {
            out == StepOutcome::Done && after == before && next_job.offset == job.offset
                && next_job.next_id == job.next_id
        } else if data[p] == COMMA {
            out == StepOutcome::More && after == before && next_job.offset == p + 1
                && next_job.next_id == job.next_id
        } else if end - p > MAX_JSON_VALUE_BYTES {
            out == StepOutcome::Failed && after == before && next_job.offset == job.offset
                && next_job.next_id == job.next_id
        } else {
            out == StepOutcome::More && after == with_progress(
                with_hit_opt(
                    before,
                    hit_for(lossy_text(data.subrange(p, end)), p, end, job.next_id, job.rules()),
                    job.query.max_hits,
                ),
                end as nat,
                data.len(),
            ) && next_job.next_id == next_index(job.next_id) && next_job.offset == (if q
                < data.len() && data[q] == COMMA {
                q + 1
            } else {
                q
            })
        })
    }
}

/// A step over the elements leaves unchanged what the whole scan gives: the
/// scan from before the step is the scan from after it, or it is over, or
/// it has failed, as the step says; and a step that says that more may
/// follow has moved on.
pub proof fn lemma_json_step_keeps_scan(
    before: TaskView,
    job: ScanJob,
    after: TaskView,
    next_job: ScanJob,
    out: StepOutcome,
    data: Seq<u8>,
)
    requires
        job.offset <= data.len(),
        job.opened,
        !stopped(before),
        json_step_post(before, job, after, next_job, out, data),
    ensures
        out == StepOutcome::More ==> job.offset < next_job.offset <= data.len(),
        scan_json_from(before, data, job.offset as int, job.next_id, job.rules()) == (match out {
            StepOutcome::More => scan_json_from(
                after,
                data,
                next_job.offset as int,
                next_job.next_id,
                job.rules(),
            ),
            StepOutcome::Done => (after, false),
            StepOutcome::Failed => (after, true),
        }),
{
    let p = skip_ignorable(data, job.offset as int);
    lemma_skip_ignorable_bounds(data, job.offset as int);
    if p < data.len() && data[p] != RBRACKET && data[p] != COMMA {
        let end = value_end(data, p, StopBytes::InArray);
        lemma_value_end_bounds(data, p, StopBytes::InArray);
        lemma_skip_ignorable_bounds(data, end);
        let q = skip_ignorable(data, end);
        if end - p <= MAX_JSON_VALUE_BYTES && (q >= data.len() || data[q] == RBRACKET) {
            lemma_skip_ignorable_bounds(data, q);
        }
    }
}

/// Scans the next record of a line file or a CSV file, and tells whether
/// more may follow. On a task that is cancelled or finished, or at the end
/// of the data, nothing happens and nothing follows.
pub fn scan_lines_step(state: &mut TaskState, job: &mut ScanJob, data: &[u8]) -> (more: bool)
    requires
        task_wf(old(state)@),
        old(job).offset <= data.len(),
    ensures
        task_wf(final(state)@),
        same_task(final(state)@, old(state)@),
        final(job).offset <= data.len(),
        final(job).same_search(*old(job)),
        final(job).opened == old(job).opened,
        lines_step_post(old(state)@, *old(job), final(state)@, *final(job), more, data@),
{
    if state.cancelled || state.finished || job.offset >= data.len() {
        return false;
    }
    let start = job.offset;
    let end = if job.csv {
        read_csv_record_bytes(data, start).0
    } else {
        find_line_end(data, start)
    };
    let text_end = trimmed_end(data, start, end);
    let text = utf8_lossy(slice_subrange(data, start, text_end));
    offer(state, text, start, end, job.next_id, &job.matcher, &job.query, job.preview_max_chars);
    state.set_progress(end as u64, data.len() as u64);
    job.offset = end;
    job.next_id = if job.next_id < u64::MAX {
        job.next_id + 1
    } else {
        job.next_id
    };
    true
}

/// Scans every record of a line file or a CSV file, unless the task is
/// cancelled or finished: then nothing is scanned. Fails on a query that is empty once
/// trimmed.
pub fn run_search_scan_all_lines(
    state: &mut TaskState,
    data: &[u8],
    csv: bool,
    query: SearchQuery,
    preview_max_chars: usize,
) -> (r: Result<(), String>)
    requires
        task_wf(old(state)@),
    ensures
        task_wf(final(state)@),
        match prepared(query.text@, query.case_sensitive) {
            None => r is Err && final(state)@ == old(state)@,
            Some(p) => r is Ok && final(state)@ == (if stopped(old(state)@) {
                old(state)@
            } else {
                scan_lines_from(
                    old(state)@,
                    data@,
                    0,
                    0,
                    csv,
                    rules_of(p, query, preview_max_chars as nat),
                )
            }),
        },
        old(state)@.hits.len() <= query.max_hits ==> final(state)@.hits.len() <= query.max_hits,
        old(state)@.hits.len() <= final(state)@.hits.len(),
{
    proof {
        match prepared(query.text@, query.case_sensitive) {
            Some(p) => {
                if old(state)@.hits.len() <= query.max_hits {
                    lemma_scan_lines_bounded(
                        old(state)@,
                        data@,
                        0,
                        0,
                        csv,
                        rules_of(p, query, preview_max_chars as nat),
                    );
                }
                lemma_scan_lines_grows(
                    old(state)@,
                    data@,
                    0,
                    0,
                    csv,
                    rules_of(p, query, preview_max_chars as nat),
                );
            },
            None => {},
        }
    }
    let mut job = match ScanJob::new(query, csv, preview_max_chars) {
        Some(job) => job,
        None => {
            return Err(String::from_str("query.text is empty"));
        },
    };
    let ghost rules = job.rules();
    let ghost goal = scan_lines_from(state@, data@, 0, 0, csv, rules);
    let ghost cancelled = stopped(state@);
    let mut more = true;
    while more
        invariant
            job.offset <= data.len(),
            task_wf(state@),
            rules == job.rules(),
            job.csv == csv,
            stopped(state@) == cancelled,
            !cancelled ==> goal == scan_lines_from(
                state@,
                data@,
                job.offset as int,
                job.next_id,
                csv,
                rules,
            ),
            !more && !cancelled ==> job.offset >= data.len(),
            cancelled ==> state@ == old(state)@,
        decreases data.len() - job.offset, if more { 1nat } else { 0nat },
    {
        more = scan_lines_step(state, &mut job, data);
    }
    Ok(())
}

/// What a step of a scan did.
#[derive(Debug, Clone, Copy, PartialEq, Eq, Structural)]
pub enum StepOutcome {
    /// More may follow.
    More,
    /// The scan is over.
    Done,
    /// The scan failed.
    Failed,
}

/// Takes the next step of the scan of a JSON document. The first step
/// passes the opening of the root array and fails on data that has none. A
/// later step passes a stray comma, or scans one element and fails if that
/// is too long. On a task that is cancelled or finished nothing happens and
/// the scan is over.
pub fn scan_json_step(state: &mut TaskState, job: &mut ScanJob, data: &[u8]) -> (out: StepOutcome)
    requires
        task_wf(old(state)@),
        old(job).offset <= data.len(),
    ensures
        task_wf(final(state)@),
        same_task(final(state)@, old(state)@),
        final(job).offset <= data.len(),
        final(job).same_search(*old(job)),
        json_step_post(old(state)@, *old(job), final(state)@, *final(job), out, data@),
{
    if state.cancelled || state.finished {
        return StepOutcome::Done;
    }
    if !job.opened {
        let bom = data.len() >= 3 && data[0] == 0xEF && data[1] == 0xBB && data[2] == 0xBF;
        let p0 = skip_ws_and_nul(
            data,
            if bom {
                3
            } else {
                0
            },
        );
        if !(p0 < data.len() && data[p0] == LBRACKET) {
            return StepOutcome::Failed;
        }
        job.offset = skip_ws_and_nul(data, p0 + 1);
        job.opened = true;
        return StepOutcome::More;
    }
    let p = skip_ws_and_nul(data, job.offset);
    if p >= data.len() || data[p] == RBRACKET {
        return StepOutcome::Done;
    }
    if data[p] == COMMA {
        job.offset = p + 1;
        return StepOutcome::More;
    }
    let end = scan_value_end(data, p, StopBytes::InArray);
    proof {
        lemma_value_end_bounds(data@, p as int, StopBytes::InArray);
    }
    if end - p > MAX_JSON_VALUE_BYTES {
        return StepOutcome::Failed;
    }
    let text = utf8_lossy(slice_subrange(data, p, end));
    offer(state, text, p, end, job.next_id, &job.matcher, &job.query, job.preview_max_chars);
    state.set_progress(end as u64, data.len() as u64);
    let q = skip_ws_and_nul(data, end);
    if q >= data.len() || data[q] == RBRACKET {
        // The element is counted, so a later step finds the scan over.
        job.offset = q;
        job.next_id = if job.next_id < u64::MAX {
            job.next_id + 1
        } else {
            job.next_id
        };
        return StepOutcome::More;
    }
    job.offset = if data[q] == COMMA {
        q + 1
    } else {
        q
    };
    job.next_id = if job.next_id < u64::MAX {
        job.next_id + 1
    } else {
        job.next_id
    };
    StepOutcome::More
}

/// Scans every element of the root array of a JSON document, unless the
/// task is cancelled or finished: then nothing is scanned. Fails on a query that is
/// empty once trimmed, on data that is no root array, and on an element
/// that is too long; the hits gathered before a failure stay.
pub fn run_search_scan_all_json_root_array(
    state: &mut TaskState,
    data: &[u8],
    query: SearchQuery,
    preview_max_chars: usize,
) -> (r: Result<(), String>)
    requires
        task_wf(old(state)@),
    ensures
        task_wf(final(state)@),
        match prepared(query.text@, query.case_sensitive) {
            None => r is Err && final(state)@ == old(state)@,
            Some(p) => if stopped(old(state)@) {
                r is Ok && final(state)@ == old(state)@
            } else {
                (final(state)@, r is Err) == scan_json(
                    old(state)@,
                    data@,
                    rules_of(p, query, preview_max_chars as nat),
                )
            },
        },
        old(state)@.hits.len() <= query.max_hits ==> final(state)@.hits.len() <= query.max_hits,
{
    proof {
        match prepared(query.text@, query.case_sensitive) {
            Some(p) => {
                if old(state)@.hits.len() <= query.max_hits {
                    match root_array_start(data@) {
                        Some(start) => {
                            lemma_scan_json_bounded(
                                old(state)@,
                                data@,
                                start,
                                0,
                                rules_of(p, query, preview_max_chars as nat),
                            );
                        },
                        None => {},
                    }
                }
            },
            None => {},
        }
    }
    let mut job = match ScanJob::new(query, false, preview_max_chars) {
        Some(job) => job,
        None => {
            return Err(String::from_str("query.text is empty"));
        },
    };
    if state.cancelled || state.finished {
        return Ok(());
    }
    let ghost rules = job.rules();
    match scan_json_step(state, &mut job, data) {
        StepOutcome::More => {},
        _ => {
            return Err(String::from_str("scan_all for .json needs a root array"));
        },
    }
    let ghost goal = scan_json(old(state)@, data@, rules);
    loop
        invariant
            job.offset <= data.len(),
            job.opened,
            task_wf(state@),
            rules == job.rules(),
            !stopped(state@),
            !stopped(old(state)@),
            prepared(query.text@, query.case_sensitive) == Some(job.matcher@),
            rules == rules_of(job.matcher@, query, preview_max_chars as nat),
            goal == scan_json(old(state)@, data@, rules),
            goal == scan_json_from(state@, data@, job.offset as int, job.next_id, rules),
            old(state)@.hits.len() <= query.max_hits ==> goal.0.hits.len() <= query.max_hits,
        decreases data.len() - job.offset,
    {
        let ghost before = state@;
        let ghost at = job;
        let out = scan_json_step(state, &mut job, data);
        proof {
            lemma_json_step_keeps_scan(before, at, state@, job, out, data@);
        }
        match out {
            StepOutcome::More => {},
            StepOutcome::Done => {
                return Ok(());
            },
            StepOutcome::Failed => {
                return Err(String::from_str("json value too large"));
            },
        }
    }
}

/// How many rows a full scan asks the row source for at a time.
pub const PARQUET_SCAN_CHUNK: u64 = 2048;

/// The smaller of two numbers.
pub open spec fn min_nat(a: nat, b: nat) -> nat {
    if a < b {
        a
    } else {
        b
    }
}

/// The task once the rows from `rows[k]` on were scanned, the first of them
/// having row index `idx`. Scanning stops once the task is truncated. Rows
/// have no place in bytes, so a hit carries its row index alone.
pub open spec fn scan_rows_from(
    t: TaskView,
    rows: Seq<ParquetRow>,
    k: int,
    idx: u64,
    total_rows: u64,
    rules: ScanRules,
) -> TaskView
    decreases rows.len() - k,
{
    if k < 0 || k >= rows.len() || t.truncated {
        t
    } else {
        scan_rows_from(
            with_progress(
                with_hit_opt(t, hit_for(row_line(rows[k]), 0, 0, idx, rules), rules.max_hits),
                min_nat(next_index(idx) as nat, total_rows as nat),
                total_rows as nat,
            ),
            rows,
            k + 1,
            next_index(idx),
            total_rows,
            rules,
        )
    }
}

/// How many of the rows from `rows[k]` on are scanned before the task is
/// truncated.
pub open spec fn rows_scanned(
    t: TaskView,
    rows: Seq<ParquetRow>,
    k: int,
    idx: u64,
    total_rows: u64,
    rules: ScanRules,
) -> nat
    decreases rows.len() - k,
{
    if k < 0 || k >= rows.len() || t.truncated {
        0
    } else {
        1 + rows_scanned(
            with_progress(
                with_hit_opt(t, hit_for(row_line(rows[k]), 0, 0, idx, rules), rules.max_hits),
                min_nat(next_index(idx) as nat, total_rows as nat),
                total_rows as nat,
            ),
            rows,
            k + 1,
            next_index(idx),
            total_rows,
            rules,
        )
    }
}

/// Scans `rows`, the rows that the row source gave from row index
/// `job.next_id` on, and tells whether the next rows should be asked for:
/// they should unless the task is cancelled, finished or truncated, or no
/// rows came.
/// `total_rows` is the count of all rows, or 0 if it is not known.
pub fn run_search_scan_all_parquet(
    state: &mut TaskState,
    job: &mut ScanJob,
    rows: &Vec<ParquetRow>,
    total_rows: u64,
) -> (more: bool)
    requires
        task_wf(old(state)@),
    ensures
        task_wf(final(state)@),
        same_task(final(state)@, old(state)@),
        final(job).same_search(*old(job)),
        final(job).offset == old(job).offset,
        final(job).opened == old(job).opened,
        if stopped(old(state)@) {
            !more && final(state)@ == old(state)@ && final(job).next_id == old(job).next_id
        } else {
            &&& final(state)@ == scan_rows_from(
                old(state)@,
                rows@,
                0,
                old(job).next_id,
                total_rows,
                old(job).rules(),
            )
            &&& final(job).next_id == advance_rows(
                old(job).next_id,
                rows_scanned(old(state)@, rows@, 0, old(job).next_id, total_rows, old(job).rules()),
            )
            &&& more == (rows@.len() > 0 && !final(state)@.truncated)
        },
        old(state)@.hits.len() <= old(job).query.max_hits ==> final(state)@.hits.len()
            <= old(job).query.max_hits,
{
    proof {
        if old(state)@.hits.len() <= old(job).query.max_hits {
            lemma_scan_rows_bounded(
                old(state)@,
                rows@,
                0,
                old(job).next_id,
                total_rows,
                old(job).rules(),
            );
        }
    }
    if state.cancelled || state.finished {
        return false;
    }
    let ghost rules = job.rules();
    let ghost goal = scan_rows_from(state@, rows@, 0, job.next_id, total_rows, rules);
    let ghost count = rows_scanned(state@, rows@, 0, job.next_id, total_rows, rules);
    let ghost first = job.next_id;
    let mut k: usize = 0;
    let ghost mut scanned: nat = 0;
    while k < rows.len() && !state.truncated
        invariant
            k <= rows.len(),
            task_wf(state@),
            same_task(state@, old(state)@),
            job.same_search(*old(job)),
            job.offset == old(job).offset,
            job.opened == old(job).opened,
            rules == job.rules(),
            goal == scan_rows_from(state@, rows@, k as int, job.next_id, total_rows, rules),
            count == scanned + rows_scanned(
                state@,
                rows@,
                k as int,
                job.next_id,
                total_rows,
                rules,
            ),
            job.next_id == advance_rows(first, scanned),
        decreases rows.len() - k,
    {
        let line = row_to_line(&rows[k]);
        offer(state, line, 0, 0, job.next_id, &job.matcher, &job.query, job.preview_max_chars);
        proof {
            lemma_advance_rows_step(first, scanned);
            scanned = scanned + 1;
        }
        job.next_id = if job.next_id < u64::MAX {
            job.next_id + 1
        } else {
            job.next_id
        };
        let done = if job.next_id < total_rows {
            job.next_id
        } else {
            total_rows
        };
        state.set_progress(done, total_rows);
        k += 1;
    }
    rows.len() > 0 && !state.truncated
}

/// `idx` advanced `count` times.
pub open spec fn advance_rows(idx: u64, count: nat) -> u64
    decreases count,
{
    if count == 0 {
        idx
    } else {
        next_index(advance_rows(idx, (count - 1) as nat))
    }
}

proof fn lemma_advance_rows_step(idx: u64, count: nat)
    ensures
        advance_rows(idx, count + 1) == next_index(advance_rows(idx, count)),
{
}

/// Runs a whole scan of a file of the given format, over its bytes or, for
/// a columnar file, over all its rows.
pub fn run_search_scan_all(
    state: &mut TaskState,
    data: &[u8],
    rows: &Vec<ParquetRow>,
    format: FileFormat,
    query: SearchQuery,
    preview_max_chars: usize,
) -> (r: Result<(), String>)
    requires
        task_wf(old(state)@),
    ensures
        task_wf(final(state)@),
        match prepared(query.text@, query.case_sensitive) {
            None => format != FileFormat::Unknown ==> r is Err && final(state)@ == old(state)@,
            Some(p) => {
                let rules = rules_of(p, query, preview_max_chars as nat);
                match format {
                    FileFormat::Unknown => r is Err && final(state)@ == old(state)@,
                    _ => if stopped(old(state)@) {
                        r is Ok && final(state)@ == old(state)@
                    } else {
                        match format {
                            FileFormat::Jsonl => r is Ok && final(state)@ == scan_lines_from(
                                old(state)@,
                                data@,
                                0,
                                0,
                                false,
                                rules,
                            ),
                            FileFormat::Csv => r is Ok && final(state)@ == scan_lines_from(
                                old(state)@,
                                data@,
                                0,
                                0,
                                true,
                                rules,
                            ),
                            FileFormat::Json => (final(state)@, r is Err) == scan_json(
                                old(state)@,
                                data@,
                                rules,
                            ),
                            _ => r is Ok && final(state)@ == scan_rows_from(
                                old(state)@,
                                rows@,
                                0,
                                0,
                                rows@.len() as u64,
                                rules,
                            ),
                        }
                    },
                }
            },
        },
        format == FileFormat::Unknown ==> r is Err && final(state)@ == old(state)@,
{
    match format {
        FileFormat::Jsonl => run_search_scan_all_lines(state, data, false, query, preview_max_chars),
        FileFormat::Csv => run_search_scan_all_lines(state, data, true, query, preview_max_chars),
        FileFormat::Json => run_search_scan_all_json_root_array(
            state,
            data,
            query,
            preview_max_chars,
        ),
        FileFormat::Parquet => {
            let mut job = match ScanJob::new(query, false, preview_max_chars) {
                Some(job) => job,
                None => {
                    return Err(String::from_str("query.text is empty"));
                },
            };
            let _ = run_search_scan_all_parquet(state, &mut job, rows, rows.len() as u64);
            Ok(())
        },
        FileFormat::Unknown => Err(String::from_str("unsupported format for scan_all")),
    }
}

/// Offering a hit never takes the buffer beyond its bound, never loses a
/// hit that was kept, and marks the task truncated when the hit finds no
/// room; a task that is marked truncated stays so.
pub proof fn lemma_with_hit_bounded(t: TaskView, hit: Option<HitView>, max_hits: u64)
    ensures
        t.hits.len() <= max_hits ==> with_hit_opt(t, hit, max_hits).hits.len() <= max_hits,
        t.hits.len() <= with_hit_opt(t, hit, max_hits).hits.len() <= t.hits.len() + 1,
        t.truncated ==> with_hit_opt(t, hit, max_hits).truncated,
        hit is Some && with_hit_opt(t, hit, max_hits).hits.len() == t.hits.len() ==> with_hit_opt(
            t,
            hit,
            max_hits,
        ).truncated,
        same_task(with_hit_opt(t, hit, max_hits), t),
        with_hit_opt(t, hit, max_hits).progress == t.progress,
        with_hit_opt(t, hit, max_hits).hits.take(t.hits.len() as int) == t.hits,
{
    assert(with_hit_opt(t, hit, max_hits).hits.take(t.hits.len() as int) =~= t.hits);
}

/// Recording progress changes nothing but the progress, which never falls.
pub proof fn lemma_with_progress(t: TaskView, done: nat, total: nat)
    ensures
        with_progress(t, done, total).hits == t.hits,
        with_progress(t, done, total).truncated == t.truncated,
        with_progress(t, done, total).progress >= t.progress,
        same_task(with_progress(t, done, total), t),
        task_wf(t) ==> task_wf(with_progress(t, done, total)),
{
}

/// A scan of a line file never keeps more than `max_hits` hits, keeps what
/// was kept before, and leaves everything but hits and progress alone.
pub proof fn lemma_scan_lines_bounded(
    t: TaskView,
    data: Seq<u8>,
    pos: int,
    id: u64,
    csv: bool,
    rules: ScanRules,
)
    requires
        t.hits.len() <= rules.max_hits,
    ensures
        scan_lines_from(t, data, pos, id, csv, rules).hits.len() <= rules.max_hits,
        t.hits.len() <= scan_lines_from(t, data, pos, id, csv, rules).hits.len(),
        t.truncated ==> scan_lines_from(t, data, pos, id, csv, rules).truncated,
        same_task(scan_lines_from(t, data, pos, id, csv, rules), t),
    decreases data.len() - pos,
{
    if 0 <= pos < data.len() {
        let end = record_end(data, pos, csv);
        lemma_line_end_bounds(data, pos);
        lemma_csv_record_end_bounds(data, pos, record_start());
        let hit = line_hit(data, pos, end, id, rules);
        lemma_with_hit_bounded(t, hit, rules.max_hits);
        let t2 = with_progress(with_hit_opt(t, hit, rules.max_hits), end as nat, data.len());
        lemma_scan_lines_bounded(t2, data, end, next_index(id), csv, rules);
    }
}

/// A scan of a line file keeps the hits that were kept before, in their
/// places, and appends to them; progress never falls.
pub proof fn lemma_scan_lines_grows(
    t: TaskView,
    data: Seq<u8>,
    pos: int,
    id: u64,
    csv: bool,
    rules: ScanRules,
)
    ensures
        t.hits.len() <= scan_lines_from(t, data, pos, id, csv, rules).hits.len(),
        scan_lines_from(t, data, pos, id, csv, rules).hits.take(t.hits.len() as int) == t.hits,
        t.progress <= scan_lines_from(t, data, pos, id, csv, rules).progress,
    decreases data.len() - pos,
{
    if 0 <= pos < data.len() {
        let end = record_end(data, pos, csv);
        lemma_line_end_bounds(data, pos);
        lemma_csv_record_end_bounds(data, pos, record_start());
        let hit = line_hit(data, pos, end, id, rules);
        lemma_with_hit_bounded(t, hit, rules.max_hits);
        let t1 = with_hit_opt(t, hit, rules.max_hits);
        lemma_with_progress(t1, end as nat, data.len());
        let t2 = with_progress(t1, end as nat, data.len());
        lemma_scan_lines_grows(t2, data, end, next_index(id), csv, rules);
        let last = scan_lines_from(t, data, pos, id, csv, rules);
        assert(last.hits.take(t.hits.len() as int) =~= last.hits.take(t2.hits.len() as int).take(
            t.hits.len() as int,
        ));
    } else {
        assert(t.hits.take(t.hits.len() as int) =~= t.hits);
    }
}

/// A scan of a JSON document never keeps more than `max_hits` hits, keeps
/// what was kept before, and leaves everything but hits and progress alone.
pub proof fn lemma_scan_json_bounded(t: TaskView, data: Seq<u8>, pos: int, idx: u64, rules: ScanRules)
    requires
        t.hits.len() <= rules.max_hits,
    ensures
        scan_json_from(t, data, pos, idx, rules).0.hits.len() <= rules.max_hits,
        t.hits.len() <= scan_json_from(t, data, pos, idx, rules).0.hits.len(),
        t.truncated ==> scan_json_from(t, data, pos, idx, rules).0.truncated,
        same_task(scan_json_from(t, data, pos, idx, rules).0, t),
    decreases data.len() - pos,
{
    let p = skip_ignorable(data, pos);
    if pos < 0 || p >= data.len() || data[p] == RBRACKET {
    } else if data[p] == COMMA {
        lemma_skip_ignorable_bounds(data, pos);
        lemma_scan_json_bounded(t, data, p + 1, idx, rules);
    } else {
        let end = value_end(data, p, StopBytes::InArray);
        if end - p > MAX_JSON_VALUE_BYTES {
        } else {
            let hit = hit_for(lossy_text(data.subrange(p, end)), p, end, idx, rules);
            lemma_with_hit_bounded(t, hit, rules.max_hits);
            let t2 = with_progress(with_hit_opt(t, hit, rules.max_hits), end as nat, data.len());
            let q = skip_ignorable(data, end);
            if q >= data.len() || data[q] == RBRACKET {
            } else {
                lemma_skip_ignorable_bounds(data, pos);
                lemma_value_end_bounds(data, p, StopBytes::InArray);
                lemma_skip_ignorable_bounds(data, end);
                lemma_scan_json_bounded(
                    t2,
                    data,
                    if data[q] == COMMA {
                        q + 1
                    } else {
                        q
                    },
                    next_index(idx),
                    rules,
                );
            }
        }
    }
}

/// A scan of rows never keeps more than `max_hits` hits, keeps what was
/// kept before, and leaves everything but hits and progress alone.
pub proof fn lemma_scan_rows_bounded(
    t: TaskView,
    rows: Seq<ParquetRow>,
    k: int,
    idx: u64,
    total_rows: u64,
    rules: ScanRules,
)
    requires
        t.hits.len() <= rules.max_hits,
    ensures
        scan_rows_from(t, rows, k, idx, total_rows, rules).hits.len() <= rules.max_hits,
        t.hits.len() <= scan_rows_from(t, rows, k, idx, total_rows, rules).hits.len(),
        t.truncated ==> scan_rows_from(t, rows, k, idx, total_rows, rules).truncated,
        same_task(scan_rows_from(t, rows, k, idx, total_rows, rules), t),
    decreases rows.len() - k,
{
    if 0 <= k < rows.len() && !t.truncated {
        let hit = hit_for(row_line(rows[k]), 0, 0, idx, rules);
        lemma_with_hit_bounded(t, hit, rules.max_hits);
        let t2 = with_progress(
            with_hit_opt(t, hit, rules.max_hits),
            min_nat(next_index(idx) as nat, total_rows as nat),
            total_rows as nat,
        );
        lemma_scan_rows_bounded(t2, rows, k + 1, next_index(idx), total_rows, rules);
    }
}

/// Cancelling a task and then finishing it leaves the task finished, at 100
/// percent, with exactly the hits it had.
pub proof fn lemma_cancelled_task_ends(t: TaskView, error: Option<Seq<char>>)
    ensures
        cancelled_task(t).cancelled,
        cancelled_task(t).hits == t.hits,
        finished_task(cancelled_task(t), error).finished,
        finished_task(cancelled_task(t), error).progress == 100,
        finished_task(cancelled_task(t), error).hits == t.hits,
        task_wf(finished_task(cancelled_task(t), error)),
{
}

/// One thing that happens to a task between two polls: a step of its scan
/// offers a hit, or none, and records progress; its cancellation is asked
/// for; or its worker returns.
pub enum TaskEvent {
    Step { hit: Option<HitView>, max_hits: u64, done: nat, total: nat },
    Cancel,
    Finish { error: Option<Seq<char>> },
}

/// The task after one event. A step changes nothing on a task that is
/// cancelled or finished; asking for cancellation changes nothing on a task
/// that cannot be cancelled.
pub open spec fn after_event(t: TaskView, event: TaskEvent) -> TaskView {
    match event {
        TaskEvent::Step { hit, max_hits, done, total } => if stopped(t) {
            t
        } else {
            with_progress(with_hit_opt(t, hit, max_hits), done, total)
        },
        TaskEvent::Cancel => if t.cancellable {
            cancelled_task(t)
        } else {
            t
        },
        TaskEvent::Finish { error } => finished_task(t, error),
    }
}

/// The task after a run of events, in order.
pub open spec fn after_events(t: TaskView, events: Seq<TaskEvent>) -> TaskView
    decreases events.len(),
{
    if events.len() == 0 {
        t
    } else {
        after_event(after_events(t, events.drop_last()), events.last())
    }
}

/// Whatever happens to a task between two polls, the later poll fits the
/// earlier one. The task stays well formed, so that it shows 100 percent
/// exactly when it is finished. Its progress has not fallen. A finished
/// task is still finished and a cancelled one still cancelled. The hits of
/// the earlier poll are still there, in their places, and if the task was
/// cancelled or finished at the earlier poll, no hit was added since.
pub proof fn lemma_later_poll(t: TaskView, events: Seq<TaskEvent>)
    requires
        task_wf(t),
    ensures
        task_wf(after_events(t, events)),
        after_events(t, events).progress >= t.progress,
        t.finished ==> after_events(t, events).finished,
        t.cancelled ==> after_events(t, events).cancelled,
        t.truncated ==> after_events(t, events).truncated,
        after_events(t, events).id == t.id,
        after_events(t, events).kind == t.kind,
        after_events(t, events).hits.len() >= t.hits.len(),
        after_events(t, events).hits.take(t.hits.len() as int) == t.hits,
        stopped(t) ==> after_events(t, events).hits == t.hits,
    decreases events.len(),
{
    if events.len() == 0 {
        assert(t.hits.take(t.hits.len() as int) =~= t.hits);
    } else {
        lemma_later_poll(t, events.drop_last());
        let mid = after_events(t, events.drop_last());
        let last = after_events(t, events);
        match events.last() {
            TaskEvent::Step { hit, max_hits, done, total } => {
                if !stopped(mid) {
                    lemma_with_hit_bounded(mid, hit, max_hits);
                    lemma_with_progress(with_hit_opt(mid, hit, max_hits), done, total);
                }
            },
            TaskEvent::Cancel => {},
            TaskEvent::Finish { error } => {},
        }
        assert(last.hits.take(t.hits.len() as int) =~= last.hits.take(mid.hits.len() as int).take(
            t.hits.len() as int,
        ));
    }
}

/// After its cancellation was asked for and its worker has returned, a
/// task that can be cancelled is finished at 100 percent with the hits it
/// had, whatever steps its scan took in between and whatever happens
/// later.
pub proof fn lemma_cancelled_run_ends(
    t: TaskView,
    between: Seq<TaskEvent>,
    error: Option<Seq<char>>,
    later: Seq<TaskEvent>,
)
    requires
        task_wf(t),
        t.cancellable,
    ensures
        ({
            let cancelled = after_event(t, TaskEvent::Cancel);
            let ended = after_event(
                after_events(cancelled, between),
                TaskEvent::Finish { error },
            );
            let last = after_events(ended, later);
            &&& last.finished
            &&& last.progress == 100
            &&& last.hits == t.hits
        }),
{
    let cancelled = after_event(t, TaskEvent::Cancel);
    lemma_later_poll(cancelled, between);
    let ended = after_event(after_events(cancelled, between), TaskEvent::Finish { error });
    lemma_later_poll(ended, later);
}

/// Whether `t` is the snapshot of the task `s`: every field that a poll
/// shows is the task's own.
pub open spec fn is_snapshot(t: Task, s: TaskView) -> bool {
    &&& t.id@ == s.id
    &&& t.kind == s.kind
    &&& t.started_at_ms == s.started_at_ms
    &&& t.progress_0_100 == s.progress
    &&& t.cancellable == s.cancellable
    &&& t.finished == s.finished
    &&& text_opt_view(t.error) == s.error
    &&& t.truncated == s.truncated
}

/// The registry of tasks, and the count of those that run.
#[derive(Debug)]
pub struct TaskManager {
    pub opts: TaskManagerOptions,
    pub tasks: Vec<TaskState>,
    pub running: usize,
}

pub struct StartedTask {
    pub id: String,
}

/// The views of a list of tasks, in order.
pub open spec fn tasks_view(tasks: Seq<TaskState>) -> Seq<TaskView> {
    tasks.map_values(|t: TaskState| t@)
}

/// How many of `tasks` are not finished.
pub open spec fn unfinished_count(tasks: Seq<TaskView>) -> nat
    decreases tasks.len(),
{
    if tasks.len() == 0 {
        0
    } else {
        unfinished_count(tasks.drop_last()) + (if tasks.last().finished {
            0nat
        } else {
            1nat
        })
    }
}

/// The index of the first of `tasks` whose id is `id`, looking from index
/// `from` on.
pub open spec fn task_index(tasks: Seq<TaskView>, id: Seq<char>, from: int) -> Option<int>
    decreases tasks.len() - from,
{
    if from < 0 || from >= tasks.len() {
        None
    } else if tasks[from].id == id {
        Some(from)
    } else {
        task_index(tasks, id, from + 1)
    }
}

/// Whether no two tasks share an id.
pub open spec fn distinct_task_ids(tasks: Seq<TaskView>) -> bool {
    forall|i: int, j: int| 0 <= i < j < tasks.len() ==> tasks[i].id != tasks[j].id
}

/// The registry once `t` is put into it, as into a map keyed by id: `t`
/// takes the place of the task that has its id, or comes last if there is
/// none.
pub open spec fn with_task(tasks: Seq<TaskView>, t: TaskView) -> Seq<TaskView> {
    match task_index(tasks, t.id, 0) {
        Some(i) => tasks.update(i, t),
        None => tasks.push(t),
    }
}

/// How many tasks run once a fresh task is put into a registry in which
/// `running` tasks ran: one more, unless the fresh task takes the place of
/// a task that still ran.
pub open spec fn running_with_new(tasks: Seq<TaskView>, id: Seq<char>, running: int) -> int {
    match task_index(tasks, id, 0) {
        Some(i) => if tasks[i].finished {
            running + 1
        } else {
            running
        },
        None => running + 1,
    }
}

/// Whether `after` is `before` with a fresh search task under `id` put
/// into it, whenever that task was started.
pub open spec fn started_in(before: Seq<TaskView>, after: Seq<TaskView>, id: Seq<char>) -> bool {
    &&& task_index(after, id, 0) is Some
    &&& is_new_search_task(after[task_index(after, id, 0)->Some_0], id)
    &&& after == with_task(before, after[task_index(after, id, 0)->Some_0])
}

/// A task that is put into a registry is found there under its id.
pub proof fn lemma_with_task(tasks: Seq<TaskView>, t: TaskView)
    ensures
        task_index(with_task(tasks, t), t.id, 0) is Some,
        with_task(tasks, t)[task_index(with_task(tasks, t), t.id, 0)->Some_0] == t,
        task_index(with_task(tasks, t), t.id, 0) == (match task_index(tasks, t.id, 0) {
            Some(i) => Some(i),
            None => Some(tasks.len() as int),
        }),
{
    let after = with_task(tasks, t);
    lemma_task_index(tasks, t.id, 0);
    match task_index(tasks, t.id, 0) {
        Some(i) => {
            lemma_task_index_first(tasks, t.id, 0);
            lemma_task_index_found(after, t.id, 0, i);
        },
        None => {
            lemma_task_index_none(tasks, t.id, 0);
            lemma_task_index_found(after, t.id, 0, tasks.len() as int);
        },
    }
}

/// The task that is found is the first with the id.
pub proof fn lemma_task_index_first(tasks: Seq<TaskView>, id: Seq<char>, from: int)
    requires
        0 <= from,
    ensures
        task_index(tasks, id, from) matches Some(i) ==> forall|j: int|
            from <= j < i ==> (#[trigger] tasks[j]).id != id,
    decreases tasks.len() - from,
{
    if from < tasks.len() && tasks[from].id != id {
        lemma_task_index_first(tasks, id, from + 1);
    }
}

/// Where the task at `k` has the id and none before it has, it is found.
pub proof fn lemma_task_index_found(tasks: Seq<TaskView>, id: Seq<char>, from: int, k: int)
    requires
        0 <= from <= k < tasks.len(),
        tasks[k].id == id,
        forall|j: int| from <= j < k ==> (#[trigger] tasks[j]).id != id,
    ensures
        task_index(tasks, id, from) == Some(k),
    decreases k - from,
{
    if from < k {
        lemma_task_index_found(tasks, id, from + 1, k);
    }
}

/// Where no task is found, no task from `from` on has the id.
pub proof fn lemma_task_index_none(tasks: Seq<TaskView>, id: Seq<char>, from: int)
    requires
        0 <= from,
        task_index(tasks, id, from) is None,
    ensures
        forall|j: int| from <= j < tasks.len() ==> (#[trigger] tasks[j]).id != id,
    decreases tasks.len() - from,
{
    if from < tasks.len() {
        lemma_task_index_none(tasks, id, from + 1);
    }
}

/// Putting a task in the place of one with the same id keeps ids distinct.
pub proof fn lemma_distinct_update(tasks: Seq<TaskView>, i: int, t: TaskView)
    requires
        distinct_task_ids(tasks),
        0 <= i < tasks.len(),
        t.id == tasks[i].id,
    ensures
        distinct_task_ids(tasks.update(i, t)),
{
    let after = tasks.update(i, t);
    assert forall|a: int, b: int| 0 <= a < b < after.len() implies after[a].id != after[b].id by {
        assert(after[a].id == tasks[a].id);
        assert(after[b].id == tasks[b].id);
    }
}

/// Adding a task whose id no task has keeps ids distinct.
pub proof fn lemma_distinct_push(tasks: Seq<TaskView>, t: TaskView)
    requires
        distinct_task_ids(tasks),
        task_index(tasks, t.id, 0) is None,
    ensures
        distinct_task_ids(tasks.push(t)),
{
    lemma_task_index_none(tasks, t.id, 0);
    let after = tasks.push(t);
    assert forall|a: int, b: int| 0 <= a < b < after.len() implies after[a].id != after[b].id by {
        if b < tasks.len() {
            assert(after[a] == tasks[a] && after[b] == tasks[b]);
        } else {
            assert(after[a] == tasks[a]);
        }
    }
}

/// A task that is found has the id that was looked for.
pub proof fn lemma_task_index(tasks: Seq<TaskView>, id: Seq<char>, from: int)
    requires
        0 <= from,
    ensures
        task_index(tasks, id, from) matches Some(i) ==> from <= i < tasks.len() && tasks[i].id
            == id,
    decreases tasks.len() - from,
{
    if from < tasks.len() && tasks[from].id != id {
        lemma_task_index(tasks, id, from + 1);
    }
}

/// Replacing a task by one that is finished or not as it was keeps the
/// count; finishing an unfinished one lowers it by one.
pub proof fn lemma_unfinished_update(tasks: Seq<TaskView>, i: int, t: TaskView)
    requires
        0 <= i < tasks.len(),
    ensures
        unfinished_count(tasks.update(i, t)) + (if tasks[i].finished {
            0nat
        } else {
            1nat
        }) == unfinished_count(tasks) + (if t.finished {
            0nat
        } else {
            1nat
        }),
        unfinished_count(tasks) <= tasks.len(),
    decreases tasks.len(),
{
    let updated = tasks.update(i, t);
    if i == tasks.len() - 1 {
        assert(updated.drop_last() =~= tasks.drop_last());
        lemma_unfinished_bound(tasks.drop_last());
    } else {
        lemma_unfinished_update(tasks.drop_last(), i, t);
        assert(updated.drop_last() =~= tasks.drop_last().update(i, t));
    }
}

/// No more tasks are unfinished than there are tasks.
pub proof fn lemma_unfinished_bound(tasks: Seq<TaskView>)
    ensures
        unfinished_count(tasks) <= tasks.len(),
    decreases tasks.len(),
{
    if tasks.len() > 0 {
        lemma_unfinished_bound(tasks.drop_last());
    }
}

/// The page of up to `page_size` hits from index `idx` on, as records that
/// carry their place but no raw text.
pub open spec fn hit_records(hits: Seq<HitView>, idx: int, page_size: int) -> Seq<RecordView> {
    let from = if idx > hits.len() {
        hits.len() as int
    } else {
        idx
    };
    let to = if from + page_size > hits.len() {
        hits.len() as int
    } else {
        from + page_size
    };
    Seq::new(
        (to - from) as nat,
        |i: int|
            RecordView {
                id: hits[from + i].line_no,
                preview: hits[from + i].preview,
                raw: None,
                meta: Some(
                    RecordMeta {
                        line_no: hits[from + i].line_no,
                        byte_offset: hits[from + i].byte_offset,
                        byte_len: hits[from + i].byte_len,
                    },
                ),
            },
    )
}

/// Calls `uuid::Uuid::new_v4` and renders the id as text. The id is random:
/// nothing is promised of it.
#[verifier::external_body]
pub(crate) fn new_task_id() -> (id: String) {
    uuid::Uuid::new_v4().to_string()
}

/// Reads the clock through `std::time::SystemTime::now`: milliseconds since
/// the Unix epoch, 0 for a clock set before it. Nothing is promised of the
/// value.
#[verifier::external_body]
pub(crate) fn now_ms() -> (ms: i64) {
    let since = std::time::SystemTime::now().duration_since(std::time::UNIX_EPOCH);
    since.unwrap_or_default().as_millis() as i64
}

impl TaskManager {
    /// Every task is well formed, no two tasks share an id, and `running`
    /// counts the unfinished ones.
    pub open spec fn wf(&self) -> bool {
        &&& forall|i: int| 0 <= i < self.tasks@.len() ==> task_wf(#[trigger] self.tasks@[i]@)
        &&& distinct_task_ids(tasks_view(self.tasks@))
        &&& self.running == unfinished_count(tasks_view(self.tasks@))
    }

    /// A registry without tasks.
    pub fn new(opts: TaskManagerOptions) -> (m: TaskManager)
        ensures
            m.wf(),
            m.tasks@.len() == 0,
            m.running == 0,
            m.opts == opts,
    {
        let m = TaskManager { opts, tasks: Vec::new(), running: 0 };
        assert(tasks_view(m.tasks@) =~= Seq::empty());
        m
    }

    /// The index of the first task with id `task_id`.
    pub fn find_task(&self, task_id: &str) -> (r: Option<usize>)
        ensures
            match r {
                Some(i) => task_index(tasks_view(self.tasks@), task_id@, 0) == Some(i as int) && i
                    < self.tasks@.len() && self.tasks@[i as int].id@ == task_id@,
                None => task_index(tasks_view(self.tasks@), task_id@, 0) is None,
            },
    {
        let wanted = String::from_str(task_id);
        let mut i: usize = 0;
        while i < self.tasks.len()
            invariant
                i <= self.tasks.len(),
                wanted@ == task_id@,
                task_index(tasks_view(self.tasks@), task_id@, 0) == task_index(
                    tasks_view(self.tasks@),
                    task_id@,
                    i as int,
                ),
            decreases self.tasks.len() - i,
        {
            assert(tasks_view(self.tasks@)[i as int] == self.tasks@[i as int]@);
            if self.tasks[i].id == wanted {
                return Some(i);
            }
            i += 1;
        }
        None
    }

    /// Registers a search task under `id`, started at `now`, if the format
    /// can be scanned, the query has text and fewer tasks run than may. The
    /// registry is keyed by id: a task that has the id already gives its
    /// place to the new one.
    pub fn register_search_task(
        &mut self,
        id: String,
        now: i64,
        format: FileFormat,
        query: &SearchQuery,
    ) -> (r: Result<StartedTask, CoreError>)
        requires
            old(self).wf(),
        ensures
            final(self).wf(),
            final(self).opts == old(self).opts,
            match r {
                Ok(started) => {
                    &&& format != FileFormat::Unknown
                    &&& query.text@.len() > 0
                    &&& old(self).running < old(self).opts.max_concurrent_tasks
                    &&& started.id@ == id@
                    &&& tasks_view(final(self).tasks@) == with_task(
                        tasks_view(old(self).tasks@),
                        new_search_task(id@, now),
                    )
                    &&& final(self).running == running_with_new(
                        tasks_view(old(self).tasks@),
                        id@,
                        old(self).running as int,
                    )
                },
                Err(e) => {
                    &&& final(self).tasks@ == old(self).tasks@
                    &&& final(self).running == old(self).running
                    &&& if format == FileFormat::Unknown {
                        e == CoreError::UnsupportedFormat(format)
                    } else if query.text@.len() == 0 {
                        e is InvalidArg
                    } else {
                        e is Task && old(self).running >= old(self).opts.max_concurrent_tasks
                    }
                },
            },
    {
        if matches!(format, FileFormat::Unknown) {
            return Err(CoreError::UnsupportedFormat(format));
        }
        if query.text.as_str().is_empty() {
            return Err(CoreError::InvalidArg(String::from_str("query.text is empty")));
        }
        if self.running >= self.opts.max_concurrent_tasks {
            return Err(CoreError::Task(String::from_str("too many concurrent tasks")));
        }
        let ghost before = tasks_view(self.tasks@);
        let ghost fresh = new_search_task(id@, now);
        let started = StartedTask { id: id.clone() };
        let place = self.find_task(id.as_str());
        let task = TaskState::new_search(id, now);
        proof {
            lemma_unfinished_bound(before);
        }
        match place {
            Some(i) => {
                assert(before[i as int] == self.tasks@[i as int]@);
                let was_running = !self.tasks[i].finished;
                let slot = &mut self.tasks[i];
                *slot = task;
                if !was_running {
                    self.running = self.running + 1;
                }
                proof {
                    let after = tasks_view(self.tasks@);
                    assert(after =~= before.update(i as int, fresh));
                    lemma_unfinished_update(before, i as int, fresh);
                    lemma_distinct_update(before, i as int, fresh);
                    assert forall|j: int| 0 <= j < self.tasks@.len() implies task_wf(
                        #[trigger] self.tasks@[j]@,
                    ) by {
                        assert(after[j] == self.tasks@[j]@);
                        if j != i {
                            assert(before[j] == old(self).tasks@[j]@);
                        }
                    }
                }
            },
            None => {
                self.tasks.push(task);
                self.running = self.running + 1;
                proof {
                    let after = tasks_view(self.tasks@);
                    assert(after =~= before.push(fresh));
                    assert(after.drop_last() =~= before);
                    lemma_distinct_push(before, fresh);
                }
            },
        }
        Ok(started)
    }

    /// Starts a search task under a fresh random id, stamped with the
    /// current time. Whatever the id and the time, the task is registered
    /// exactly when [`Self::register_search_task`] registers it.
    pub fn start_search_scan_all(&mut self, format: FileFormat, query: &SearchQuery) -> (r: Result<
        StartedTask,
        CoreError,
    >)
        requires
            old(self).wf(),
        ensures
            final(self).wf(),
            final(self).opts == old(self).opts,
            match r {
                Ok(started) => {
                    &&& format != FileFormat::Unknown
                    &&& query.text@.len() > 0
                    &&& old(self).running < old(self).opts.max_concurrent_tasks
                    &&& started_in(
                        tasks_view(old(self).tasks@),
                        tasks_view(final(self).tasks@),
                        started.id@,
                    )
                    &&& final(self).running == running_with_new(
                        tasks_view(old(self).tasks@),
                        started.id@,
                        old(self).running as int,
                    )
                },
                Err(e) => {
                    &&& final(self).tasks@ == old(self).tasks@
                    &&& final(self).running == old(self).running
                    &&& if format == FileFormat::Unknown {
                        e == CoreError::UnsupportedFormat(format)
                    } else if query.text@.len() == 0 {
                        e is InvalidArg
                    } else {
                        e is Task && old(self).running >= old(self).opts.max_concurrent_tasks
                    }
                },
            },
    {
        let id = new_task_id();
        let now = now_ms();
        let ghost before = tasks_view(self.tasks@);
        let r = self.register_search_task(id, now, format, query);
        proof {
            if r is Ok {
                lemma_with_task(before, new_search_task(r->Ok_0.id@, now));
            }
        }
        r
    }

    /// A snapshot of the task with id `task_id`. In a well-formed registry
    /// the snapshot shows progress 100 exactly when the task is finished.
    pub fn get_task(&self, task_id: &str) -> (r: Result<Task, String>)
        ensures
            match r {
                Ok(t) => task_index(tasks_view(self.tasks@), task_id@, 0) matches Some(i)
                    && is_snapshot(t, tasks_view(self.tasks@)[i]),
                Err(_) => task_index(tasks_view(self.tasks@), task_id@, 0) is None,
            },
            self.wf() && r is Ok ==> (if r->Ok_0.finished {
                r->Ok_0.progress_0_100 == 100
            } else {
                r->Ok_0.progress_0_100 <= 99
            }),
    {
        proof {
            lemma_task_index(tasks_view(self.tasks@), task_id@, 0);
        }
        match self.find_task(task_id) {
            None => Err(String::from_str("unknown task")),
            Some(i) => {
                let t = &self.tasks[i];
                assert(tasks_view(self.tasks@)[i as int] == t@);
                let error = match &t.error {
                    Some(e) => Some(e.clone()),
                    None => None,
                };
                Ok(
                    Task {
                        id: t.id.clone(),
                        kind: t.kind,
                        started_at_ms: t.started_at_ms,
                        progress_0_100: t.progress,
                        cancellable: t.cancellable,
                        finished: t.finished,
                        error,
                        truncated: t.truncated,
                    },
                )
            },
        }
    }

    /// Asks the task with id `task_id` to stop. Fails for an unknown task
    /// and for one that cannot be cancelled.
    pub fn cancel_task(&mut self, task_id: &str) -> (r: Result<(), String>)
        requires
            old(self).wf(),
        ensures
            final(self).wf(),
            final(self).opts == old(self).opts,
            final(self).running == old(self).running,
            match task_index(tasks_view(old(self).tasks@), task_id@, 0) {
                Some(i) => if tasks_view(old(self).tasks@)[i].cancellable {
                    r is Ok && tasks_view(final(self).tasks@) == tasks_view(
                        old(self).tasks@,
                    ).update(i, cancelled_task(tasks_view(old(self).tasks@)[i]))
                } else {
                    r is Err && final(self).tasks@ == old(self).tasks@
                },
                None => r is Err && final(self).tasks@ == old(self).tasks@,
            },
    {
        match self.find_task(task_id) {
            None => Err(String::from_str("unknown task")),
            Some(i) => {
                let ghost before = tasks_view(self.tasks@);
                assert(before[i as int] == self.tasks@[i as int]@);
                if !self.tasks[i].cancellable {
                    return Err(String::from_str("task not cancellable"));
                }
                let task = &mut self.tasks[i];
                task.cancelled = true;
                proof {
                    let after = tasks_view(self.tasks@);
                    assert(after =~= before.update(i as int, cancelled_task(before[i as int])));
                    lemma_unfinished_update(before, i as int, cancelled_task(before[i as int]));
                    lemma_distinct_update(before, i as int, cancelled_task(before[i as int]));
                    assert forall|j: int| 0 <= j < self.tasks@.len() implies task_wf(
                        #[trigger] self.tasks@[j]@,
                    ) by {
                        assert(after[j] == self.tasks@[j]@);
                        if j != i {
                            assert(before[j] == old(self).tasks@[j]@);
                        }
                    }
                }
                Ok(())
            },
        }
    }

    /// The page of up to `page_size` hits (50 when 0) of the search task
    /// with id `task_id`, from the hit that `cursor` names on. The page
    /// never holds more hits than the task has gathered.
    pub fn search_task_hits_page(&self, task_id: &str, cursor: Option<&str>, page_size: usize) -> (r:
        Result<RecordPage, String>)
        ensures
            match r {
                Ok(page) => task_index(tasks_view(self.tasks@), task_id@, 0) matches Some(i)
                    && index_of_token(option_text(cursor)) matches Some(idx) && ({
                    let t = tasks_view(self.tasks@)[i];
                    let size: int = if page_size == 0 {
                        50
                    } else {
                        page_size as int
                    };
                    &&& t.kind == TaskKind::SearchScanAll
                    &&& records_view(page.records@) == hit_records(t.hits, idx as int, size)
                    &&& page.records@.len() <= t.hits.len()
                    &&& page.reached_eof == (idx + page.records@.len() >= t.hits.len())
                    &&& match page.next_cursor {
                        Some(token) => !page.reached_eof && index_of_token(Some(token@)) == Some(
                            (idx + page.records@.len()) as u64,
                        ),
                        None => page.reached_eof,
                    }
                }),
                Err(_) => match task_index(tasks_view(self.tasks@), task_id@, 0) {
                    Some(i) => tasks_view(self.tasks@)[i].kind != TaskKind::SearchScanAll
                        || index_of_token(option_text(cursor)) is None,
                    None => true,
                },
            },
    {
        let i = match self.find_task(task_id) {
            Some(i) => i,
            None => {
                return Err(String::from_str("unknown task"));
            },
        };
        let t = &self.tasks[i];
        assert(tasks_view(self.tasks@)[i as int] == t@);
        if !matches!(t.kind, TaskKind::SearchScanAll) {
            return Err(String::from_str("task is not search_scan_all"));
        }
        let idx = match decode_index_cursor(cursor) {
            Ok(idx) => idx,
            Err(e) => {
                return Err(e.message());
            },
        };
        let size: usize = if page_size == 0 {
            50
        } else {
            page_size
        };
        let total = t.search_hits.len();
        let from: usize = if idx > total as u64 {
            total
        } else {
            idx as usize
        };
        let to: usize = if size > total - from {
            total
        } else {
            from + size
        };
        let ghost hits = hits_view(t.search_hits@);
        let ghost goal = hit_records(hits, idx as int, size as int);
        let mut records: Vec<Record> = Vec::new();
        let mut k: usize = from;
        while k < to
            invariant
                from <= k <= to <= total,
                total == t.search_hits@.len(),
                hits == hits_view(t.search_hits@),
                from as int == (if idx as int > hits.len() {
                    hits.len() as int
                } else {
                    idx as int
                }),
                to as int == (if from + size > hits.len() {
                    hits.len() as int
                } else {
                    from + size
                }),
                goal.len() == to - from,
                records@.len() == k - from,
                forall|j: int| 0 <= j < k - from ==> (#[trigger] records@[j])@ == goal[j],
                goal == hit_records(hits, idx as int, size as int),
            decreases to - k,
        {
            let h = &t.search_hits[k];
            assert(hits[k as int] == h@);
            records.push(
                Record {
                    id: h.line_no,
                    preview: h.preview.clone(),
                    raw: None,
                    meta: Some(
                        RecordMeta {
                            line_no: h.line_no,
                            byte_offset: h.byte_offset,
                            byte_len: h.byte_len,
                        },
                    ),
                },
            );
            k += 1;
        }
        assert(records_view(records@) =~= goal);
        let reached_eof = to >= total;
        let next_cursor = if reached_eof {
            None
        } else {
            Some(encode_index_cursor(to as u64))
        };
        Ok(RecordPage { records, next_cursor, reached_eof })
    }

    /// The record ids of the hits of the search task with id `task_id`.
    pub fn get_search_task_hit_ids(&self, task_id: &str) -> (r: Result<Vec<u64>, String>)
        ensures
            match r {
                Ok(ids) => task_index(tasks_view(self.tasks@), task_id@, 0) matches Some(i) && ({
                    let t = tasks_view(self.tasks@)[i];
                    &&& t.kind == TaskKind::SearchScanAll
                    &&& ids@.len() == t.hits.len()
                    &&& forall|j: int| 0 <= j < ids@.len() ==> ids@[j] == t.hits[j].line_no
                }),
                Err(_) => match task_index(tasks_view(self.tasks@), task_id@, 0) {
                    Some(i) => tasks_view(self.tasks@)[i].kind != TaskKind::SearchScanAll,
                    None => true,
                },
            },
    {
        let i = match self.find_task(task_id) {
            Some(i) => i,
            None => {
                return Err(String::from_str("unknown task"));
            },
        };
        let t = &self.tasks[i];
        assert(tasks_view(self.tasks@)[i as int] == t@);
        if !matches!(t.kind, TaskKind::SearchScanAll) {
            return Err(String::from_str("task is not search_scan_all"));
        }
        let ghost hits = hits_view(t.search_hits@);
        let mut ids: Vec<u64> = Vec::new();
        let mut k: usize = 0;
        while k < t.search_hits.len()
            invariant
                k <= t.search_hits.len(),
                hits == hits_view(t.search_hits@),
                ids@.len() == k,
                forall|j: int| 0 <= j < k ==> ids@[j] == hits[j].line_no,
            decreases t.search_hits.len() - k,
        {
            assert(hits[k as int] == t.search_hits@[k as int]@);
            ids.push(t.search_hits[k].line_no);
            k += 1;
        }
        Ok(ids)
    }

    /// Marks the task with id `task_id` finished, with its worker's error
    /// if it had one, and counts one task less as running. An unknown id
    /// changes nothing.
    pub fn finish_task(&mut self, task_id: &str, error: Option<String>)
        requires
            old(self).wf(),
        ensures
            final(self).wf(),
            final(self).opts == old(self).opts,
            match task_index(tasks_view(old(self).tasks@), task_id@, 0) {
                Some(i) => tasks_view(final(self).tasks@) == tasks_view(old(self).tasks@).update(
                    i,
                    finished_task(tasks_view(old(self).tasks@)[i], text_opt_view(error)),
                ),
                None => {
                    &&& final(self).tasks@ == old(self).tasks@
                    &&& final(self).running == old(self).running
                },
            },
    {
        match self.find_task(task_id) {
            None => {},
            Some(i) => {
                let ghost before = tasks_view(self.tasks@);
                assert(before[i as int] == self.tasks@[i as int]@);
                let was_running = !self.tasks[i].finished;
                let task = &mut self.tasks[i];
                task.finish(error);
                proof {
                    let after = tasks_view(self.tasks@);
                    let done = finished_task(before[i as int], text_opt_view(error));
                    assert(after =~= before.update(i as int, done));
                    lemma_unfinished_update(before, i as int, done);
                    lemma_distinct_update(before, i as int, done);
                    assert forall|j: int| 0 <= j < self.tasks@.len() implies task_wf(
                        #[trigger] self.tasks@[j]@,
                    ) by {
                        assert(after[j] == self.tasks@[j]@);
                        if j != i {
                            assert(before[j] == old(self).tasks@[j]@);
                        }
                    }
                }
                if was_running {
                    self.running = self.running - 1;
                }
            },
        }
    }

    /// Takes the next step of the scan `job` for the task with id
    /// `task_id`: one record of a line or CSV file, one step over a JSON
    /// document. An unknown id ends the scan.
    pub fn scan_step(&mut self, task_id: &str, job: &mut ScanJob, data: &[u8], json: bool) -> (out:
        StepOutcome)
        requires
            old(self).wf(),
            old(job).offset <= data.len(),
        ensures
            final(self).wf(),
            final(self).opts == old(self).opts,
            final(self).running == old(self).running,
            final(self).tasks@.len() == old(self).tasks@.len(),
            final(job).offset <= data.len(),
            final(job).same_search(*old(job)),
            match task_index(tasks_view(old(self).tasks@), task_id@, 0) {
                Some(i) => {
                    let before = tasks_view(old(self).tasks@)[i];
                    let after = tasks_view(final(self).tasks@)[i];
                    &&& tasks_view(final(self).tasks@) == tasks_view(old(self).tasks@).update(
                        i,
                        after,
                    )
                    &&& same_task(after, before)
                    &&& if json {
                        json_step_post(before, *old(job), after, *final(job), out, data@)
                    } else {
                        out != StepOutcome::Failed && lines_step_post(
                            before,
                            *old(job),
                            after,
                            *final(job),
                            out == StepOutcome::More,
                            data@,
                        )
                    }
                },
                None => out == StepOutcome::Done && final(self).tasks@ == old(self).tasks@,
            },
    {
        match self.find_task(task_id) {
            None => StepOutcome::Done,
            Some(i) => {
                let ghost before = tasks_view(self.tasks@);
                assert(before[i as int] == self.tasks@[i as int]@);
                let task = &mut self.tasks[i];
                let out = if json {
                    scan_json_step(task, job, data)
                } else if scan_lines_step(task, job, data) {
                    StepOutcome::More
                } else {
                    StepOutcome::Done
                };
                proof {
                    let after = tasks_view(self.tasks@);
                    assert(after =~= before.update(i as int, after[i as int]));
                    lemma_unfinished_update(before, i as int, after[i as int]);
                    lemma_distinct_update(before, i as int, after[i as int]);
                    assert forall|j: int| 0 <= j < self.tasks@.len() implies task_wf(
                        #[trigger] self.tasks@[j]@,
                    ) by {
                        assert(after[j] == self.tasks@[j]@);
                        if j != i {
                            assert(before[j] == old(self).tasks@[j]@);
                        }
                    }
                }
                out
            },
        }
    }
}

} // verus!
