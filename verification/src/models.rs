//! Plain data exchanged with callers, and the mathematical view of each.

use vstd::prelude::*;

verus! {

/// File kinds the engine can page through.
#[derive(Debug, Clone, Copy, PartialEq, Eq, Structural)]
pub enum FileFormat {
    Jsonl,
    Csv,
    Json,
    Parquet,
    Unknown,
}

#[derive(Debug, Clone)]
pub struct SessionInfo {
    pub session_id: String,
    pub path: String,
    pub format: FileFormat,
    pub created_at_ms: i64,
}

/// Where a record lies in its file. For row-oriented files only `line_no`
/// (the row index) carries meaning.
#[derive(Debug, Clone, Copy, PartialEq, Eq, Structural)]
pub struct RecordMeta {
    pub line_no: u64,
    pub byte_offset: u64,
    pub byte_len: u64,
}

#[derive(Debug, Clone)]
pub struct Record {
    pub id: u64,
    pub preview: String,
    pub raw: Option<String>,
    pub meta: Option<RecordMeta>,
}

/// A record with its texts as character sequences.
pub struct RecordView {
    pub id: u64,
    pub preview: Seq<char>,
    pub raw: Option<Seq<char>>,
    pub meta: Option<RecordMeta>,
}

/// The view of an optional text.
pub open spec fn text_opt_view(s: Option<String>) -> Option<Seq<char>> {
    match s {
        Some(t) => Some(t@),
        None => None,
    }
}

impl View for Record {
    type V = RecordView;

    open spec fn view(&self) -> RecordView {
        RecordView {
            id: self.id,
            preview: self.preview@,
            raw: text_opt_view(self.raw),
            meta: self.meta,
        }
    }
}

impl Record {
    /// A copy with the same view.
    pub fn copy(&self) -> (r: Record)
        ensures
            r@ == self@,
    {
        let raw = match &self.raw {
            Some(t) => Some(t.clone()),
            None => None,
        };
        Record { id: self.id, preview: self.preview.clone(), raw, meta: self.meta }
    }
}

/// The views of a list of records, in order.
pub open spec fn records_view(records: Seq<Record>) -> Seq<RecordView> {
    records.map_values(|r: Record| r@)
}

#[derive(Debug, Clone)]
pub struct RecordPage {
    pub records: Vec<Record>,
    pub next_cursor: Option<String>,
    pub reached_eof: bool,
}

/// A page with its texts as character sequences.
pub struct RecordPageView {
    pub records: Seq<RecordView>,
    pub next_cursor: Option<Seq<char>>,
    pub reached_eof: bool,
}

impl View for RecordPage {
    type V = RecordPageView;

    open spec fn view(&self) -> RecordPageView {
        RecordPageView {
            records: records_view(self.records@),
            next_cursor: text_opt_view(self.next_cursor),
            reached_eof: self.reached_eof,
        }
    }
}

impl RecordPage {
    /// A copy with the same view.
    pub fn copy(&self) -> (r: RecordPage)
        ensures
            r@ == self@,
    {
        let mut records: Vec<Record> = Vec::new();
        let mut i: usize = 0;
        while i < self.records.len()
            invariant
                i <= self.records.len(),
                records@.len() == i,
                forall|j: int| 0 <= j < i ==> (#[trigger] records@[j])@ == self.records@[j]@,
            decreases self.records.len() - i,
        {
            records.push(self.records[i].copy());
            i += 1;
        }
        assert(records_view(records@) =~= records_view(self.records@));
        let next_cursor = match &self.next_cursor {
            Some(t) => Some(t.clone()),
            None => None,
        };
        RecordPage { records, next_cursor, reached_eof: self.reached_eof }
    }
}

#[derive(Debug, Clone, Copy, PartialEq, Eq, Structural)]
pub enum SearchMode {
    CurrentPage,
    ScanAll,
    Indexed,
}

#[derive(Debug, Clone)]
pub struct SearchQuery {
    pub text: String,
    pub mode: SearchMode,
    pub case_sensitive: bool,
    /// For a full scan: the most hits kept in memory.
    pub max_hits: u64,
}

impl Default for SearchQuery {
    fn default() -> (q: Self)
        ensures
            q.text@.len() == 0,
            q.mode == SearchMode::CurrentPage,
            !q.case_sensitive,
            q.max_hits == 10_000,
    {
        SearchQuery {
            text: String::new(),
            mode: SearchMode::CurrentPage,
            case_sensitive: false,
            max_hits: 10_000,
        }
    }
}

#[derive(Debug, Clone)]
pub struct SearchResult {
    pub mode: SearchMode,
    pub hits: Vec<Record>,
    /// For a full scan: the background task to poll, cancel or page.
    pub task: Option<TaskInfo>,
    pub truncated: bool,
}

#[derive(Debug, Clone, Copy, PartialEq, Eq, Structural)]
pub enum TaskKind {
    SearchScanAll,
    Export,
}

#[derive(Debug, Clone)]
pub struct TaskInfo {
    pub id: String,
    pub kind: TaskKind,
    pub cancellable: bool,
}

#[derive(Debug, Clone)]
pub struct Task {
    pub id: String,
    pub kind: TaskKind,
    pub started_at_ms: i64,
    pub progress_0_100: u8,
    pub cancellable: bool,
    pub finished: bool,
    pub error: Option<String>,
    /// Whether a hit found no room in the task's buffer.
    pub truncated: bool,
}

#[derive(Debug, Clone, Copy, PartialEq, Eq, Structural)]
pub enum ExportFormat {
    Json,
    Jsonl,
    Csv,
}

/// One step of a path into a JSON value: a key of an object or an index of
/// an array.
#[derive(Debug, Clone)]
pub enum JsonPathSegment {
    Key(String),
    Index(u64),
}

/// A path segment with its key as a character sequence.
pub enum SegmentView {
    Key(Seq<char>),
    Index(u64),
}

impl View for JsonPathSegment {
    type V = SegmentView;

    open spec fn view(&self) -> SegmentView {
        match self {
            JsonPathSegment::Key(k) => SegmentView::Key(k@),
            JsonPathSegment::Index(i) => SegmentView::Index(*i),
        }
    }
}

/// The views of a path's segments, in order.
pub open spec fn path_view(path: Seq<JsonPathSegment>) -> Seq<SegmentView> {
    path.map_values(|s: JsonPathSegment| s@)
}

#[derive(Debug, Clone)]
pub enum ExportRequest {
    /// Export the records with these ids.
    Selection { record_ids: Vec<u64> },
    /// Export the hits that a full-scan search task gathered.
    SearchTask { task_id: String },
    /// Export a subtree of one JSON record, or chosen direct children of it.
    JsonSubtree {
        meta: RecordMeta,
        path: Vec<JsonPathSegment>,
        include_root: bool,
        children: Vec<JsonPathSegment>,
    },
}

#[derive(Debug, Clone)]
pub struct ExportResult {
    pub output_path: String,
    pub records_written: u64,
}

/// Kind of a JSON value, judged by its first byte alone.
#[derive(Debug, Clone, Copy, PartialEq, Eq, Structural)]
pub enum JsonNodeKind {
    Object,
    Array,
    String,
    Number,
    Boolean,
    Null,
    Unknown,
}

#[derive(Debug, Clone)]
pub struct JsonChildItem {
    /// Key or index under the listed node.
    pub seg: JsonPathSegment,
    pub kind: JsonNodeKind,
    /// Shortened text of the child's value.
    pub preview: String,
}

/// A listed child without its offset.
pub struct ChildSummaryView {
    pub seg: SegmentView,
    pub kind: JsonNodeKind,
    pub preview: Seq<char>,
}

impl View for JsonChildItem {
    type V = ChildSummaryView;

    open spec fn view(&self) -> ChildSummaryView {
        ChildSummaryView { seg: self.seg@, kind: self.kind, preview: self.preview@ }
    }
}

/// A page of children listed by ordinal.
pub struct ChildrenPageView {
    pub items: Seq<ChildSummaryView>,
    pub next_cursor: Option<u64>,
    pub reached_end: bool,
}

impl View for JsonChildrenPage {
    type V = ChildrenPageView;

    open spec fn view(&self) -> ChildrenPageView {
        ChildrenPageView {
            items: self.items@.map_values(|c: JsonChildItem| c@),
            next_cursor: self.next_cursor,
            reached_end: self.reached_end,
        }
    }
}

#[derive(Debug, Clone)]
pub struct JsonChildrenPage {
    pub items: Vec<JsonChildItem>,
    /// Ordinal of the first child of the next page; `None` when there is none.
    pub next_cursor: Option<u64>,
    pub reached_end: bool,
}

#[derive(Debug, Clone, Copy, PartialEq, Eq, Structural)]
pub struct JsonNodeSummary {
    pub kind: JsonNodeKind,
    /// For an object or array: the direct children counted; else `None`.
    pub child_count: Option<u64>,
    /// False when counting stopped at a limit.
    pub complete: bool,
}

#[derive(Debug, Clone)]
pub struct JsonChildItemOffset {
    pub seg: JsonPathSegment,
    pub kind: JsonNodeKind,
    pub preview: String,
    /// Byte offset in the file at which this child's value starts.
    pub value_offset: u64,
}

/// A listed child with its texts as character sequences.
pub struct ChildView {
    pub seg: SegmentView,
    pub kind: JsonNodeKind,
    pub preview: Seq<char>,
    pub value_offset: int,
}

impl View for JsonChildItemOffset {
    type V = ChildView;

    open spec fn view(&self) -> ChildView {
        ChildView {
            seg: self.seg@,
            kind: self.kind,
            preview: self.preview@,
            value_offset: self.value_offset as int,
        }
    }
}

/// A page of children listed by offset.
pub struct ChildrenView {
    pub items: Seq<ChildView>,
    pub next_offset: Option<int>,
    pub next_index: Option<u64>,
    pub reached_end: bool,
}

impl View for JsonChildrenPageOffset {
    type V = ChildrenView;

    open spec fn view(&self) -> ChildrenView {
        ChildrenView {
            items: self.items@.map_values(|c: JsonChildItemOffset| c@),
            next_offset: match self.next_cursor_offset {
                Some(o) => Some(o as int),
                None => None,
            },
            next_index: self.next_cursor_index,
            reached_end: self.reached_end,
        }
    }
}

#[derive(Debug, Clone)]
pub struct JsonChildrenPageOffset {
    pub items: Vec<JsonChildItemOffset>,
    /// Byte offset at which the next page of the same parent starts.
    pub next_cursor_offset: Option<u64>,
    /// For arrays: the index of the element at `next_cursor_offset`.
    pub next_cursor_index: Option<u64>,
    pub reached_end: bool,
}

#[derive(Debug, Clone, Copy, PartialEq, Eq, Structural)]
pub struct JsonNodeSummaryOffset {
    pub kind: JsonNodeKind,
    pub child_count: Option<u64>,
    pub complete: bool,
    /// The offset that was asked about.
    pub node_offset: u64,
}

#[derive(Debug, Clone)]
pub struct StatsResult {
    pub message: String,
}

/// The index after `idx`; the largest index stays as it is.
pub open spec fn next_index(idx: u64) -> u64 {
    if idx < u64::MAX {
        (idx + 1) as u64
    } else {
        idx
    }
}

/// The kind that a value starting with byte `b` is taken to have.
pub open spec fn kind_of_byte(b: u8) -> JsonNodeKind {
    if b == 0x7B {
        JsonNodeKind::Object
    } else if b == 0x5B {
        JsonNodeKind::Array
    } else if b == 0x22 {
        JsonNodeKind::String
    } else if b == 0x74 || b == 0x66 {
        JsonNodeKind::Boolean
    } else if b == 0x6E {
        JsonNodeKind::Null
    } else if b == 0x2D || (0x30 <= b <= 0x39) {
        JsonNodeKind::Number
    } else {
        JsonNodeKind::Unknown
    }
}

/// Tells the kind of a value from its first byte.
pub fn kind_from_first_byte(b: u8) -> (kind: JsonNodeKind)
    ensures
        kind == kind_of_byte(b),
{
    if b == 0x7B {
        JsonNodeKind::Object
    } else if b == 0x5B {
        JsonNodeKind::Array
    } else if b == 0x22 {
        JsonNodeKind::String
    } else if b == 0x74 || b == 0x66 {
        JsonNodeKind::Boolean
    } else if b == 0x6E {
        JsonNodeKind::Null
    } else if b == 0x2D || (0x30 <= b && b <= 0x39) {
        JsonNodeKind::Number
    } else {
        JsonNodeKind::Unknown
    }
}

} // verus!
