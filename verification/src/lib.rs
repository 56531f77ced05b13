//! Format-agnostic streaming record engine: cursor-based paging over line
//! formats, JSON documents and columnar rows, a lazy byte-offset walker for
//! huge JSON values, query matching, scan tasks and selection export, all
//! on data that the caller holds in memory.

pub mod cursor;
pub mod engine;
pub mod export;
pub mod formats;
pub mod json_text;
pub mod models;
pub mod search_match;
pub mod storage;
pub mod tasks;
pub mod text;

pub use crate::engine::{CoreEngine, CoreError, CoreOptions};
pub use crate::models::{
    ExportFormat, ExportRequest, ExportResult, FileFormat, JsonChildItem, JsonChildItemOffset,
    JsonChildrenPage, JsonChildrenPageOffset, JsonNodeKind, JsonNodeSummary,
    JsonNodeSummaryOffset, JsonPathSegment, Record, RecordMeta, RecordPage, SearchMode,
    SearchQuery, SearchResult, SessionInfo, StatsResult, Task, TaskInfo, TaskKind,
};
pub use crate::storage::{RecentFile, StorageOptions};
pub use crate::tasks::{TaskManager, TaskManagerOptions};
