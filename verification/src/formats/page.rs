//! What every pager returns.

use vstd::prelude::*;
use crate::cursor::Cursor;
use crate::formats::lines::advance_id;
use crate::models::{records_view, Record, RecordView};

verus! {

/// One page of records, before its cursor is made into a token.
#[derive(Debug, Clone)]
pub struct LinesPageInternal {
    pub records: Vec<Record>,
    pub reached_eof: bool,
}

/// A page as mathematics: its records, where the next page starts, and
/// whether the file's end was reached.
pub struct PageView {
    pub records: Seq<RecordView>,
    pub next: Option<Cursor>,
    pub reached_eof: bool,
}

/// The view of a pager's result.
pub open spec fn page_view(page: LinesPageInternal, next: Option<Cursor>) -> PageView {
    PageView { records: records_view(page.records@), next, reached_eof: page.reached_eof }
}

/// The page that holds nothing and ends the file.
pub open spec fn eof_page() -> PageView {
    PageView { records: Seq::empty(), next: None, reached_eof: true }
}

/// A page is consistent when it names a next cursor exactly if it holds
/// records and the end was not reached.
pub open spec fn page_consistent(page: PageView) -> bool {
    page.next is None <==> (page.reached_eof || page.records.len() == 0)
}

/// Every record's place in the file carries the record's own id.
pub open spec fn ids_match_meta(records: Seq<RecordView>) -> bool {
    forall|i: int|
        0 <= i < records.len() && (#[trigger] records[i]).meta is Some
            ==> records[i].meta->Some_0.line_no == records[i].id
}

/// The ids of the records count up from `first`, one by one.
pub open spec fn ids_count_from(records: Seq<RecordView>, first: u64) -> bool {
    forall|i: int|
        0 <= i < records.len() ==> (#[trigger] records[i]).id == advance_id(first, i as nat)
}

/// Each record starts where the one before it ends.
pub open spec fn records_adjacent(records: Seq<RecordView>) -> bool {
    forall|i: int|
        0 <= i && i + 1 < records.len() ==> {
            &&& (#[trigger] records[i]).meta is Some
            &&& records[i + 1].meta is Some
            &&& records[i + 1].meta->Some_0.byte_offset == records[i].meta->Some_0.byte_offset
                + records[i].meta->Some_0.byte_len
        }
}

} // verus!
