use dh_core::engine::{open_progress_pct, read_line_record, read_page};
use dh_core::export::{
    export, export_csv_rows, export_ids, export_json_stream, export_jsonl_to_json_array,
    export_lines_passthrough, normalize_ids, normalize_line_ending, select_records,
    select_values,
};
use dh_core::formats::parquet::{
    duckdb_value_to_json, export_parquet, parquet_window, read_parquet_page,
    read_parquet_row_raw, row_to_json, row_to_line, sanitize_cell, value_to_string, CellEntry,
    CellField, CellValue, ParquetColumn, ParquetRow, TimeUnit,
};
use dh_core::cursor::Cursor;
use dh_core::json_text::JsonCell;
use dh_core::tasks::{TaskManager, TaskManagerOptions};
use dh_core::{
    CoreEngine, CoreError, CoreOptions, ExportFormat, ExportRequest, FileFormat, RecordMeta,
    SearchMode, SearchQuery, StorageOptions,
};

fn options() -> CoreOptions {
    CoreOptions {
        default_page_size: 2,
        preview_max_chars: 50,
        raw_max_chars: 200,
        max_concurrent_tasks: 2,
        storage: StorageOptions { sqlite_path: None },
    }
}

fn row(cells: Vec<(&str, CellValue)>) -> ParquetRow {
    ParquetRow {
        columns: cells
            .into_iter()
            .map(|(name, value)| ParquetColumn { name: name.to_string(), value })
            .collect(),
    }
}

fn no_tasks() -> TaskManager {
    TaskManager::new(TaskManagerOptions { max_concurrent_tasks: 1 })
}

#[test]
fn ids_are_sorted_and_named_once() {
    assert_eq!(normalize_ids(vec![3, 1, 3, 2, 1]), vec![1, 2, 3]);
    assert_eq!(normalize_ids(vec![]), Vec::<u64>::new());
    assert_eq!(normalize_ids(vec![u64::MAX, 0]), vec![0, u64::MAX]);
}

#[test]
fn line_endings_become_one_line_feed() {
    for (given, want) in [
        (&b"a\r\n"[..], &b"a\n"[..]),
        (b"a\n", b"a\n"),
        (b"a", b"a\n"),
        (b"a\r", b"a\n"),
        (b"a\r\r\n", b"a\r\n"),
        (b"", b"\n"),
        (b"\n", b"\n"),
    ] {
        let mut buf = given.to_vec();
        normalize_line_ending(&mut buf);
        assert_eq!(buf, want);
    }
}

#[test]
fn chosen_records_are_found_by_number() {
    let data = b"a\nbb\r\nccc";
    let spans = select_records(data, &[0, 2, 9], false);
    assert_eq!(spans.iter().map(|s| (s.id, s.start, s.end)).collect::<Vec<_>>(), vec![(0, 0, 2), (2, 6, 9)]);
    let spans = select_values(b"[1, 22,, 333 ]", 1, &[1, 2]);
    assert_eq!(spans.iter().map(|s| (s.id, s.start, s.end)).collect::<Vec<_>>(), vec![(1, 4, 6), (2, 9, 12)]);
}

#[test]
fn passthrough_keeps_the_bytes_of_each_line() {
    let data = b"a\xff\r\nbb\ncc";
    let mut out = b"> ".to_vec();
    assert_eq!(export_lines_passthrough(data, &[0, 2], false, &mut out), 2);
    assert_eq!(out, b"> a\xff\ncc\n");
    let csv = b"h\n\"x\ny\",1\r\nz\n";
    let mut out = Vec::new();
    assert_eq!(export_lines_passthrough(csv, &[1], true, &mut out), 1);
    assert_eq!(out, b"\"x\ny\",1\n");
}

#[test]
fn lines_become_a_json_array() {
    let mut out = Vec::new();
    assert_eq!(export_jsonl_to_json_array(b"{\"a\":1}\r\n2\n3", &[0, 2], &mut out), 2);
    assert_eq!(out, b"[\n{\"a\":1},\n3\n]");
    let mut out = Vec::new();
    assert_eq!(export_jsonl_to_json_array(b"1\n", &[5], &mut out), 0);
    assert_eq!(out, b"[]");
}

#[test]
fn csv_rows_become_json_objects() {
    let data = b"id,name\n1,Ann\n2,\"B,ob\"\n";
    let mut out = Vec::new();
    assert_eq!(export_csv_rows(data, &[0, 1, 2], ExportFormat::Jsonl, &mut out).unwrap(), 2);
    assert_eq!(out, b"{\"id\":\"1\",\"name\":\"Ann\"}\n{\"id\":\"2\",\"name\":\"B,ob\"}\n");
    let mut out = Vec::new();
    assert_eq!(export_csv_rows(data, &[2], ExportFormat::Json, &mut out).unwrap(), 1);
    assert_eq!(out, b"[\n{\"id\":\"2\",\"name\":\"B,ob\"}\n]");
    let mut out = Vec::new();
    assert_eq!(export_csv_rows(data, &[0], ExportFormat::Json, &mut out).unwrap(), 0);
    assert_eq!(out, b"[]");
}

#[test]
fn json_elements_are_exported_as_they_stand() {
    let data = b"\xef\xbb\xbf[1, {\"a\": [2]} ,\"x\"]";
    let mut out = Vec::new();
    assert_eq!(export_json_stream(data, &[1, 2], ExportFormat::Jsonl, &mut out), 2);
    assert_eq!(out, b"{\"a\": [2]}\n\"x\"\n");
    let mut out = Vec::new();
    assert_eq!(export_json_stream(data, &[0, 2], ExportFormat::Json, &mut out), 2);
    assert_eq!(out, b"[\n1,\n\"x\"\n]");
    let mut out = Vec::new();
    assert_eq!(export_json_stream(b" [ ] ", &[0], ExportFormat::Json, &mut out), 0);
    assert_eq!(out, b"");
}

#[test]
fn single_root_value_is_exported_bare() {
    let data = b" {\"x\": [1,2]} \n";
    let mut out = Vec::new();
    assert_eq!(export_json_stream(data, &[0], ExportFormat::Json, &mut out), 1);
    assert_eq!(out, b"{\"x\": [1,2]}");
    let mut out = Vec::new();
    assert_eq!(export_json_stream(data, &[0], ExportFormat::Jsonl, &mut out), 1);
    assert_eq!(out, b"{\"x\": [1,2]}\n");
    let mut out = Vec::new();
    assert_eq!(export_json_stream(data, &[1], ExportFormat::Json, &mut out), 0);
    assert_eq!(out, b"[]");
}

#[test]
fn export_goes_by_the_pair_of_formats() {
    let tasks = no_tasks();
    let rows = Vec::new();
    let pick = |ids: Vec<u64>| ExportRequest::Selection { record_ids: ids };
    let mut out = Vec::new();
    assert_eq!(export(&tasks, b"b\na\n", &rows, FileFormat::Jsonl, &pick(vec![1, 0, 1]), ExportFormat::Csv, &mut out).unwrap(), 2);
    assert_eq!(out, b"b\na\n");
    let mut out = Vec::new();
    assert_eq!(export(&tasks, b"b\na\n", &rows, FileFormat::Jsonl, &pick(vec![]), ExportFormat::Json, &mut out).unwrap(), 0);
    assert_eq!(out, b"");
    for (from, to) in [
        (FileFormat::Json, ExportFormat::Csv),
        (FileFormat::Parquet, ExportFormat::Csv),
        (FileFormat::Unknown, ExportFormat::Jsonl),
    ] {
        let mut out = Vec::new();
        match export(&tasks, b"[1]", &rows, from, &pick(vec![0]), to, &mut out) {
            Err(CoreError::UnsupportedFormat(f)) => assert_eq!(f, from),
            _ => panic!("exported"),
        }
        assert!(out.is_empty());
    }
    let subtree = ExportRequest::JsonSubtree {
        meta: RecordMeta { line_no: 0, byte_offset: 0, byte_len: 3 },
        path: vec![],
        include_root: true,
        children: vec![],
    };
    let mut out = Vec::new();
    assert!(matches!(
        export(&tasks, b"[1]", &rows, FileFormat::Jsonl, &subtree, ExportFormat::Json, &mut out),
        Err(CoreError::UnsupportedFormat(FileFormat::Jsonl))
    ));
    assert!(matches!(
        export(&tasks, b"[1]", &rows, FileFormat::Json, &subtree, ExportFormat::Csv, &mut out),
        Err(CoreError::InvalidArg(_))
    ));
    assert_eq!(export(&tasks, b"[1]", &rows, FileFormat::Json, &subtree, ExportFormat::Json, &mut out).unwrap(), 1);
    assert_eq!(out, b"[1]");
    let by_task = ExportRequest::SearchTask { task_id: "none".to_string() };
    assert!(matches!(
        export(&tasks, b"[1]", &rows, FileFormat::Json, &by_task, ExportFormat::Json, &mut out),
        Err(CoreError::Task(_))
    ));
    assert!(matches!(export_ids(&tasks, &by_task), Err(CoreError::Task(_))));
    assert_eq!(export_ids(&tasks, &pick(vec![2, 2, 1])).unwrap(), vec![1, 2]);
}

#[test]
fn cells_are_shown_as_text() {
    assert_eq!(value_to_string(&CellValue::Null), "null");
    assert_eq!(value_to_string(&CellValue::Boolean(true)), "true");
    assert_eq!(value_to_string(&CellValue::Int(-7)), "-7");
    assert_eq!(value_to_string(&CellValue::UInt(u64::MAX)), "18446744073709551615");
    assert_eq!(value_to_string(&CellValue::HugeInt(i128::MAX)), "170141183460469231731687303715884105727");
    assert_eq!(
        value_to_string(&CellValue::Float { text: "1.5".to_string(), json: Some("1.5".to_string()) }),
        "1.5"
    );
    assert_eq!(value_to_string(&CellValue::Decimal("12.30".to_string())), "12.30");
    assert_eq!(value_to_string(&CellValue::Timestamp(TimeUnit::Microsecond, 5)), "timestamp(Microsecond,5)");
    assert_eq!(value_to_string(&CellValue::Time64(TimeUnit::Second, -1)), "time64(Second,-1)");
    assert_eq!(value_to_string(&CellValue::Date32(19000)), "date32(19000)");
    assert_eq!(
        value_to_string(&CellValue::Interval { months: 1, days: -2, nanos: 3 }),
        "interval(1m,-2d,3n)"
    );
    assert_eq!(value_to_string(&CellValue::Blob(vec![1, 2, 3, 4])), "blob(base64:AQIDBA==)");
    assert_eq!(value_to_string(&CellValue::Enum("red".to_string())), "red");
    assert_eq!(
        value_to_string(&CellValue::List(vec![CellValue::Int(1), CellValue::Text("a".to_string()), CellValue::List(vec![])])),
        "[1, a, []]"
    );
    assert_eq!(
        value_to_string(&CellValue::Struct(vec![
            CellField { name: "k".to_string(), value: CellValue::Null },
            CellField { name: "n".to_string(), value: CellValue::UInt(2) },
        ])),
        "{k: null, n: 2}"
    );
    assert_eq!(
        value_to_string(&CellValue::Mapping(vec![CellEntry {
            key: CellValue::Text("a".to_string()),
            value: CellValue::Union(Box::new(CellValue::Boolean(false))),
        }])),
        "{a: false}"
    );
}

#[test]
fn cells_become_json_values() {
    assert!(matches!(duckdb_value_to_json(&CellValue::Null, 64), JsonCell::Null));
    assert!(matches!(duckdb_value_to_json(&CellValue::Int(-1), 64), JsonCell::Int(-1)));
    assert!(matches!(duckdb_value_to_json(&CellValue::UInt(9), 64), JsonCell::UInt(9)));
    assert!(matches!(
        duckdb_value_to_json(&CellValue::Float { text: "NaN".to_string(), json: None }, 64),
        JsonCell::Text(t) if t == "NaN"
    ));
    assert!(matches!(
        duckdb_value_to_json(&CellValue::Float { text: "2".to_string(), json: Some("2.0".to_string()) }, 64),
        JsonCell::Number(t) if t == "2.0"
    ));
    assert!(matches!(
        duckdb_value_to_json(&CellValue::Float { text: "two".to_string(), json: Some("two".to_string()) }, 64),
        JsonCell::Text(t) if t == "two"
    ));
    assert!(matches!(
        duckdb_value_to_json(&CellValue::Float { text: "1e999".to_string(), json: Some("1e999".to_string()) }, 64),
        JsonCell::Text(t) if t == "1e999"
    ));
    assert!(matches!(
        duckdb_value_to_json(&CellValue::Text("abcdef".to_string()), 3),
        JsonCell::Text(t) if t == "abc\u{2026}"
    ));
    assert!(matches!(
        duckdb_value_to_json(&CellValue::HugeInt(5), 64),
        JsonCell::Text(t) if t == "5"
    ));
    assert_eq!(sanitize_cell("a\tb\r\nc"), "a b  c");
}

#[test]
fn rows_become_pages() {
    let rows = vec![
        row(vec![("x", CellValue::Text("he\tllo".to_string())), ("y", CellValue::Int(1))]),
        row(vec![
            ("f", CellValue::Float { text: "2.5".to_string(), json: Some("2.5".to_string()) }),
            ("b", CellValue::Boolean(false)),
            ("n", CellValue::Null),
        ]),
    ];
    assert_eq!(row_to_line(&rows[0]), "he llo\t1");
    assert_eq!(row_to_json(&rows[1], 64).as_deref(), Some(r#"{"b":false,"f":2.5,"n":null}"#));
    let (page, next) = read_parquet_page(&rows, Cursor { offset: 0, line: 4 }, 2, 4, 200).unwrap();
    assert_eq!(page.records.len(), 2);
    assert_eq!((page.records[0].id, page.records[1].id), (4, 5));
    assert_eq!(page.records[0].preview, "he l\u{2026}");
    assert_eq!(page.records[0].raw.as_deref(), Some(r#"{"x":"he\tllo","y":1}"#));
    assert_eq!(page.records[0].meta, Some(RecordMeta { line_no: 4, byte_offset: 0, byte_len: 0 }));
    assert_eq!(page.records[1].meta, Some(RecordMeta { line_no: 5, byte_offset: 0, byte_len: 0 }));
    let (cut, cut_next) = read_parquet_page(&rows, Cursor { offset: 0, line: 0 }, 1, 4, 200).unwrap();
    assert_eq!(cut.records.len(), 1);
    assert!(!cut.reached_eof);
    assert_eq!(cut_next, Some(Cursor { offset: 0, line: 1 }));
    assert!(!page.reached_eof);
    assert_eq!(next, Some(Cursor { offset: 0, line: 6 }));
    let (page, next) = read_parquet_page(&rows, Cursor { offset: 0, line: 0 }, 3, 4, 200).unwrap();
    assert!(page.reached_eof && next.is_none());
    assert_eq!(page.records.len(), 2);
    let none: Vec<ParquetRow> = Vec::new();
    let (page, next) = read_parquet_page(&none, Cursor { offset: 0, line: 0 }, 0, 4, 200).unwrap();
    assert!(page.records.is_empty() && next.is_none());
    assert!(matches!(
        read_parquet_page(&rows, Cursor { offset: 0, line: u64::MAX }, 2, 4, 200),
        Err(CoreError::InvalidArg(_))
    ));
    assert_eq!(parquet_window(Cursor { offset: 9, line: 40 }, 10).unwrap(), (10, 40));
}

#[test]
fn raw_rows_and_row_export() {
    let long = "z".repeat(3000);
    let r = row(vec![("t", CellValue::Text(long.clone()))]);
    let raw = read_parquet_row_raw(Some(&r), 3, 100_000_000).unwrap();
    assert_eq!(raw, format!("{{\"t\":\"{}\"}}", long));
    let cut = read_parquet_row_raw(Some(&r), 3, 10).unwrap();
    assert_eq!(cut, format!("{{\"t\":\"{}\u{2026}\"}}", "z".repeat(64)));
    assert!(matches!(read_parquet_row_raw(None, 3, 10), Err(CoreError::InvalidArg(_))));
    assert!(matches!(read_parquet_row_raw(Some(&r), u64::MAX, 10), Err(CoreError::InvalidArg(_))));

    let rows = vec![r, row(vec![("k", CellValue::Int(1))])];
    let mut out = Vec::new();
    assert_eq!(export_parquet(&rows, ExportFormat::Jsonl, &mut out).unwrap(), 2);
    assert_eq!(out, format!("{{\"t\":\"{}\"}}\n{{\"k\":1}}\n", long).into_bytes());
    let one = vec![row(vec![("k", CellValue::Int(1))])];
    let mut out = Vec::new();
    assert_eq!(export_parquet(&one, ExportFormat::Json, &mut out).unwrap(), 1);
    assert_eq!(out, b"[\n{\"k\":1}\n]");
    let none: Vec<ParquetRow> = Vec::new();
    let mut out = Vec::new();
    assert_eq!(export_parquet(&none, ExportFormat::Json, &mut out).unwrap(), 0);
    assert_eq!(out, b"[]");
}

#[test]
fn whole_line_records_are_read_within_bounds() {
    let data = b"ab\r\n\0cd\n";
    assert_eq!(read_line_record(data, RecordMeta { line_no: 0, byte_offset: 0, byte_len: 5 }).unwrap(), "ab");
    assert_eq!(read_line_record(data, RecordMeta { line_no: 1, byte_offset: 5, byte_len: 3 }).unwrap(), "cd");
    assert_eq!(read_line_record(data, RecordMeta { line_no: 1, byte_offset: 8, byte_len: 0 }).unwrap(), "");
    for meta in [
        RecordMeta { line_no: 0, byte_offset: 9, byte_len: 0 },
        RecordMeta { line_no: 0, byte_offset: 5, byte_len: 4 },
        RecordMeta { line_no: 0, byte_offset: 0, byte_len: 52_428_801 },
        RecordMeta { line_no: 0, byte_offset: u64::MAX, byte_len: u64::MAX },
    ] {
        assert!(matches!(read_line_record(data, meta), Err(CoreError::InvalidArg(_))));
    }
}

#[test]
fn pages_are_read_by_format_with_defaults() {
    let opts = options();
    let rows = Vec::new();
    let page = read_page(&opts, b"1\n2\n3\n", &rows, FileFormat::Jsonl, None, 0).unwrap();
    assert_eq!(page.records.len(), 2);
    let next = page.next_cursor.unwrap();
    let page = read_page(&opts, b"1\n2\n3\n", &rows, FileFormat::Jsonl, Some(&next), 5).unwrap();
    assert_eq!(page.records.len(), 1);
    assert_eq!(page.records[0].id, 2);
    assert!(page.reached_eof && page.next_cursor.is_none());
    assert!(matches!(
        read_page(&opts, b"1\n", &rows, FileFormat::Unknown, None, 0),
        Err(CoreError::UnsupportedFormat(FileFormat::Unknown))
    ));
    assert!(matches!(
        read_page(&opts, b"1\n", &rows, FileFormat::Csv, Some("???"), 0),
        Err(CoreError::BadCursor(_))
    ));
    assert_eq!(open_progress_pct(1, 3), Some(33));
    assert_eq!(open_progress_pct(7, 7), Some(100));
    assert_eq!(open_progress_pct(9, 7), Some(100));
    assert_eq!(open_progress_pct(1, 0), None);
}

#[test]
fn engine_guards_sessions_and_formats() {
    let mut eng = CoreEngine::new(options());
    let rows = Vec::new();
    assert!(matches!(
        eng.open_file("notes.txt", b"x", &rows),
        Err(CoreError::UnsupportedFormat(FileFormat::Unknown))
    ));
    assert!(matches!(eng.next_page("nope", b"", &rows, None, 1), Err(CoreError::UnknownSession(s)) if s == "nope"));
    let (session, page) = eng.open_file("dir/a.jsonl", b"{\"k\":[1,2]}\nx\n", &rows).unwrap();
    assert_eq!(session.path, "dir/a.jsonl");
    assert_eq!(session.format, FileFormat::Jsonl);
    assert_eq!(session.session_id.len(), 36);
    let sid = session.session_id.clone();
    let meta = page.records[0].meta.unwrap();

    let q = |mode| SearchQuery { text: "x".to_string(), mode, case_sensitive: true, max_hits: 5 };
    assert!(matches!(eng.search(&sid, q(SearchMode::Indexed)), Err(CoreError::InvalidArg(_))));
    assert!(matches!(eng.search("nope", q(SearchMode::CurrentPage)), Err(CoreError::UnknownSession(_))));
    let found = eng.search(&sid, q(SearchMode::CurrentPage)).unwrap();
    assert_eq!(found.hits.iter().map(|r| r.id).collect::<Vec<_>>(), vec![1]);

    assert!(matches!(
        eng.json_list_children(&sid, b"", meta, &[], None, 0),
        Err(CoreError::UnsupportedFormat(FileFormat::Jsonl))
    ));
    assert!(matches!(
        eng.json_node_summary(&sid, b"", meta, &[], None, None),
        Err(CoreError::UnsupportedFormat(FileFormat::Jsonl))
    ));
    let data = b"{\"k\":[1,2]}\nx\n";
    let kids = eng.json_list_children_at_offset(&sid, data, meta, 0, None, None, 0).unwrap();
    assert_eq!(kids.items.len(), 1);
    assert_eq!(kids.items[0].value_offset, 5);
    let summary = eng.json_node_summary_at_offset(&sid, data, meta, 5, None, None).unwrap();
    assert_eq!(summary.child_count, Some(2));
    let later = RecordMeta { line_no: 1, byte_offset: 12, byte_len: 2 };
    assert!(matches!(
        eng.json_list_children_at_offset(&sid, data, later, 5, None, None, 0),
        Err(CoreError::InvalidArg(_))
    ));
    assert!(matches!(
        eng.json_node_summary_at_offset(&sid, data, later, 5, None, None),
        Err(CoreError::InvalidArg(_))
    ));
    assert_eq!(eng.get_record_raw(&sid, data, None, later).unwrap(), "x");
    assert_eq!(eng.get_stats(&sid).unwrap().message, "not implemented");
    assert!(matches!(eng.get_task("nope"), Err(CoreError::Task(_))));
    assert!(matches!(eng.cancel_task("nope"), Err(CoreError::Task(_))));
    assert!(matches!(eng.search_task_hits_page("nope", None, 1), Err(CoreError::Task(_))));

    let again = eng
        .open_session(sid.clone(), 9, "other.csv", FileFormat::Csv, b"h\n1\n", &rows)
        .unwrap();
    assert_eq!(again.0.session_id, sid);
    assert_eq!(eng.sessions.len(), 1);
    assert_eq!(eng.sessions[0].format, FileFormat::Csv);
    assert_eq!(eng.sessions[0].info.path, "other.csv");
    let (_, _, progress) = eng.open_file_with_progress("p.json", b"[1,2,3,4,5,6,7,8,9]", &rows).unwrap();
    assert_eq!(progress, vec![0, 26, 100]);
    let (_, _, progress) = eng.open_file_with_progress("p.jsonl", b"1\n2\n3\n", &rows).unwrap();
    assert_eq!(progress, vec![0, 100]);
    let (json, first) = eng.open_file("b.JSON", b"[{\"a\":{\"b\":1}}]", &rows).unwrap();
    let m = first.records[0].meta.unwrap();
    let kids = eng.json_list_children(&json.session_id, b"[{\"a\":{\"b\":1}}]", m, &[], None, 0).unwrap();
    assert_eq!(kids.items.len(), 1);
    let s = eng.json_node_summary(&json.session_id, b"[{\"a\":{\"b\":1}}]", m, &[], Some(10), Some(10)).unwrap();
    assert_eq!(s.child_count, Some(1));
}
