use dh_core::formats::parquet::{CellValue, ParquetColumn, ParquetRow};
use dh_core::tasks::{ScanJob, StepOutcome};
use dh_core::{
    CoreEngine, CoreOptions, ExportFormat, ExportRequest, FileFormat, JsonPathSegment,
    SearchMode, SearchQuery, StorageOptions,
};

fn engine() -> CoreEngine {
    CoreEngine::new(CoreOptions {
        default_page_size: 2,
        preview_max_chars: 50,
        raw_max_chars: 200,
        max_concurrent_tasks: 2,
        storage: StorageOptions { sqlite_path: None },
    })
}

fn no_rows() -> Vec<ParquetRow> {
    Vec::new()
}

fn run_scan(eng: &mut CoreEngine, task_id: &str, query: SearchQuery, data: &[u8], csv: bool, json: bool) {
    let mut job = ScanJob::new(query, csv, 50).unwrap();
    loop {
        match eng.tasks.scan_step(task_id, &mut job, data, json) {
            StepOutcome::More => {}
            StepOutcome::Done => {
                eng.tasks.finish_task(task_id, None);
                break;
            }
            StepOutcome::Failed => {
                eng.tasks.finish_task(task_id, Some("scan failed".to_string()));
                break;
            }
        }
    }
}

fn two_rows() -> Vec<ParquetRow> {
    vec![
        ParquetRow {
            columns: vec![
                ParquetColumn { name: "x".to_string(), value: CellValue::Text("hello".to_string()) },
                ParquetColumn { name: "y".to_string(), value: CellValue::Int(1) },
            ],
        },
        ParquetRow {
            columns: vec![
                ParquetColumn { name: "x".to_string(), value: CellValue::Text("world".to_string()) },
                ParquetColumn { name: "y".to_string(), value: CellValue::Int(2) },
            ],
        },
    ]
}

#[test]
fn open_next_page_cursor_no_dup_no_drop() {
    let data = b"a\nb\nc\nd\n";
    let mut eng = engine();
    let (session, p1) = eng.open_file("a.jsonl", data, &no_rows()).unwrap();
    assert_eq!(p1.records.len(), 2);
    assert_eq!(p1.records[0].id, 0);
    assert_eq!(p1.records[1].id, 1);

    let cursor = p1.next_cursor.clone().unwrap();
    let sid = session.session_id.clone();
    let p2 = eng.next_page(&sid, data, &no_rows(), Some(&cursor), 2).unwrap();
    assert_eq!(p2.records.len(), 2);
    assert_eq!(p2.records[0].id, 2);
    assert_eq!(p2.records[1].id, 3);
    assert!(p2.reached_eof);
}

#[test]
fn crlf_and_non_utf8_tolerant() {
    let mut bytes = Vec::new();
    bytes.extend_from_slice(b"a\r\n");
    bytes.extend_from_slice(&[0xff, 0xfe, b'x', b'\r', b'\n']);

    let mut eng = engine();
    let (_session, p1) = eng.open_file("a.csv", &bytes, &no_rows()).unwrap();
    assert_eq!(p1.records.len(), 2);
    assert_eq!(p1.records[0].raw.as_deref().unwrap(), "a");
    assert!(p1.records[1].preview.contains('x'));
}

#[test]
fn search_current_page_works() {
    let data = b"hello\nworld\n";
    let mut eng = engine();
    let (session, _p1) = eng.open_file("a.jsonl", data, &no_rows()).unwrap();
    let res = eng
        .search(
            &session.session_id,
            SearchQuery {
                text: "wor".into(),
                mode: SearchMode::CurrentPage,
                case_sensitive: false,
                max_hits: 100,
            },
        )
        .unwrap();
    assert_eq!(res.hits.len(), 1);
    assert_eq!(res.hits[0].id, 1);
}

#[test]
fn scan_all_search_and_export_selection() {
    let data = b"aa\nbb\naa\n";
    let mut eng = engine();
    let (session, _p1) = eng.open_file("a.jsonl", data, &no_rows()).unwrap();

    let query = SearchQuery {
        text: "aa".into(),
        mode: SearchMode::ScanAll,
        case_sensitive: true,
        max_hits: 100,
    };
    let r = eng.search(&session.session_id, query.clone()).unwrap();
    let task_id = r.task.unwrap().id;
    run_scan(&mut eng, &task_id, query, data, false, false);
    assert!(eng.get_task(&task_id).unwrap().finished);

    let hits_page = eng.search_task_hits_page(&task_id, None, 10).unwrap();
    assert_eq!(hits_page.records.len(), 2);
    assert_eq!(hits_page.records[0].id, 0);
    assert_eq!(hits_page.records[1].id, 2);

    let mut out = Vec::new();
    let ex = eng
        .export(
            &session.session_id,
            data,
            &no_rows(),
            &ExportRequest::Selection { record_ids: vec![2] },
            ExportFormat::Jsonl,
            "out.jsonl",
            &mut out,
        )
        .unwrap();
    assert_eq!(ex.records_written, 1);
    assert_eq!(String::from_utf8(out).unwrap(), "aa\n");
}

#[test]
fn export_csv_to_jsonl_and_json() {
    let data = b"id,name,score\n1,Alice,98\n2,Bob,87\n";
    let mut eng = engine();
    let (session, _p1) = eng.open_file("a.csv", data, &no_rows()).unwrap();

    let mut out1 = Vec::new();
    let ex1 = eng
        .export(
            &session.session_id,
            data,
            &no_rows(),
            &ExportRequest::Selection { record_ids: vec![1, 2] },
            ExportFormat::Jsonl,
            "out.jsonl",
            &mut out1,
        )
        .unwrap();
    assert_eq!(ex1.records_written, 2);
    let s1 = String::from_utf8(out1).unwrap();
    assert!(s1.contains(r#""id":"1""#));
    assert!(s1.contains(r#""name":"Alice""#));

    let mut out2 = Vec::new();
    let ex2 = eng
        .export(
            &session.session_id,
            data,
            &no_rows(),
            &ExportRequest::Selection { record_ids: vec![1] },
            ExportFormat::Json,
            "out.json",
            &mut out2,
        )
        .unwrap();
    assert_eq!(ex2.records_written, 1);
    let s2 = String::from_utf8(out2).unwrap();
    assert!(s2.trim_start().starts_with('['));
    assert!(s2.contains(r#""name":"Alice""#));
}

#[test]
fn export_parquet_to_jsonl() {
    let rows = two_rows();
    let mut eng = engine();
    let (session, _p1) = eng.open_file("a.parquet", b"", &rows).unwrap();

    let chosen = vec![ParquetRow {
        columns: vec![
            ParquetColumn { name: "x".to_string(), value: CellValue::Text("world".to_string()) },
            ParquetColumn { name: "y".to_string(), value: CellValue::Int(2) },
        ],
    }];
    let mut out = Vec::new();
    let ex = eng
        .export(
            &session.session_id,
            b"",
            &chosen,
            &ExportRequest::Selection { record_ids: vec![1] },
            ExportFormat::Jsonl,
            "out.jsonl",
            &mut out,
        )
        .unwrap();
    assert_eq!(ex.records_written, 1);
    let s = String::from_utf8(out).unwrap();
    assert!(s.contains(r#""x":"world""#));
}

#[test]
fn export_json_subtree_root_and_children() {
    let data = br#"[{"a":{"b":[1,2,3]}}]"#;
    let mut eng = engine();
    let (session, p1) = eng.open_file("a.json", data, &no_rows()).unwrap();
    let meta = p1.records[0].meta.clone().unwrap();

    let mut out1 = Vec::new();
    let ex1 = eng
        .export(
            &session.session_id,
            data,
            &no_rows(),
            &ExportRequest::JsonSubtree {
                meta: meta.clone(),
                path: vec![JsonPathSegment::Key("a".into()), JsonPathSegment::Key("b".into())],
                include_root: true,
                children: vec![],
            },
            ExportFormat::Jsonl,
            "subtree.jsonl",
            &mut out1,
        )
        .unwrap();
    assert_eq!(ex1.records_written, 1);
    let s1 = String::from_utf8(out1).unwrap();
    assert_eq!(s1.trim(), "[1,2,3]");

    let mut out2 = Vec::new();
    let ex2 = eng
        .export(
            &session.session_id,
            data,
            &no_rows(),
            &ExportRequest::JsonSubtree {
                meta,
                path: vec![JsonPathSegment::Key("a".into()), JsonPathSegment::Key("b".into())],
                include_root: false,
                children: vec![JsonPathSegment::Index(1)],
            },
            ExportFormat::Jsonl,
            "child.jsonl",
            &mut out2,
        )
        .unwrap();
    assert_eq!(ex2.records_written, 1);
    let s2 = String::from_utf8(out2).unwrap();
    assert_eq!(s2.trim(), "2");
}

#[test]
fn scan_all_search_json_root_array_works() {
    let data = b"[{\"x\":\"hello\"},{\"x\":\"world\"}]";
    let mut eng = engine();
    let (session, _p1) = eng.open_file("a.json", data, &no_rows()).unwrap();

    let query = SearchQuery {
        text: "world".into(),
        mode: SearchMode::ScanAll,
        case_sensitive: true,
        max_hits: 100,
    };
    let r = eng.search(&session.session_id, query.clone()).unwrap();
    let task_id = r.task.unwrap().id;
    run_scan(&mut eng, &task_id, query, data, false, true);

    let hits_page = eng.search_task_hits_page(&task_id, None, 10).unwrap();
    assert_eq!(hits_page.records.len(), 1);
    assert_eq!(hits_page.records[0].id, 1);
    let meta = hits_page.records[0].meta.clone().unwrap();
    assert!(meta.byte_offset > 0);

    let raw = eng.get_record_raw(&session.session_id, data, None, meta).unwrap();
    assert!(raw.contains("world"));
}

#[test]
fn scan_all_search_parquet_works() {
    let rows = two_rows();
    let mut eng = engine();
    let (session, _p1) = eng.open_file("a.parquet", b"", &rows).unwrap();

    let query = SearchQuery {
        text: "world".into(),
        mode: SearchMode::ScanAll,
        case_sensitive: true,
        max_hits: 100,
    };
    let r = eng.search(&session.session_id, query.clone()).unwrap();
    let task_id = r.task.unwrap().id;

    let i = eng.tasks.find_task(&task_id).unwrap();
    let mut job = ScanJob::new(query, false, 50).unwrap();
    let more = dh_core::tasks::run_search_scan_all_parquet(&mut eng.tasks.tasks[i], &mut job, &rows, 2);
    assert!(more);
    let more = dh_core::tasks::run_search_scan_all_parquet(&mut eng.tasks.tasks[i], &mut job, &no_rows(), 2);
    assert!(!more);
    eng.tasks.finish_task(&task_id, None);

    let hits_page = eng.search_task_hits_page(&task_id, None, 10).unwrap();
    assert_eq!(hits_page.records.len(), 1);
    assert_eq!(hits_page.records[0].id, 1);
    let meta = hits_page.records[0].meta.clone().unwrap();

    let raw = eng.get_record_raw(&session.session_id, b"", Some(&rows[1]), meta).unwrap();
    assert!(raw.contains("world"));
}

#[test]
fn json_array_paging_works() {
    let data = b"[\n  {\"x\":1},\n  {\"x\":2},\n  {\"x\":3}\n]\n";
    let mut eng = engine();
    let (session, p1) = eng.open_file("a.json", data, &no_rows()).unwrap();
    assert_eq!(session.format, FileFormat::Json);
    assert_eq!(p1.records.len(), 2);
    assert_eq!(p1.records[0].id, 0);
    assert_eq!(p1.records[1].id, 1);

    let cursor = p1.next_cursor.clone().unwrap();
    let p2 = eng.next_page(&session.session_id, data, &no_rows(), Some(&cursor), 2).unwrap();
    assert_eq!(p2.records.len(), 1);
    assert_eq!(p2.records[0].id, 2);
    assert!(p2.reached_eof);
}

#[test]
fn json_object_root_is_single_record() {
    let data = b"{\n  \"x\": 1,\n  \"y\": \"ok\"\n}\n";
    let mut eng = engine();
    let (session, p1) = eng.open_file("a.json", data, &no_rows()).unwrap();
    assert_eq!(session.format, FileFormat::Json);
    assert_eq!(p1.records.len(), 1);
    assert_eq!(p1.records[0].id, 0);
    assert!(p1.reached_eof);
}

#[test]
fn json_multiple_top_level_values_are_supported() {
    let data = b"{\"x\":1}\n{\"x\":2}\n{\"x\":3}\n";
    let mut eng = engine();
    let (session, p1) = eng.open_file("a.json", data, &no_rows()).unwrap();
    assert_eq!(session.format, FileFormat::Json);
    assert_eq!(p1.records.len(), 2);
    assert_eq!(p1.records[0].id, 0);
    assert_eq!(p1.records[1].id, 1);

    let cursor = p1.next_cursor.clone().unwrap();
    let p2 = eng.next_page(&session.session_id, data, &no_rows(), Some(&cursor), 2).unwrap();
    assert_eq!(p2.records.len(), 1);
    assert_eq!(p2.records[0].id, 2);
    assert!(p2.reached_eof);
}

#[test]
fn json_trailing_nul_bytes_are_ignored() {
    let mut bytes = Vec::new();
    bytes.extend_from_slice(b"[{\"x\":1},{\"x\":2}]\n");
    bytes.extend_from_slice(&[0, 0, 0, 0]);
    let mut eng = engine();
    let (_session, p1) = eng.open_file("a.json", &bytes, &no_rows()).unwrap();
    assert_eq!(p1.records.len(), 2);
    assert!(p1.reached_eof);
}
