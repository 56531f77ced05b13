use dh_core::formats::parquet::ParquetRow;
use dh_core::search_match::{
    parse_key_value_query, search_current_page, strip_quotes, PreparedSearch,
};
use dh_core::tasks::{
    push_hit, run_search_scan_all, run_search_scan_all_json_root_array,
    run_search_scan_all_lines, scan_json_step, scan_lines_step, ScanJob, SearchHit, StepOutcome,
    TaskManager, TaskManagerOptions, TaskState,
};
use dh_core::{
    CoreError, FileFormat, Record, RecordMeta, RecordPage, SearchMode, SearchQuery, TaskKind,
};

fn query(text: &str, case_sensitive: bool, max_hits: u64) -> SearchQuery {
    SearchQuery { text: text.to_string(), mode: SearchMode::ScanAll, case_sensitive, max_hits }
}

fn record(id: u64, preview: &str, raw: Option<&str>) -> Record {
    Record {
        id,
        preview: preview.to_string(),
        raw: raw.map(|s| s.to_string()),
        meta: Some(RecordMeta { line_no: id, byte_offset: 0, byte_len: 0 }),
    }
}

fn hit_ids(state: &TaskState) -> Vec<u64> {
    state.search_hits.iter().map(|h| h.line_no).collect()
}

#[test]
fn quotes_are_stripped_in_pairs() {
    assert_eq!(strip_quotes("  \"ab\" "), "ab");
    assert_eq!(strip_quotes("'x'"), "x");
    assert_eq!(strip_quotes("\"x'"), "\"x'");
    assert_eq!(strip_quotes("\""), "\"");
    assert_eq!(strip_quotes("\"\""), "");
    assert_eq!(strip_quotes("\u{2003} a b\t\n"), "a b");
}

#[test]
fn key_value_queries_are_split_at_the_first_colon() {
    assert_eq!(
        parse_key_value_query(" name : \"Alice:B\" "),
        Some(("name".to_string(), "Alice:B".to_string()))
    );
    assert_eq!(parse_key_value_query("'k':v"), Some(("k".to_string(), "v".to_string())));
    assert_eq!(parse_key_value_query(":x"), None);
    assert_eq!(parse_key_value_query("a:"), None);
    assert_eq!(parse_key_value_query("a: "), None);
    assert_eq!(parse_key_value_query("\"\":x"), None);
    assert_eq!(parse_key_value_query("plain"), None);
}

#[test]
fn matcher_holds_bare_and_quoted_forms() {
    let m = PreparedSearch::new(&query("  A\"b  ", false, 1)).unwrap();
    assert_eq!(m.q, "a\"b");
    assert_eq!(m.q_quoted, "\"a\\\"b\"");
    assert!(m.kv.is_none());
    let m = PreparedSearch::new(&query("Name:Alice", true, 1)).unwrap();
    assert_eq!(m.q, "Name:Alice");
    let kv = m.kv.unwrap();
    assert_eq!((kv.key.as_str(), kv.key_quoted.as_str()), ("Name", "\"Name\""));
    assert_eq!((kv.value.as_str(), kv.value_quoted.as_str()), ("Alice", "\"Alice\""));
    assert!(PreparedSearch::new(&query("", false, 1)).is_none());
    assert!(PreparedSearch::new(&query(" \t\n", false, 1)).is_none());
}

#[test]
fn matcher_asks_for_key_and_value() {
    let m = PreparedSearch::new(&query("name:alice", false, 1)).unwrap();
    assert!(m.matches_in_hay("{\"name\":\"alice\"}"));
    assert!(m.matches_in_hay("alice is a name"));
    assert!(!m.matches_in_hay("{\"name\":\"bob\"}"));
    assert!(!m.matches_in_hay("alice"));
    let m = PreparedSearch::new(&query("wor", false, 1)).unwrap();
    assert!(m.matches_in_hay("hello world"));
    assert!(!m.matches_in_hay("hello"));
    assert!(!m.matches_in_hay("w or"));
}

#[test]
fn current_page_search_keeps_matching_records_in_order() {
    let page = RecordPage {
        records: vec![
            record(0, "Hello", Some("x")),
            record(1, "no", Some("say HELLO")),
            record(2, "no", None),
            record(3, "hel", Some("lo")),
        ],
        next_cursor: None,
        reached_eof: true,
    };
    let found = search_current_page(&page, &query("hello", false, 1));
    assert_eq!(found.hits.iter().map(|r| r.id).collect::<Vec<_>>(), vec![0, 1]);
    assert_eq!(found.mode, SearchMode::CurrentPage);
    assert!(found.task.is_none() && !found.truncated);
    assert_eq!(found.hits[1].raw.as_deref(), Some("say HELLO"));
    let found = search_current_page(&page, &query("hello", true, 1));
    assert!(found.hits.is_empty());
    let found = search_current_page(&page, &query("hel\nlo", true, 1));
    assert_eq!(found.hits.iter().map(|r| r.id).collect::<Vec<_>>(), vec![3]);
    let found = search_current_page(&page, &query("  ", true, 1));
    assert!(found.hits.is_empty());
}

#[test]
fn hits_stop_at_the_bound_and_mark_the_task() {
    let mut state = TaskState::new_search("t".to_string(), 5);
    let q = query("x", true, 2);
    for i in 0..3u64 {
        push_hit(&mut state, &q, SearchHit { line_no: i, byte_offset: 0, byte_len: 0, preview: String::new() });
        assert_eq!(state.truncated, i == 2);
    }
    assert_eq!(hit_ids(&state), vec![0, 1]);
}

#[test]
fn line_scan_finds_hits_with_their_places() {
    let data = b"Apple\r\nbanana\napple pie\n";
    let mut state = TaskState::new_search("t".to_string(), 5);
    run_search_scan_all_lines(&mut state, data, false, query("apple", false, 10), 4).unwrap();
    assert_eq!(hit_ids(&state), vec![0, 2]);
    assert_eq!(state.search_hits[0].preview, "Appl\u{2026}");
    assert_eq!((state.search_hits[1].byte_offset, state.search_hits[1].byte_len), (14, 10));
    assert!(!state.truncated && !state.finished);
    assert_eq!(state.progress, 99);

    let mut state = TaskState::new_search("t".to_string(), 5);
    run_search_scan_all_lines(&mut state, data, false, query("apple", true, 10), 4).unwrap();
    assert_eq!(hit_ids(&state), vec![2]);

    let mut state = TaskState::new_search("t".to_string(), 5);
    run_search_scan_all_lines(&mut state, data, false, query("a", false, 1), 4).unwrap();
    assert_eq!(hit_ids(&state), vec![0]);
    assert!(state.truncated);

    let mut state = TaskState::new_search("t".to_string(), 5);
    assert!(run_search_scan_all_lines(&mut state, data, false, query("  ", false, 1), 4).is_err());
}

#[test]
fn csv_scan_counts_records_not_lines() {
    let data = b"k,v\n1,\"a\nb\"\n2,b\n";
    let mut state = TaskState::new_search("t".to_string(), 5);
    run_search_scan_all_lines(&mut state, data, true, query("b", true, 10), 10).unwrap();
    assert_eq!(hit_ids(&state), vec![1, 2]);
    assert_eq!(state.search_hits[0].byte_offset, 4);
    assert_eq!(state.search_hits[0].byte_len, 8);
}

#[test]
fn progress_rises_step_by_step() {
    let data = b"aaaa\nbbbb\ncccc\ndddd\n";
    let mut state = TaskState::new_search("t".to_string(), 5);
    let mut job = ScanJob::new(query("zz", true, 10), false, 10).unwrap();
    let mut seen = Vec::new();
    while scan_lines_step(&mut state, &mut job, data) {
        seen.push(state.progress);
    }
    assert_eq!(seen, vec![25, 50, 75, 99]);
    state.set_progress(1, 100);
    assert_eq!(state.progress, 99);
    state.finish(None);
    assert!(state.finished);
    assert_eq!(state.progress, 100);
    state.set_progress(1, 100);
    assert_eq!(state.progress, 100);
}

#[test]
fn cancelled_scan_stops_and_adds_nothing() {
    let data = b"x1\nx2\nx3\n";
    let mut state = TaskState::new_search("t".to_string(), 5);
    let mut job = ScanJob::new(query("x", true, 10), false, 10).unwrap();
    assert!(scan_lines_step(&mut state, &mut job, data));
    state.cancelled = true;
    assert!(!scan_lines_step(&mut state, &mut job, data));
    assert_eq!(scan_json_step(&mut state, &mut job, data), StepOutcome::Done);
    assert_eq!(hit_ids(&state), vec![0]);
    state.finish(None);
    assert!(state.finished);
    assert_eq!(state.progress, 100);
    assert_eq!(hit_ids(&state), vec![0]);

    let mut state = TaskState::new_search("t".to_string(), 5);
    state.cancelled = true;
    run_search_scan_all_lines(&mut state, data, false, query("x", true, 10), 4).unwrap();
    assert!(state.search_hits.is_empty());
}

#[test]
fn finished_task_takes_no_more_hits() {
    let data = b"x1\nx2\nx3\n";
    let mut state = TaskState::new_search("t".to_string(), 5);
    let mut job = ScanJob::new(query("x", true, 10), false, 10).unwrap();
    assert!(scan_lines_step(&mut state, &mut job, data));
    state.finish(None);
    assert!(!scan_lines_step(&mut state, &mut job, data));
    assert_eq!(scan_json_step(&mut state, &mut job, data), StepOutcome::Done);
    run_search_scan_all_lines(&mut state, data, false, query("x", true, 10), 4).unwrap();
    run_search_scan_all_json_root_array(&mut state, b"[\"x\"]", query("x", true, 10), 4).unwrap();
    assert_eq!(hit_ids(&state), vec![0]);
    assert_eq!(state.progress, 100);
}

#[test]
fn registry_is_keyed_by_id() {
    let mut tasks = TaskManager::new(TaskManagerOptions { max_concurrent_tasks: 3 });
    let q = query("x", true, 1);
    tasks.register_search_task("a".to_string(), 1, FileFormat::Jsonl, &q).unwrap();
    tasks.register_search_task("b".to_string(), 2, FileFormat::Jsonl, &q).unwrap();
    assert_eq!(tasks.running, 2);
    tasks.register_search_task("a".to_string(), 3, FileFormat::Jsonl, &q).unwrap();
    assert_eq!(tasks.tasks.len(), 2);
    assert_eq!(tasks.running, 2);
    assert_eq!(tasks.get_task("a").unwrap().started_at_ms, 3);
    tasks.finish_task("b", None);
    assert_eq!(tasks.running, 1);
    tasks.register_search_task("b".to_string(), 4, FileFormat::Jsonl, &q).unwrap();
    assert_eq!(tasks.tasks.len(), 2);
    assert_eq!(tasks.running, 2);
    assert!(!tasks.get_task("b").unwrap().finished);
}

#[test]
fn snapshot_shows_truncation() {
    let mut tasks = TaskManager::new(TaskManagerOptions { max_concurrent_tasks: 1 });
    let q = query("x", true, 1);
    tasks.register_search_task("a".to_string(), 1, FileFormat::Jsonl, &q).unwrap();
    let mut job = ScanJob::new(q, false, 10).unwrap();
    assert!(!tasks.get_task("a").unwrap().truncated);
    while tasks.scan_step("a", &mut job, b"x\nx\n", false) == StepOutcome::More {}
    let snapshot = tasks.get_task("a").unwrap();
    assert!(snapshot.truncated);
    assert!(!snapshot.finished);
    assert_eq!(snapshot.progress_0_100, 99);
}

#[test]
fn trimming_follows_the_white_space_property() {
    let listed = |c: char| {
        ('\u{9}'..='\u{d}').contains(&c)
            || c == ' '
            || c == '\u{85}'
            || c == '\u{a0}'
            || c == '\u{1680}'
            || ('\u{2000}'..='\u{200a}').contains(&c)
            || c == '\u{2028}'
            || c == '\u{2029}'
            || c == '\u{202f}'
            || c == '\u{205f}'
            || c == '\u{3000}'
    };
    for code in 0..=0x10FFFFu32 {
        if let Some(c) = char::from_u32(code) {
            assert_eq!(c.is_whitespace(), listed(c), "U+{:04X}", code);
        }
    }
    for c in ['\u{85}', '\u{2003}', '\u{3000}', '\t'] {
        assert_eq!(strip_quotes(&format!("{c}a{c}")), "a");
    }
    assert_eq!(strip_quotes("\u{200b}a"), "\u{200b}a");
}

#[test]
fn json_scan_needs_a_root_array() {
    let mut state = TaskState::new_search("t".to_string(), 5);
    assert!(run_search_scan_all_json_root_array(&mut state, b"{\"a\":1}", query("a", true, 10), 5).is_err());
    assert!(state.search_hits.is_empty());

    let mut data = vec![0xEF, 0xBB, 0xBF];
    data.extend_from_slice(b" [ {\"a\":1},, \"a\" , 2 ] [\"a\"]");
    let mut state = TaskState::new_search("t".to_string(), 5);
    run_search_scan_all_json_root_array(&mut state, &data, query("a", true, 10), 5).unwrap();
    assert_eq!(hit_ids(&state), vec![0, 1]);
    assert_eq!((state.search_hits[0].byte_offset, state.search_hits[0].byte_len), (6, 7));
    assert_eq!((state.search_hits[1].byte_offset, state.search_hits[1].byte_len), (16, 3));

    let mut state = TaskState::new_search("t".to_string(), 5);
    run_search_scan_all_json_root_array(&mut state, b"[]", query("a", true, 10), 5).unwrap();
    assert!(state.search_hits.is_empty());
}

#[test]
fn scan_of_an_unknown_format_fails() {
    let mut state = TaskState::new_search("t".to_string(), 5);
    let rows: Vec<ParquetRow> = Vec::new();
    assert!(run_search_scan_all(&mut state, b"a\n", &rows, FileFormat::Unknown, query("a", true, 1), 5).is_err());
    run_search_scan_all(&mut state, b"a\n", &rows, FileFormat::Jsonl, query("a", true, 1), 5).unwrap();
    assert_eq!(hit_ids(&state), vec![0]);
}

#[test]
fn registry_bounds_running_tasks() {
    let mut tasks = TaskManager::new(TaskManagerOptions { max_concurrent_tasks: 1 });
    let q = query("x", true, 10);
    assert!(matches!(
        tasks.start_search_scan_all(FileFormat::Unknown, &q),
        Err(CoreError::UnsupportedFormat(FileFormat::Unknown))
    ));
    assert!(matches!(
        tasks.start_search_scan_all(FileFormat::Jsonl, &query("", true, 10)),
        Err(CoreError::InvalidArg(_))
    ));
    let first = tasks.start_search_scan_all(FileFormat::Jsonl, &q).unwrap();
    assert_eq!(first.id.len(), 36);
    assert_eq!(tasks.running, 1);
    assert!(matches!(tasks.start_search_scan_all(FileFormat::Jsonl, &q), Err(CoreError::Task(_))));
    let snapshot = tasks.get_task(&first.id).unwrap();
    assert_eq!(snapshot.kind, TaskKind::SearchScanAll);
    assert!(snapshot.cancellable && !snapshot.finished);
    assert_eq!(snapshot.progress_0_100, 0);
    assert!(snapshot.started_at_ms > 1_600_000_000_000);
    tasks.finish_task(&first.id, Some("boom".to_string()));
    assert_eq!(tasks.running, 0);
    let snapshot = tasks.get_task(&first.id).unwrap();
    assert!(snapshot.finished);
    assert_eq!(snapshot.progress_0_100, 100);
    assert_eq!(snapshot.error.as_deref(), Some("boom"));
    tasks.finish_task(&first.id, None);
    assert_eq!(tasks.running, 0);
    let second = tasks.start_search_scan_all(FileFormat::Csv, &q).unwrap();
    assert_ne!(second.id, first.id);
    assert!(tasks.get_task("nope").is_err());
    assert!(tasks.cancel_task("nope").is_err());
    tasks.cancel_task(&second.id).unwrap();
    assert!(tasks.tasks[1].cancelled);
    tasks.tasks[1].cancellable = false;
    assert!(tasks.cancel_task(&second.id).is_err());
}

#[test]
fn hits_are_paged_by_index() {
    let mut tasks = TaskManager::new(TaskManagerOptions { max_concurrent_tasks: 2 });
    let q = query("x", true, 10);
    tasks.register_search_task("task-1".to_string(), 7, FileFormat::Jsonl, &q).unwrap();
    let data = b"x0\ny\nx2\nx3\n";
    let mut job = ScanJob::new(q, false, 10).unwrap();
    while tasks.scan_step("task-1", &mut job, data, false) == StepOutcome::More {}
    assert_eq!(tasks.scan_step("missing", &mut job, data, false), StepOutcome::Done);
    assert_eq!(tasks.get_search_task_hit_ids("task-1").unwrap(), vec![0, 2, 3]);

    let p1 = tasks.search_task_hits_page("task-1", None, 2).unwrap();
    assert_eq!(p1.records.iter().map(|r| r.id).collect::<Vec<_>>(), vec![0, 2]);
    assert!(p1.records.iter().all(|r| r.raw.is_none()));
    assert_eq!(p1.records[1].meta, Some(RecordMeta { line_no: 2, byte_offset: 5, byte_len: 3 }));
    assert!(!p1.reached_eof);
    let p2 = tasks.search_task_hits_page("task-1", p1.next_cursor.as_deref(), 2).unwrap();
    assert_eq!(p2.records.iter().map(|r| r.id).collect::<Vec<_>>(), vec![3]);
    assert!(p2.reached_eof && p2.next_cursor.is_none());
    let all = tasks.search_task_hits_page("task-1", Some(""), 0).unwrap();
    assert_eq!(all.records.len(), 3);
    assert!(tasks.search_task_hits_page("task-1", Some("%%"), 2).is_err());
    assert!(tasks.search_task_hits_page("missing", None, 2).is_err());
    tasks.tasks[0].kind = TaskKind::Export;
    assert!(tasks.search_task_hits_page("task-1", None, 2).is_err());
    assert!(tasks.get_search_task_hit_ids("task-1").is_err());
}

#[test]
fn later_polls_fit_earlier_ones() {
    let mut tasks = TaskManager::new(TaskManagerOptions { max_concurrent_tasks: 2 });
    let q = query("x", true, 10);
    tasks.register_search_task("t".to_string(), 3, FileFormat::Jsonl, &q).unwrap();
    let data = b"x0\ny\nx2\nx3\nx4\n";
    let mut job = ScanJob::new(q, false, 10).unwrap();
    let mut polls = vec![tasks.get_task("t").unwrap()];
    let mut ids = vec![tasks.get_search_task_hit_ids("t").unwrap()];
    for _ in 0..3 {
        tasks.scan_step("t", &mut job, data, false);
        polls.push(tasks.get_task("t").unwrap());
        ids.push(tasks.get_search_task_hit_ids("t").unwrap());
    }
    tasks.cancel_task("t").unwrap();
    tasks.scan_step("t", &mut job, data, false);
    polls.push(tasks.get_task("t").unwrap());
    ids.push(tasks.get_search_task_hit_ids("t").unwrap());
    tasks.finish_task("t", None);
    polls.push(tasks.get_task("t").unwrap());
    ids.push(tasks.get_search_task_hit_ids("t").unwrap());
    tasks.scan_step("t", &mut job, data, false);
    tasks.finish_task("t", Some("late".to_string()));
    polls.push(tasks.get_task("t").unwrap());
    ids.push(tasks.get_search_task_hit_ids("t").unwrap());

    assert_eq!(ids[3], vec![0, 2]);
    for i in 1..polls.len() {
        assert!(polls[i].progress_0_100 >= polls[i - 1].progress_0_100);
        assert!(!polls[i - 1].finished || polls[i].finished);
        assert_eq!(polls[i].finished, polls[i].progress_0_100 == 100);
        assert_eq!(&ids[i][..ids[i - 1].len()], &ids[i - 1][..]);
    }
    assert!(tasks.tasks[0].cancelled && !polls[4].finished);
    assert_eq!(ids[4], vec![0, 2]);
    assert!(polls[5].finished);
    assert_eq!(ids[6], vec![0, 2]);
    assert_eq!(polls[6].progress_0_100, 100);
}
