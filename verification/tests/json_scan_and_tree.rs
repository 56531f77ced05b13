use dh_core::formats::json::{
    export_json_subtree_stream, read_json_string, seek_to_subtree, skip_json_string_literal,
};
use dh_core::formats::json_page::{read_json_page, read_json_page_with_progress, read_json_value_at_offset};
use dh_core::formats::json_tree::{
    json_node_summary, json_node_summary_at_offset, list_json_children_page,
    list_json_children_page_at_offset, preview_from_scan,
};
use dh_core::formats::scan::{
    is_ignorable_head_byte, scan_value_end, skip_ws_and_nul, StopBytes,
};
use dh_core::cursor::Cursor;
use dh_core::models::kind_from_first_byte;
use dh_core::{CoreError, ExportFormat, JsonNodeKind, JsonPathSegment};

fn texts(page: &dh_core::formats::page::LinesPageInternal) -> Vec<String> {
    page.records.iter().map(|r| r.raw.clone().unwrap()).collect()
}

#[test]
fn padding_is_skipped() {
    assert_eq!(skip_ws_and_nul(b" \n\t\r\0[1]", 0), 5);
    assert_eq!(skip_ws_and_nul(b"  ", 0), 2);
    assert_eq!(skip_ws_and_nul(b"\x0c1", 0), 0);
    assert!(is_ignorable_head_byte(0));
    assert!(!is_ignorable_head_byte(b'a'));
}

#[test]
fn value_end_honours_strings_escapes_and_depth() {
    assert_eq!(scan_value_end(b"{\"a\":[1,2,\"x,y\"]},2", 0, StopBytes::InArray), 17);
    assert_eq!(scan_value_end(br#""a\"b,c",1"#, 0, StopBytes::InArray), 8);
    assert_eq!(scan_value_end(br#""a\\",1"#, 0, StopBytes::InArray), 5);
    assert_eq!(scan_value_end(b"123 ,4", 0, StopBytes::InArray), 3);
    assert_eq!(scan_value_end(b"true]", 0, StopBytes::InArray), 4);
    assert_eq!(scan_value_end(b"true]", 0, StopBytes::InObject), 5);
    assert_eq!(scan_value_end(b"1}", 0, StopBytes::InObject), 1);
    assert_eq!(scan_value_end(b"1}", 0, StopBytes::InArray), 2);
    assert_eq!(scan_value_end(b"1}", 0, StopBytes::Any), 1);
    assert_eq!(scan_value_end(b",1", 0, StopBytes::InArray), 0);
    assert_eq!(scan_value_end(b"[1,[2", 0, StopBytes::InArray), 5);
    assert_eq!(scan_value_end(b"12\x003", 0, StopBytes::InArray), 2);
    assert_eq!(scan_value_end(b"", 0, StopBytes::InArray), 0);
}

#[test]
fn kind_comes_from_the_first_byte() {
    assert_eq!(kind_from_first_byte(b'{'), JsonNodeKind::Object);
    assert_eq!(kind_from_first_byte(b'['), JsonNodeKind::Array);
    assert_eq!(kind_from_first_byte(b'"'), JsonNodeKind::String);
    assert_eq!(kind_from_first_byte(b't'), JsonNodeKind::Boolean);
    assert_eq!(kind_from_first_byte(b'f'), JsonNodeKind::Boolean);
    assert_eq!(kind_from_first_byte(b'n'), JsonNodeKind::Null);
    assert_eq!(kind_from_first_byte(b'-'), JsonNodeKind::Number);
    assert_eq!(kind_from_first_byte(b'7'), JsonNodeKind::Number);
    assert_eq!(kind_from_first_byte(b'?'), JsonNodeKind::Unknown);
}

#[test]
fn string_literals_are_found_and_decoded() {
    assert_eq!(skip_json_string_literal(br#"  "a\"b":1"#, 0).unwrap(), (2, 8));
    assert!(skip_json_string_literal(b"  12", 0).is_err());
    assert!(skip_json_string_literal(b"\"open", 0).is_err());
    let (text, end) = read_json_string("\"a\\n\u{e9}\" ".as_bytes(), 0).unwrap();
    assert_eq!(text, "a\n\u{e9}");
    assert_eq!(end, 7);
    match read_json_string(br#""\x""#, 0) {
        Err(CoreError::InvalidArg(msg)) => {
            assert!(msg.starts_with("invalid json string: "));
            assert!(msg.len() > "invalid json string: ".len());
        }
        _ => panic!("accepted a bad escape"),
    }
}

#[test]
fn paths_lead_to_subtrees() {
    let data = br#" {"a": {"b": [10, {"c": true}]}, "d": null}"#;
    let path = vec![
        JsonPathSegment::Key("a".into()),
        JsonPathSegment::Key("b".into()),
        JsonPathSegment::Index(1),
        JsonPathSegment::Key("c".into()),
    ];
    let at = seek_to_subtree(data, 0, &path).unwrap();
    assert_eq!(&data[at..at + 4], b"true");
    assert_eq!(seek_to_subtree(data, 0, &[]).unwrap(), 0);
    assert!(matches!(
        seek_to_subtree(data, 0, &[JsonPathSegment::Key("zz".into())]),
        Err(CoreError::InvalidArg(_))
    ));
    assert!(matches!(
        seek_to_subtree(data, 0, &[JsonPathSegment::Index(0)]),
        Err(CoreError::InvalidArg(_))
    ));
    assert!(matches!(
        seek_to_subtree(data, 0, &[JsonPathSegment::Key("a".into()), JsonPathSegment::Key("b".into()), JsonPathSegment::Index(2)]),
        Err(CoreError::InvalidArg(_))
    ));
    assert!(matches!(
        seek_to_subtree(b"{}", 0, &[JsonPathSegment::Key("a".into())]),
        Err(CoreError::InvalidArg(_))
    ));
}

#[test]
fn children_are_listed_by_path_in_pages() {
    let data = br#"{"a":1,"b":[1,2],"c":"x"}"#;
    let p1 = list_json_children_page(data, 0, &[], 0, 2, 50).unwrap();
    assert_eq!(p1.items.len(), 2);
    assert!(matches!(&p1.items[0].seg, JsonPathSegment::Key(k) if k == "a"));
    assert_eq!(p1.items[0].kind, JsonNodeKind::Number);
    assert_eq!(p1.items[0].preview, "1");
    assert!(matches!(&p1.items[1].seg, JsonPathSegment::Key(k) if k == "b"));
    assert_eq!(p1.items[1].kind, JsonNodeKind::Array);
    assert_eq!(p1.items[1].preview, "[1,2]");
    assert_eq!(p1.next_cursor, Some(2));
    assert!(!p1.reached_end);

    let p2 = list_json_children_page(data, 0, &[], 2, 2, 50).unwrap();
    assert_eq!(p2.items.len(), 1);
    assert!(matches!(&p2.items[0].seg, JsonPathSegment::Key(k) if k == "c"));
    assert_eq!(p2.items[0].kind, JsonNodeKind::String);
    assert_eq!(p2.items[0].preview, "\"x\"");
    assert_eq!(p2.next_cursor, None);
    assert!(p2.reached_end);

    let p3 = list_json_children_page(data, 0, &[], 5, 2, 50).unwrap();
    assert!(p3.items.is_empty() && p3.reached_end && p3.next_cursor.is_none());

    let arr = list_json_children_page(data, 0, &[JsonPathSegment::Key("b".into())], 1, 5, 50).unwrap();
    assert_eq!(arr.items.len(), 1);
    assert!(matches!(&arr.items[0].seg, JsonPathSegment::Index(1)));
    assert_eq!(arr.items[0].preview, "2");

    let leaf = list_json_children_page(data, 0, &[JsonPathSegment::Key("a".into())], 0, 5, 50).unwrap();
    assert!(leaf.items.is_empty() && leaf.reached_end);

    assert!(matches!(list_json_children_page(data, 99, &[], 0, 2, 50), Err(CoreError::InvalidArg(_))));
}

#[test]
fn keys_are_decoded_and_previews_shortened() {
    let data = br#"{"a\n": "0123456789"}"#;
    let p = list_json_children_page(data, 0, &[], 0, 5, 4).unwrap();
    assert!(matches!(&p.items[0].seg, JsonPathSegment::Key(k) if k == "a\n"));
    assert_eq!(p.items[0].preview, "\"012\u{2026}");
}

#[test]
fn children_are_listed_by_offset_in_pages() {
    let data = br#"{"a":1,"b":[1,2],"c":"x"}"#;
    let p1 = list_json_children_page_at_offset(data, 0, None, None, 2, 50).unwrap();
    assert_eq!(p1.items.len(), 2);
    assert_eq!(p1.items[0].value_offset, 5);
    assert_eq!(p1.items[1].value_offset, 11);
    assert_eq!(p1.next_cursor_offset, Some(17));
    assert_eq!(p1.next_cursor_index, None);
    assert!(!p1.reached_end);

    let p2 = list_json_children_page_at_offset(data, 0, p1.next_cursor_offset, None, 2, 50).unwrap();
    assert_eq!(p2.items.len(), 1);
    assert_eq!(p2.items[0].value_offset, 21);
    assert_eq!(p2.items[0].preview, "\"x\"");
    assert!(p2.reached_end);
    assert_eq!(p2.next_cursor_offset, None);

    let inner = list_json_children_page_at_offset(data, 11, None, None, 1, 50).unwrap();
    assert_eq!(inner.items.len(), 1);
    assert!(matches!(&inner.items[0].seg, JsonPathSegment::Index(0)));
    assert_eq!(inner.items[0].value_offset, 12);
    assert_eq!(inner.next_cursor_offset, Some(14));
    assert_eq!(inner.next_cursor_index, Some(1));

    let rest = list_json_children_page_at_offset(data, 11, Some(14), Some(1), 5, 50).unwrap();
    assert_eq!(rest.items.len(), 1);
    assert!(matches!(&rest.items[0].seg, JsonPathSegment::Index(1)));
    assert!(rest.reached_end);

    assert!(matches!(
        list_json_children_page_at_offset(data, 0, Some(999), None, 2, 50),
        Err(CoreError::InvalidArg(_))
    ));
    assert!(matches!(
        list_json_children_page_at_offset(data, 999, None, None, 2, 50),
        Err(CoreError::InvalidArg(_))
    ));
}

#[test]
fn listing_by_path_and_by_offset_agree() {
    let data = br#"[0, {"k": {"x": [1, "two", null], "y": {}}}]"#;
    let path = vec![JsonPathSegment::Index(1), JsonPathSegment::Key("k".into())];
    let at = seek_to_subtree(data, 0, &path).unwrap();
    let by_path = list_json_children_page(data, 0, &path, 0, 10, 20).unwrap();
    let by_offset = list_json_children_page_at_offset(data, at as u64, None, None, 10, 20).unwrap();
    assert_eq!(by_path.items.len(), 2);
    assert_eq!(by_path.items.len(), by_offset.items.len());
    for (a, b) in by_path.items.iter().zip(by_offset.items.iter()) {
        assert_eq!(a.kind, b.kind);
        assert_eq!(a.preview, b.preview);
    }
    assert_eq!(by_path.reached_end, by_offset.reached_end);
}

#[test]
fn summaries_count_children_under_limits() {
    let data = br#"{"a":1,"b":{"c":[1,2,3]},"d":"x"}"#;
    let s = json_node_summary(data, 0, &[], 100, 1000).unwrap();
    assert_eq!((s.kind, s.child_count, s.complete), (JsonNodeKind::Object, Some(3), true));
    let s = json_node_summary(data, 0, &[], 2, 1000).unwrap();
    assert_eq!((s.kind, s.child_count, s.complete), (JsonNodeKind::Object, Some(2), false));
    let s = json_node_summary(data, 0, &[], 100, 3).unwrap();
    assert_eq!((s.kind, s.child_count, s.complete), (JsonNodeKind::Object, Some(1), false));
    let path = vec![JsonPathSegment::Key("b".into()), JsonPathSegment::Key("c".into())];
    let s = json_node_summary(data, 0, &path, 100, 1000).unwrap();
    assert_eq!((s.kind, s.child_count, s.complete), (JsonNodeKind::Array, Some(3), true));
    let s = json_node_summary(data, 0, &[JsonPathSegment::Key("d".into())], 100, 1000).unwrap();
    assert_eq!((s.kind, s.child_count, s.complete), (JsonNodeKind::String, None, true));
    let s = json_node_summary_at_offset(data, 16, 100, 1000).unwrap();
    assert_eq!((s.kind, s.child_count, s.complete, s.node_offset), (JsonNodeKind::Array, Some(3), true, 16));
    let s = json_node_summary_at_offset(b"[]", 0, 100, 1000).unwrap();
    assert_eq!((s.kind, s.child_count, s.complete), (JsonNodeKind::Array, Some(0), true));
    assert!(matches!(json_node_summary_at_offset(data, 999, 1, 1), Err(CoreError::InvalidArg(_))));
    assert!(matches!(json_node_summary(b"{1:2}", 0, &[], 10, 10), Err(CoreError::InvalidArg(_))));
}

#[test]
fn preview_from_scan_strips_and_cuts() {
    assert_eq!(preview_from_scan(b"abc\n", 10, 2), ("ab\u{2026}".to_string(), true));
    assert_eq!(preview_from_scan(b"abc\r\n\0", 6, 10), ("abc".to_string(), false));
    assert_eq!(preview_from_scan(b"\xff", 1, 10), ("\u{fffd}".to_string(), false));
}

#[test]
fn whole_values_are_read_at_an_offset() {
    let data = b"[1, {\"a\": \"b,c\"} ,3]";
    assert_eq!(read_json_value_at_offset(data, 3, 100).unwrap(), "{\"a\": \"b,c\"}");
    assert_eq!(read_json_value_at_offset(data, 1, 100).unwrap(), "1");
    assert!(matches!(read_json_value_at_offset(data, 3, 5), Err(CoreError::InvalidArg(_))));
    assert!(matches!(read_json_value_at_offset(data, 99, 5), Err(CoreError::InvalidArg(_))));
    assert!(matches!(read_json_value_at_offset(b"[1]  ", 3, 5), Err(CoreError::InvalidArg(_))));
}

#[test]
fn subtree_export_renders_each_format() {
    let data = br#"[{"a":{"b":[1,2,3],"c":"x"}}]"#;
    let ab = vec![JsonPathSegment::Key("a".into()), JsonPathSegment::Key("b".into())];
    let a = vec![JsonPathSegment::Key("a".into())];

    let mut out = b"keep".to_vec();
    assert_eq!(export_json_subtree_stream(data, 1, &ab, true, &[], ExportFormat::Json, &mut out).unwrap(), 1);
    assert_eq!(out, b"keep[1,2,3]");

    let mut out = Vec::new();
    let picks = vec![JsonPathSegment::Index(0), JsonPathSegment::Index(2)];
    assert_eq!(export_json_subtree_stream(data, 1, &ab, false, &picks, ExportFormat::Json, &mut out).unwrap(), 2);
    assert_eq!(out, b"[\n1,\n3\n]");

    let mut out = Vec::new();
    assert_eq!(export_json_subtree_stream(data, 1, &ab, false, &picks, ExportFormat::Jsonl, &mut out).unwrap(), 2);
    assert_eq!(out, b"1\n3\n");

    let mut out = Vec::new();
    let keys = vec![JsonPathSegment::Key("c".into()), JsonPathSegment::Key("zz".into())];
    assert_eq!(export_json_subtree_stream(data, 1, &a, false, &keys, ExportFormat::Jsonl, &mut out).unwrap(), 1);
    assert_eq!(out, b"\"x\"\n");

    let mut out = Vec::new();
    assert_eq!(export_json_subtree_stream(data, 1, &a, true, &keys, ExportFormat::Json, &mut out).unwrap(), 1);
    assert_eq!(out, b"[\n{\"b\":[1,2,3],\"c\":\"x\"}\n]");

    let mut out = Vec::new();
    let none = vec![JsonPathSegment::Index(9)];
    assert_eq!(export_json_subtree_stream(data, 1, &ab, false, &none, ExportFormat::Json, &mut out).unwrap(), 0);
    assert_eq!(out, b"[]");

    let mut out = b"keep".to_vec();
    assert!(matches!(
        export_json_subtree_stream(data, 1, &ab, true, &[], ExportFormat::Csv, &mut out),
        Err(CoreError::InvalidArg(_))
    ));
    assert!(matches!(
        export_json_subtree_stream(data, 1, &[JsonPathSegment::Key("q".into())], true, &[], ExportFormat::Json, &mut out),
        Err(CoreError::InvalidArg(_))
    ));
    assert!(matches!(
        export_json_subtree_stream(data, 999, &ab, true, &[], ExportFormat::Json, &mut out),
        Err(CoreError::InvalidArg(_))
    ));
    assert_eq!(out, b"keep");
}

#[test]
fn json_pages_pass_over_mark_bracket_and_commas() {
    let mut data = vec![0xEF, 0xBB, 0xBF];
    data.extend_from_slice(b" [1, 2,, 3] ");
    let (p1, next1) = read_json_page(&data, Cursor { offset: 0, line: 0 }, 2, 10, 10).unwrap();
    assert_eq!(texts(&p1), vec!["1", "2"]);
    assert_eq!(p1.records[0].meta.unwrap().byte_offset, 5);
    assert_eq!(p1.records[0].meta.unwrap().byte_len, 1);
    assert!(!p1.reached_eof);
    let (p2, next2) = read_json_page(&data, next1.unwrap(), 2, 10, 10).unwrap();
    assert_eq!(texts(&p2), vec!["3"]);
    assert_eq!(p2.records[0].id, 2);
    assert!(p2.reached_eof);
    assert!(next2.is_none());
}

#[test]
fn empty_json_array_is_an_empty_last_page() {
    let (page, next, done) = read_json_page_with_progress(b" [ ] ", Cursor { offset: 0, line: 0 }, 5, 10, 10).unwrap();
    assert!(page.records.is_empty() && page.reached_eof && next.is_none());
    assert_eq!(done, 4);
    let (page, next) = read_json_page(b"", Cursor { offset: 0, line: 0 }, 5, 10, 10).unwrap();
    assert!(page.records.is_empty() && page.reached_eof && next.is_none());
}

#[test]
fn legacy_cursor_skips_values_from_the_start() {
    let data = b"[10,20,30]";
    let (page, _) = read_json_page(data, Cursor { offset: 0, line: 1 }, 5, 10, 10).unwrap();
    assert_eq!(texts(&page), vec!["20", "30"]);
    assert_eq!(page.records[0].id, 1);
    let (page, _) = read_json_page(data, Cursor { offset: 0, line: 7 }, 5, 10, 10).unwrap();
    assert!(page.records.is_empty() && page.reached_eof);
}

#[test]
fn json_records_are_cut_with_an_ellipsis() {
    let data = b"[\"abcdefghij\"]";
    let (page, _) = read_json_page(data, Cursor { offset: 0, line: 0 }, 5, 3, 5).unwrap();
    assert_eq!(page.records[0].preview, "\"ab\u{2026}");
    assert_eq!(page.records[0].raw.as_deref(), Some("\"abcd\u{2026}"));
    assert_eq!(page.records[0].meta.unwrap().byte_len, 12);
}

#[test]
fn json_cursor_beyond_the_data_is_bad() {
    assert!(matches!(
        read_json_page(b"[1]", Cursor { offset: 4, line: 0 }, 5, 10, 10),
        Err(CoreError::BadCursor(_))
    ));
}

#[test]
fn json_paging_in_pieces_reads_what_one_read_reads() {
    let data = b"[1, \"two\", {\"three\": [3]}, [4], null, 6.5 ,true]";
    let (all, _) = read_json_page(data, Cursor { offset: 0, line: 0 }, 100, 20, 20).unwrap();
    assert_eq!(all.records.len(), 7);
    for size in 1..5usize {
        let mut seen = Vec::new();
        let mut cursor = Some(Cursor { offset: 0, line: 0 });
        while let Some(c) = cursor {
            let (page, next) = read_json_page(data, c, size, 20, 20).unwrap();
            for r in &page.records {
                assert_eq!(r.meta.unwrap().line_no, r.id);
                seen.push((r.id, r.raw.clone().unwrap()));
            }
            assert_eq!(next.is_none(), page.reached_eof || page.records.is_empty());
            cursor = next;
        }
        let want: Vec<(u64, String)> = all.records.iter().map(|r| (r.id, r.raw.clone().unwrap())).collect();
        assert_eq!(seen, want);
    }
}
