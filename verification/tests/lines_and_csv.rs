use dh_core::cursor::Cursor;
use dh_core::formats::csv::{
    csv_line_to_object, parse_csv_line, read_csv_header, read_csv_page, read_csv_record_bytes,
    sanitize_json_string, trim_record_terminator, update_csv_quote_state,
};
use dh_core::formats::lines::{find_line_end, read_lines_page, trimmed_end};
use dh_core::CoreError;

#[test]
fn line_pages_carry_exact_places() {
    let data = b"first\r\nsecond\n\nlast";
    let (page, next) = read_lines_page(data, Cursor { offset: 0, line: 0 }, 3, 10, 10).unwrap();
    let places: Vec<(u64, u64, u64)> = page
        .records
        .iter()
        .map(|r| {
            let m = r.meta.unwrap();
            (m.line_no, m.byte_offset, m.byte_len)
        })
        .collect();
    assert_eq!(places, vec![(0, 0, 7), (1, 7, 7), (2, 14, 1)]);
    assert_eq!(page.records[0].raw.as_deref(), Some("first"));
    assert_eq!(page.records[1].preview, "second");
    assert_eq!(page.records[2].preview, "");
    assert!(!page.reached_eof);
    assert_eq!(next, Some(Cursor { offset: 15, line: 3 }));

    let (page, next) = read_lines_page(data, next.unwrap(), 3, 10, 10).unwrap();
    assert_eq!(page.records.len(), 1);
    assert_eq!(page.records[0].id, 3);
    assert_eq!(page.records[0].raw.as_deref(), Some("last"));
    assert_eq!(page.records[0].meta.unwrap().byte_len, 4);
    assert!(page.reached_eof);
    assert!(next.is_none());
}

#[test]
fn adjacent_lines_touch() {
    let data = b"a\nbb\r\nccc\n\ndddd\neeeee";
    let (page, _) = read_lines_page(data, Cursor { offset: 0, line: 0 }, 100, 10, 10).unwrap();
    assert_eq!(page.records.len(), 6);
    for pair in page.records.windows(2) {
        let a = pair[0].meta.unwrap();
        let b = pair[1].meta.unwrap();
        assert_eq!(b.byte_offset, a.byte_offset + a.byte_len);
        assert_eq!(b.line_no, a.line_no + 1);
    }
    for r in &page.records {
        assert_eq!(r.meta.unwrap().line_no, r.id);
    }
}

#[test]
fn long_lines_are_read_in_part_and_marked() {
    let mut data = vec![b'a'; 100];
    data.push(b'\n');
    data.extend_from_slice(b"b\n");
    let (page, _) = read_lines_page(&data, Cursor { offset: 0, line: 0 }, 2, 3, 0).unwrap();
    assert_eq!(page.records[0].preview, "aaa\u{2026}");
    assert_eq!(page.records[0].raw, None);
    assert_eq!(page.records[0].meta.unwrap().byte_len, 101);
    assert_eq!(page.records[1].preview, "b");
    assert_eq!(page.records[1].meta.unwrap().byte_offset, 101);

    let mut data = vec![b'x'; 90];
    data.push(b'\n');
    let (page, _) = read_lines_page(&data, Cursor { offset: 0, line: 0 }, 1, 100, 100).unwrap();
    assert_eq!(page.records[0].preview.chars().count(), 90);
    let mut data = vec![b'x'; 600];
    data.push(b'\n');
    let (page, _) = read_lines_page(&data, Cursor { offset: 0, line: 0 }, 1, 100, 100).unwrap();
    assert_eq!(page.records[0].preview.chars().count(), 101);
    assert!(page.records[0].preview.ends_with('\u{2026}'));
}

#[test]
fn invalid_utf8_becomes_replacement_characters() {
    let (page, _) = read_lines_page(&[0xff, b'a', b'\n'], Cursor { offset: 0, line: 0 }, 1, 10, 10).unwrap();
    assert_eq!(page.records[0].preview, "\u{fffd}a");
}

#[test]
fn page_of_no_lines_ends_the_listing() {
    let (page, next) = read_lines_page(b"a\nb\n", Cursor { offset: 0, line: 0 }, 0, 10, 10).unwrap();
    assert!(page.records.is_empty() && page.reached_eof && next.is_none());
    let (page, next) = read_lines_page(b"a\nb\n", Cursor { offset: 4, line: 2 }, 5, 10, 10).unwrap();
    assert!(page.records.is_empty() && page.reached_eof && next.is_none());
    assert!(matches!(
        read_lines_page(b"a\nb\n", Cursor { offset: 5, line: 2 }, 5, 10, 10),
        Err(CoreError::BadCursor(_))
    ));
}

#[test]
fn line_paging_in_pieces_reads_what_one_read_reads() {
    let data = b"one\ntwo\r\n\nfour\nfive";
    let (all, _) = read_lines_page(data, Cursor { offset: 0, line: 0 }, 100, 20, 20).unwrap();
    assert_eq!(all.records.len(), 5);
    for size in 1..4usize {
        let mut seen = Vec::new();
        let mut cursor = Some(Cursor { offset: 0, line: 0 });
        while let Some(c) = cursor {
            let (page, next) = read_lines_page(data, c, size, 20, 20).unwrap();
            seen.extend(page.records.iter().map(|r| (r.id, r.preview.clone())));
            cursor = next;
        }
        let want: Vec<(u64, String)> = all.records.iter().map(|r| (r.id, r.preview.clone())).collect();
        assert_eq!(seen, want);
    }
}

#[test]
fn line_ends_and_terminators() {
    assert_eq!(find_line_end(b"ab\ncd", 0), 3);
    assert_eq!(find_line_end(b"ab\ncd", 3), 5);
    assert_eq!(find_line_end(b"ab\ncd", 5), 5);
    assert_eq!(trimmed_end(b"ab\r\ncd", 0, 4), 2);
    assert_eq!(trimmed_end(b"ab\r\r\n", 0, 5), 3);
    assert_eq!(trimmed_end(b"ab\r", 0, 3), 3);
    let mut buf = b"x\r\n".to_vec();
    trim_record_terminator(&mut buf);
    assert_eq!(buf, b"x");
    let mut buf = b"x\r".to_vec();
    trim_record_terminator(&mut buf);
    assert_eq!(buf, b"x\r");
    let mut buf = b"\n".to_vec();
    trim_record_terminator(&mut buf);
    assert_eq!(buf, b"");
}

#[test]
fn csv_cells_honour_quotes() {
    assert_eq!(parse_csv_line(r#"a,"b,c","d""e""#), vec!["a", "b,c", "d\"e"]);
    assert_eq!(parse_csv_line(""), vec![""]);
    assert_eq!(parse_csv_line("a,,"), vec!["a", "", ""]);
    assert_eq!(parse_csv_line("x\"y\"z"), vec!["xyz"]);
    assert_eq!(parse_csv_line("\"un,closed"), vec!["un,closed"]);
}

#[test]
fn quote_state_follows_cells() {
    let (mut q, mut f) = (false, true);
    update_csv_quote_state(&mut q, &mut f, b"a, \"b");
    assert_eq!((q, f), (true, false));
    update_csv_quote_state(&mut q, &mut f, b"c\"\"d\",e");
    assert_eq!((q, f), (false, false));
    let (mut q, mut f) = (false, true);
    update_csv_quote_state(&mut q, &mut f, b"ab\"c,");
    assert_eq!((q, f), (false, true));
}

#[test]
fn csv_records_may_span_lines() {
    let data = b"h1,h2\n\"a\nb\",c\nx,y";
    assert_eq!(read_csv_record_bytes(data, 0), (6, true));
    assert_eq!(read_csv_record_bytes(data, 6), (14, true));
    assert_eq!(read_csv_record_bytes(data, 14), (17, false));
    assert_eq!(read_csv_record_bytes(data, 17), (17, false));
    assert_eq!(read_csv_record_bytes(b"\"open\nnever closed\n", 0), (19, false));
}

#[test]
fn csv_rows_become_objects_keyed_by_the_header() {
    let data = b"\xef\xbb\xbfname,, city \n\"Ann\nB\",7,Oslo,extra,more\r\nBob\n";
    assert_eq!(read_csv_header(data), vec!["name", "col_1", " city "]);
    let (page, next) = read_csv_page(data, Cursor { offset: 0, line: 0 }, 10, 8, 1).unwrap();
    assert_eq!(page.records.len(), 3);
    assert_eq!(page.records[0].raw.as_deref(), Some("\u{feff}name,, city "));
    assert_eq!(page.records[0].preview, "\u{feff}name,, \u{2026}");
    assert_eq!(
        page.records[1].raw.as_deref(),
        Some(r#"{" city ":"Oslo","__extra__":["extra","more"],"col_1":"7","name":"Ann\nB"}"#)
    );
    assert_eq!(page.records[1].preview, "\"Ann\nB\",\u{2026}");
    assert_eq!(page.records[1].meta.unwrap().byte_offset, 16);
    assert_eq!(page.records[1].meta.unwrap().byte_len, 27);
    assert_eq!(page.records[2].raw.as_deref(), Some(r#"{" city ":"","col_1":"","name":"Bob"}"#));
    assert!(page.reached_eof);
    assert!(next.is_none());
    assert_eq!(read_csv_header(b""), Vec::<String>::new());
}

#[test]
fn csv_line_object_and_fallback_escaping() {
    let headers = vec!["a".to_string(), "a".to_string()];
    assert_eq!(csv_line_to_object(&headers, "1,2").as_deref(), Some(r#"{"a":"2"}"#));
    assert_eq!(sanitize_json_string(r#"a\b"c"#), r#"a\\b\"c"#);
    assert_eq!(sanitize_json_string(""), "");
}

#[test]
fn csv_paging_in_pieces_reads_what_one_read_reads() {
    let data = b"k,v\n1,\"a\nb\"\n2,c\n3,\"d\"\"e\"\n";
    let (all, _) = read_csv_page(data, Cursor { offset: 0, line: 0 }, 100, 20, 20).unwrap();
    assert_eq!(all.records.len(), 4);
    for size in 1..4usize {
        let mut seen = Vec::new();
        let mut cursor = Some(Cursor { offset: 0, line: 0 });
        while let Some(c) = cursor {
            let (page, next) = read_csv_page(data, c, size, 20, 20).unwrap();
            for pair in page.records.windows(2) {
                let a = pair[0].meta.unwrap();
                assert_eq!(pair[1].meta.unwrap().byte_offset, a.byte_offset + a.byte_len);
            }
            seen.extend(page.records.iter().map(|r| (r.id, r.raw.clone())));
            cursor = next;
        }
        let want: Vec<(u64, Option<String>)> = all.records.iter().map(|r| (r.id, r.raw.clone())).collect();
        assert_eq!(seen, want);
    }
    assert!(matches!(
        read_csv_page(data, Cursor { offset: 999, line: 0 }, 1, 1, 1),
        Err(CoreError::BadCursor(_))
    ));
}
