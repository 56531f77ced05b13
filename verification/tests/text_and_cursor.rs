use base64::Engine;
use dh_core::cursor::{
    decode_cursor, decode_index_cursor, encode_cursor, encode_index_cursor, read_cursor_json,
    read_index_json,
    Cursor,
};
use dh_core::formats::detect::{detect_format, format_for_extension, is_supported_path};
use dh_core::text::{
    chars_of, decimal_string, force_ellipsis, int_string, message_with_numbers,
    string_from_chars, truncate_chars, truncate_chars_force_ellipsis,
};
use dh_core::{CoreError, FileFormat};

#[test]
fn truncate_chars_counts_characters_not_bytes() {
    assert_eq!(truncate_chars("h\u{e9}llo", 2), "h\u{e9}\u{2026}");
    assert_eq!(truncate_chars("ab", 2), "ab");
    assert_eq!(truncate_chars("abc", 0), "");
    assert_eq!(truncate_chars("", 3), "");
}

#[test]
fn forced_ellipsis_is_added_once() {
    assert_eq!(truncate_chars_force_ellipsis("abc", 5, true), "abc\u{2026}");
    assert_eq!(truncate_chars_force_ellipsis("abc\u{2026}", 5, true), "abc\u{2026}");
    assert_eq!(truncate_chars_force_ellipsis("abcdef", 3, true), "abc\u{2026}");
    assert_eq!(truncate_chars_force_ellipsis("abcdef", 3, false), "abc\u{2026}");
    assert_eq!(truncate_chars_force_ellipsis("abc", 0, true), "\u{2026}");
    assert_eq!(truncate_chars_force_ellipsis("abc", 0, false), "");
    assert_eq!(force_ellipsis("ab".to_string(), true), "ab\u{2026}");
    assert_eq!(force_ellipsis("ab".to_string(), false), "ab");
}

#[test]
fn decimal_rendering_is_exact() {
    assert_eq!(decimal_string(0), "0");
    assert_eq!(decimal_string(10), "10");
    assert_eq!(decimal_string(u64::MAX as u128), "18446744073709551615");
    assert_eq!(int_string(-42), "-42");
    assert_eq!(int_string(i128::MIN), "-170141183460469231731687303715884105728");
    assert_eq!(message_with_numbers("offset ", 5, " beyond file len ", 3), "offset 5 beyond file len 3");
}

#[test]
fn chars_round_trip_through_strings() {
    let chars = chars_of("a\u{e9}\u{4e2d}z");
    assert_eq!(chars, vec!['a', '\u{e9}', '\u{4e2d}', 'z']);
    assert_eq!(string_from_chars(&chars, 1, 3), "\u{e9}\u{4e2d}");
    assert_eq!(string_from_chars(&chars, 2, 2), "");
}

#[test]
fn cursor_token_is_base64_of_compact_json() {
    let token = encode_cursor(Cursor { offset: 28, line: 2 });
    let expected = base64::engine::general_purpose::URL_SAFE_NO_PAD.encode(br#"{"offset":28,"line":2}"#);
    assert_eq!(token, expected);
    assert_ne!(token, r#"{"offset":28,"line":2}"#);
}

#[test]
fn cursor_round_trip() {
    for c in [
        Cursor { offset: 0, line: 0 },
        Cursor { offset: 1, line: 9 },
        Cursor { offset: 1234567890123, line: 42 },
        Cursor { offset: u64::MAX, line: u64::MAX },
    ] {
        let token = encode_cursor(c);
        assert_eq!(decode_cursor(Some(&token)).unwrap(), c);
    }
}

#[test]
fn missing_or_empty_cursor_is_the_start() {
    assert_eq!(decode_cursor(None).unwrap(), Cursor { offset: 0, line: 0 });
    assert_eq!(decode_cursor(Some("")).unwrap(), Cursor { offset: 0, line: 0 });
}

#[test]
fn bad_cursor_tokens_are_rejected() {
    assert!(matches!(decode_cursor(Some("!!!")), Err(CoreError::BadCursor(_))));
    let enc = |s: &[u8]| base64::engine::general_purpose::URL_SAFE_NO_PAD.encode(s);
    assert!(matches!(decode_cursor(Some(&enc(b"not json"))), Err(CoreError::BadCursor(_))));
    assert!(matches!(
        decode_cursor(Some(&enc(br#"{"offset":01,"line":2}"#))),
        Err(CoreError::BadCursor(_))
    ));
    assert!(matches!(
        decode_cursor(Some(&enc(br#"{"offset":1,"line":18446744073709551616}"#))),
        Err(CoreError::BadCursor(_))
    ));
    assert!(matches!(
        decode_cursor(Some(&enc(br#"{"offset":1,"line":2}x"#))),
        Err(CoreError::BadCursor(_))
    ));
    match decode_cursor(Some(&enc(br#"{"offset":1,"line":x}"#))) {
        Err(e) => assert_eq!(
            e.message(),
            "bad cursor token: json departs from the expected form at byte 19 of 21"
        ),
        Ok(_) => panic!("accepted"),
    }
    match decode_cursor(Some(&enc(b"[1,2]"))) {
        Err(e) => assert_eq!(
            e.message(),
            "bad cursor token: json departs from the expected form at byte 0 of 5"
        ),
        Ok(_) => panic!("accepted"),
    }
    match decode_cursor(Some("!!!")) {
        Err(e) => assert!(e.message().starts_with("bad cursor token: ") && e.message().len() > 18),
        Ok(_) => panic!("accepted"),
    }
}

#[test]
fn cursor_json_is_parsed_exactly() {
    assert_eq!(
        read_cursor_json(br#"{"offset":18446744073709551615,"line":0}"#),
        Ok(Cursor { offset: u64::MAX, line: 0 })
    );
    assert_eq!(read_cursor_json(br#"{"offset":,"line":0}"#), Err(10));
    assert_eq!(read_cursor_json(br#"{"line":0,"offset":1}"#), Err(0));
    assert_eq!(read_cursor_json(br#"{"offset":3"line":0}"#), Err(11));
    assert_eq!(read_cursor_json(br#"{"offset":3,"line":0"#), Err(20));
    assert_eq!(read_index_json(br#"{"idx":42}"#), Ok(42));
    assert_eq!(read_index_json(br#"{"idx":042}"#), Err(7));
    assert_eq!(read_index_json(br#"{"idx":42 }"#), Err(9));
}

#[test]
fn index_cursor_round_trip() {
    for idx in [0u64, 7, 50, u64::MAX] {
        let token = encode_index_cursor(idx);
        assert_eq!(decode_index_cursor(Some(&token)).unwrap(), idx);
    }
    let expected = base64::engine::general_purpose::URL_SAFE_NO_PAD.encode(br#"{"idx":7}"#);
    assert_eq!(encode_index_cursor(7), expected);
    assert_eq!(decode_index_cursor(None).unwrap(), 0);
    assert!(matches!(
        decode_index_cursor(Some(&encode_cursor(Cursor { offset: 1, line: 2 }))),
        Err(CoreError::BadCursor(_))
    ));
}

#[test]
fn format_follows_the_extension_whatever_its_case() {
    assert_eq!(format_for_extension("jsonl"), FileFormat::Jsonl);
    assert_eq!(format_for_extension("CSV"), FileFormat::Csv);
    assert_eq!(format_for_extension("Json"), FileFormat::Json);
    assert_eq!(format_for_extension("PARQUET"), FileFormat::Parquet);
    assert_eq!(format_for_extension("txt"), FileFormat::Unknown);
    assert_eq!(format_for_extension(""), FileFormat::Unknown);
    assert_eq!(format_for_extension("json "), FileFormat::Unknown);
}

#[test]
fn format_is_detected_from_the_final_extension() {
    assert_eq!(detect_format("dir/a.b/data.JSONL"), FileFormat::Jsonl);
    assert_eq!(detect_format("data.tar.csv"), FileFormat::Csv);
    assert_eq!(detect_format("data.json.bak"), FileFormat::Unknown);
    assert_eq!(detect_format("dir.json/data"), FileFormat::Unknown);
    assert_eq!(detect_format(".json"), FileFormat::Unknown);
    assert_eq!(detect_format("noext"), FileFormat::Unknown);
    assert!(is_supported_path("x.parquet"));
    assert!(!is_supported_path("x.txt"));
}

#[test]
fn error_messages_name_their_kind() {
    assert_eq!(CoreError::InvalidArg("x".to_string()).message(), "invalid argument: x");
    assert_eq!(CoreError::UnknownSession("s1".to_string()).message(), "unknown session: s1");
    assert_eq!(CoreError::UnsupportedFormat(FileFormat::Unknown).message(), "unsupported format: Unknown");
    assert_eq!(CoreError::Task("t".to_string()).message(), "task error: t");
    assert_eq!(CoreError::Storage("s".to_string()).message(), "storage error: s");
    let io = std::io::Error::new(std::io::ErrorKind::NotFound, "gone");
    assert_eq!(CoreError::Io(io).message(), "io error: gone");
}

#[test]
fn accepted_tokens_are_reproduced_by_writing_them_again() {
    let enc = |s: &[u8]| base64::engine::general_purpose::URL_SAFE_NO_PAD.encode(s);
    let texts: [&[u8]; 6] = [
        br#"{"offset":0,"line":0}"#,
        br#"{"offset":120,"line":7}"#,
        br#"{"offset": 120,"line":7}"#,
        br#"{"line":7,"offset":120}"#,
        br#"{"offset":120,"line":07}"#,
        br#"{"offset":120,"line":7,"more":1}"#,
    ];
    let mut accepted = 0;
    for text in texts {
        let token = enc(text);
        if let Ok(c) = decode_cursor(Some(&token)) {
            assert_eq!(encode_cursor(c), token);
            accepted += 1;
        }
    }
    assert_eq!(accepted, 2);
}
