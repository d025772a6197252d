use dm_driver_log::encoding::decode;
use dm_driver_log::framing::{frame_lines, line_content_end, Assembler};
use dm_driver_log::unified::{
    detect_line_format, format_of_first_line, keep_category, keep_exec_id, keep_method,
    read_record,
};
use dm_driver_log::{
    dm_provider, parse_bytes, parse_line, parser, FileEncodingHint, LogEvent, LogFormatKind,
    ParseError, RecordFraming,
};

const ACCESS: &str = "[INFO  - 2026-09-12 08:37:44.696] tid:34 (IsBackground-True) { B@16900fb } access Cmd:4();   [USED TIME]: 0ns;";
const SQL: &str = "[SQL   - 2026-09-12 08:55:30.193] tid:68 (IsBackground-True) { conn-2095 (sessId:281421579449976), command-4579 } ExecuteDbDataReader(CommandBehavior) [RETURN]: dateReader-2971;   [PARAMS]: Default; [SQL]: SELECT * FROM T\nWHERE ID = 1 [USED TIME]: 2ms; [EXEC_ID]: 908131301;";
const BAD: &str = "[INFO - 2026-09-12 08:55:30.194] tid:bad";
const JDBC: &str = "[INFO  - 2026-09-16 17:45:19.763] tid:119 - [worker] { conn-3, pstmt-854 } executeQuery(): rs-2216;  [USED TIME]: 8.5ms; [EXEC_ID]: 19010657;";

/// Lines as a file reader hands them over, flagged by the format's header test.
fn lines_of(text: &str, format: LogFormatKind) -> Vec<(u64, String, bool)> {
    text.split('\n')
        .enumerate()
        .map(|(i, l)| ((i + 1) as u64, l.to_owned(), format.is_record_start(l)))
        .collect()
}

fn read_all(text: &str, format: LogFormatKind) -> Vec<Result<LogEvent, ParseError>> {
    frame_lines(format.framing(), &lines_of(text, format))
        .into_iter()
        .map(|(n, t)| read_record(format, &t, n))
        .collect()
}

#[test]
fn header_framing_groups_continuation_lines_under_their_header() {
    let text = format!("{ACCESS}\n{SQL}\n{BAD}");
    let records = frame_lines(
        RecordFraming::HeaderDelimited,
        &lines_of(&text, LogFormatKind::DmProvider),
    );
    assert_eq!(records.len(), 3);
    assert_eq!(records[0], (1, ACCESS.to_owned()));
    assert_eq!(records[1], (2, SQL.to_owned()));
    assert_eq!(records[2], (4, BAD.to_owned()));
    let joined: Vec<&str> = records.iter().map(|(_, t)| t.as_str()).collect();
    assert_eq!(joined.join("\n"), text);
}

#[test]
fn header_framing_skips_leading_empty_lines_only() {
    let lines = vec![
        (1, String::new(), false),
        (2, "[A] tid:1".to_owned(), true),
        (3, String::new(), false),
        (4, "tail".to_owned(), false),
        (5, "[B] tid:2".to_owned(), true),
    ];
    let records = frame_lines(RecordFraming::HeaderDelimited, &lines);
    assert_eq!(
        records,
        vec![(2, "[A] tid:1\n\ntail".to_owned()), (5, "[B] tid:2".to_owned())]
    );
}

#[test]
fn line_framing_skips_empty_lines_and_keeps_numbers() {
    let lines = vec![
        (1, "a".to_owned(), true),
        (2, String::new(), false),
        (3, "b".to_owned(), false),
    ];
    let records = frame_lines(RecordFraming::Line, &lines);
    assert_eq!(records, vec![(1, "a".to_owned()), (3, "b".to_owned())]);
}

#[test]
fn assembler_hands_out_records_as_lines_arrive() {
    let mut assembler = Assembler::new(RecordFraming::HeaderDelimited);
    assert_eq!(assembler.push(1, "[A] tid:1".to_owned(), true), None);
    assert_eq!(assembler.push(2, "more".to_owned(), false), None);
    assert_eq!(
        assembler.push(3, "[B] tid:2".to_owned(), true),
        Some((1, "[A] tid:1\nmore".to_owned()))
    );
    assert_eq!(assembler.finish(), Some((3, "[B] tid:2".to_owned())));
    assert_eq!(assembler.finish(), None);
}

#[test]
fn provider_file_records_parse_with_line_context_and_filters() {
    let text = format!("{ACCESS}\n{SQL}\n{BAD}\n");
    let events = read_all(&text, LogFormatKind::DmProvider);
    assert_eq!(events.len(), 3);
    assert_eq!(events[0].as_ref().unwrap().line_number(), 1);
    assert_eq!(events[1].as_ref().unwrap().line_number(), 2);
    assert_eq!(events[1].as_ref().unwrap().raw(), SQL);
    let error = events[2].as_ref().unwrap_err();
    assert_eq!(error.line_number(), Some(4));
    assert!(error.message().contains(BAD));

    let by_exec: Vec<_> = events
        .iter()
        .filter(|e| keep_exec_id(e, 908131301))
        .filter_map(|e| e.as_ref().ok())
        .collect();
    assert_eq!(by_exec.len(), 1);
    assert_eq!(by_exec[0].method(), "ExecuteDbDataReader");
    let by_category = events
        .iter()
        .filter(|e| keep_category(e, "driver_access"))
        .filter(|e| e.is_ok())
        .count();
    assert_eq!(by_category, 1);
    let by_method = events
        .iter()
        .filter(|e| keep_method(e, "ExecuteDbDataReader"))
        .filter(|e| e.is_ok())
        .count();
    assert_eq!(by_method, 1);
    assert!(events.iter().filter(|e| e.is_err()).all(|e| keep_method(e, "x")));
}

#[test]
fn jdbc_file_records_keep_their_physical_line_numbers() {
    let text = format!("\n{JDBC}\n\nnot a jdbc record");
    let events = read_all(&text, LogFormatKind::Jdbc);
    assert_eq!(events.len(), 2);
    assert_eq!(events[0].as_ref().unwrap().line_number(), 2);
    assert_eq!(events[0].as_ref().unwrap().exec_id(), Some(19010657));
    let error = events[1].as_ref().unwrap_err();
    assert_eq!(error.line_number(), Some(4));
    assert!(error.message().contains("not a jdbc record"));
}

#[test]
fn line_content_end_drops_trailing_cr_and_lf() {
    assert_eq!(line_content_end(b"abc\r\n"), 3);
    assert_eq!(line_content_end(b"\n\r\n"), 0);
    assert_eq!(line_content_end(b"a\nb"), 3);
    assert_eq!(line_content_end(b""), 0);
}

#[test]
fn first_line_decides_the_file_format() {
    assert!(format_of_first_line(" \t ", 1).is_none());
    assert_eq!(
        format_of_first_line(JDBC, 2),
        Some(Ok(LogFormatKind::Jdbc))
    );
    assert_eq!(
        format_of_first_line(ACCESS, 3),
        Some(Ok(LogFormatKind::DmProvider))
    );
    let error = format_of_first_line("garbage", 4).unwrap().unwrap_err();
    assert_eq!(
        error.message(),
        "invalid format at line 4, offset 0: unknown driver log format | raw: garbage"
    );
    assert_eq!(detect_line_format("no header"), None);
}

#[test]
fn format_kinds_choose_framing_and_headers() {
    assert_eq!(LogFormatKind::Jdbc.framing(), RecordFraming::Line);
    assert_eq!(
        LogFormatKind::DmProvider.framing(),
        RecordFraming::HeaderDelimited
    );
    assert!(LogFormatKind::DmProvider.is_record_start(ACCESS));
    assert!(!LogFormatKind::DmProvider.is_record_start("WHERE ID = 1"));
    assert!(!LogFormatKind::DmProvider.is_record_start(""));
    assert!(LogFormatKind::Jdbc.is_record_start("[x"));
    assert!(!LogFormatKind::Jdbc.is_record_start(""));
}

#[test]
fn errors_gain_context_once_and_render_it() {
    let e = ParseError::invalid(5, "bad tid").with_context("raw text", 9);
    assert_eq!(e.line_number(), Some(9));
    assert_eq!(e.offset(), Some(5));
    assert_eq!(
        e.message(),
        "invalid format at line 9, offset 5: bad tid | raw: raw text"
    );
    let again = e.with_context("other", 12);
    assert_eq!(
        again.message(),
        "invalid format at line 12, offset 5: bad tid | raw: raw text"
    );
    let io = ParseError::IoError("disk".to_owned()).with_context("x", 3);
    assert_eq!(io, ParseError::IoError("disk".to_owned()));
    assert_eq!(io.message(), "IO error: disk");
    assert_eq!(io.line_number(), None);
}

#[test]
fn decoding_follows_the_encoding_hint() {
    let gb = [0xD6, 0xD0, 0xCE, 0xC4];
    assert_eq!(decode(&gb, FileEncodingHint::Auto), "中文");
    assert_eq!(decode(&gb, FileEncodingHint::Gb18030), "中文");
    assert_eq!(decode(&gb, FileEncodingHint::Utf8), "\u{FFFD}\u{FFFD}\u{FFFD}\u{FFFD}");
    assert_eq!(decode("线程".as_bytes(), FileEncodingHint::Auto), "线程");
    assert_eq!(decode("线程".as_bytes(), FileEncodingHint::Utf8), "线程");
    assert_eq!(decode(b"plain", FileEncodingHint::Gb18030), "plain");
    assert_eq!(decode(&[0xFF], FileEncodingHint::Gb18030), "\u{FFFD}");
}

#[test]
fn byte_and_text_entry_points_agree_on_utf8() {
    let from_text = parse_line(JDBC).unwrap();
    let from_bytes = parse_bytes(JDBC.as_bytes()).unwrap();
    assert_eq!(from_text, from_bytes);
    let provider = parse_line(ACCESS).unwrap();
    assert_eq!(provider.raw(), ACCESS);
    assert_eq!(provider, parse_bytes(ACCESS.as_bytes()).unwrap());
    let mut alone = dm_provider::parse_line(ACCESS).unwrap();
    alone.raw = ACCESS.to_owned();
    assert_eq!(alone, *provider.as_dm_provider().unwrap());
}

#[test]
fn jdbc_scanning_helpers() {
    assert_eq!(parser::find(b"abcabc", b"bc", 2), Some(4));
    assert_eq!(parser::find(b"abcabc", b"bc", 0), Some(1));
    assert_eq!(parser::find(b"abc", b"", 0), None);
    assert_eq!(parser::find(b"abc", b"c", 4), None);
    assert_eq!(parser::find(b"ab", b"abc", 0), None);
    assert_eq!(parser::trim(b"  a b \r\n"), "a b");
    assert_eq!(parser::trim(" \t线程 ".as_bytes()), "线程");
    assert_eq!(parser::trim(b" \t "), "");
    assert_eq!(parser::category_of("executeUpdate"), "execute");
    assert_eq!(parser::category_of("getInt"), "read_value");
}

#[test]
fn timestamps_become_epoch_milliseconds() {
    assert_eq!(
        dm_provider::provider_epoch_millis(b"2026-09-12 08:37:44.696"),
        Some(1_789_202_264_696)
    );
    assert_eq!(parser::epoch_millis("2000-02-29 23:59:59.999"), Some(951_868_799_999));
    assert_eq!(parser::epoch_millis("1969-12-31 23:59:59.999"), Some(-1));
    assert_eq!(parser::epoch_millis("2026-09-16 17:45:19"), None);
}

#[test]
fn degraded_events_carry_no_fields() {
    let e = parser::Event::degraded();
    assert_eq!(e.method, "");
    assert_eq!(e.category, "unparsed");
    assert_eq!(e.exec_id, None);
}

#[test]
fn default_events_are_empty() {
    let e: parser::Event = Default::default();
    assert_eq!(e.level, "");
    assert_eq!(e.method, "");
    assert_eq!(e.category, "");
    assert_eq!(e.event_time_ms, None);
    assert_eq!(e.result_set_id, None);
    assert_eq!(e.cmd, None);
}

#[test]
fn result_set_falls_back_to_the_id_block() {
    let line = "[INFO - 2026-09-16 17:45:19.763] tid:1 - [w] { conn-3, rs-5 } executeQuery(): rs-99999999999;";
    let event = parser::parse(line).unwrap();
    assert_eq!(event.rs_id, Some(5));
    assert_eq!(event.result_set_id, Some(5));
    let line = "[INFO - 2026-09-16 17:45:19.763] tid:99999999999 - [w] { conn-3, rs-5 } executeQuery(): rs-7;";
    let event = parser::parse(line).unwrap();
    assert_eq!(event.result_set_id, Some(7));
    assert_eq!(event.tid, None);
}

#[test]
fn epoch_milliseconds_follow_the_calendar() {
    let ms = |t: &str| parser::epoch_millis(t).unwrap();
    assert_eq!(ms("2024-03-01 00:00:00.000") - ms("2024-02-29 23:59:59.999"), 1);
    assert_eq!(ms("2024-01-01 00:00:00.000") - ms("2023-12-31 23:59:59.999"), 1);
    assert_eq!(ms("2100-03-01 00:00:00.000") - ms("2100-02-28 00:00:00.000"), 86_400_000);
    assert_eq!(ms("2000-03-01 00:00:00.000") - ms("2000-02-28 00:00:00.000"), 2 * 86_400_000);
    assert!(ms("2026-09-16 17:45:19.754") < ms("2026-09-16 17:45:19.763"));
    for stamp in ["2024-02-29 12:00:00.000", "1970-01-01 00:00:00.000", "2026-09-12 08:37:44.696"] {
        assert_eq!(
            dm_provider::provider_epoch_millis(stamp.as_bytes()),
            parser::epoch_millis(stamp)
        );
    }
}
