use tidc::json_writer::ToJSON;
use tidc::parser::artifacts::{
    parse_log_record, parse_zap_object, with_log_record, with_zap_object, FileLineRef,
    LogFieldRef, LogLevel, LogStr,
};
use tidc::parser::scanner::Scanner;
use tidc::parser::ParseError;

fn json<T: ToJSON>(v: &T) -> String {
    let mut w = Vec::new();
    v.write_json_to(&mut w);
    String::from_utf8(w).unwrap()
}

fn check_log_str(from: &str, to: &str) {
    let log_str = LogStr::from_str(from);
    assert!(log_str.is_ok());
    let log_str = log_str.unwrap();
    assert_eq!(json(&log_str), to);
}

fn check_log_str_scan(from: &str, to: &str, rem: &str) {
    let mut scanner = Scanner::over(from);
    let log_str = LogStr::parse_from_sequence(&mut scanner);
    assert!(log_str.is_ok());
    let log_str = log_str.unwrap();
    assert_eq!(json(&log_str), to);
    assert_eq!(scanner.remain(), rem)
}

#[test]
fn test_log_str() {
    check_log_str("42µs", r#""42µs""#);
    check_log_str(r#""hello, world""#, r#""hello, world""#);
    check_log_str("42µs", r#""42µs""#);

    check_log_str_scan("date-time=12:15:13", "\"date-time\"", "=12:15:13");
    check_log_str_scan(r#""rate limit"=128MB/s"#, "\"rate limit\"", "=128MB/s");
}

fn check_entry(from: &str, key: &str, value: &str) {
    let mut scanner = Scanner::over(from);
    let entry = LogFieldRef::parse_from_str(&mut scanner);
    assert!(entry.is_ok(), "parsing entry meet error {:?}", entry.unwrap_err());

    let entry = entry.unwrap();
    assert_eq!(json(&entry.key), key, "failed to check {} (key mismatch {} => {})", from, json(&entry.key), key);
    assert_eq!(json(&entry.value), value, "failed to check {} (value mismatch {} => {})", from, json(&entry.value), value);
}

#[test]
fn test_log_entry() {
    check_entry(r#""start time"=992.547µs""#, r#""start time""#, r#""992.547µs""#);
    check_entry("date-time=12:15:13", r#""date-time""#, r#""12:15:13""#);
    check_entry(r#""rate limit"=128MB/s"#, r#""rate limit""#, r#""128MB/s""#);
    let entry = r#""rate l\n\"imit"="128 MB/s""#.to_owned();
    check_entry(&entry, r#""rate l\n\"imit""#, r#""128 MB/s""#);
}

#[test]
fn quoted_scan_keeps_the_exact_span() {
    let mut scanner = Scanner::over(r#""a\"b]" rest"#);
    let s = LogStr::parse_from_sequence(&mut scanner).unwrap();
    assert_eq!(s, LogStr::Quoted(r#""a\"b]""#));
    assert_eq!(scanner.remain(), " rest");
}

#[test]
fn quoted_scan_round_trips() {
    let line = r#""x\\\"y\n""#;
    let mut scanner = Scanner::over(line);
    let s = LogStr::parse_from_sequence(&mut scanner).unwrap();
    assert_eq!(json(&s), line);
    assert!(scanner.is_done());
}

#[test]
fn unquoted_scan_takes_the_whole_token() {
    let mut scanner = Scanner::over("héllo/wörld:1");
    let s = LogStr::parse_from_sequence(&mut scanner).unwrap();
    assert_eq!(s, LogStr::Unquoted("héllo/wörld:1"));
    assert_eq!(json(&s), "\"héllo/wörld:1\"");
    assert!(scanner.is_done());
}

#[test]
fn empty_token_is_unquoted() {
    let mut scanner = Scanner::over("=v");
    let s = LogStr::parse_from_sequence(&mut scanner).unwrap();
    assert_eq!(s, LogStr::Unquoted(""));
    assert_eq!(scanner.remain(), "=v");
}

#[test]
fn object_token_stops_at_comma_and_brace() {
    let mut scanner = Scanner::over("ab,c}");
    let s = LogStr::parse_from_object_sequence(&mut scanner).unwrap();
    assert_eq!(s, LogStr::Unquoted("ab"));
    let mut scanner = Scanner::over("ab,c}");
    let s = LogStr::parse_from_sequence(&mut scanner).unwrap();
    assert_eq!(s, LogStr::Unquoted("ab,c}"));
}

#[test]
fn token_at_end_of_input_is_empty_error() {
    let mut scanner = Scanner::over("");
    assert_eq!(LogStr::parse_from_sequence(&mut scanner), Err(ParseError::Empty));
}

#[test]
fn unterminated_quote_is_unexpected_eof() {
    let mut scanner = Scanner::over(r#""abc\""#);
    let r = LogStr::parse_from_sequence(&mut scanner);
    assert_eq!(
        r,
        Err(ParseError::Unexpected {
            expected: "\"".to_string(),
            got: "EOF".to_string(),
            hint: "^>\"<\"abc\\\"".to_string(),
        })
    );
    assert_eq!(scanner.remain(), r#""abc\""#);
}

#[test]
fn source_location_parsing() {
    assert!(FileLineRef::from_str("<unknown>").is_none());
    let f = FileLineRef::from_str("a/b.rs:42").unwrap();
    assert_eq!(f.file, "a/b.rs");
    assert_eq!(f.line, "42");
    assert!(FileLineRef::from_str("no-colon-here").is_none());
    let f = FileLineRef::from_str("C:/x.rs:7").unwrap();
    assert_eq!(f.file, "C:/x.rs");
    assert_eq!(f.line, "7");
    assert_eq!(json(&f), r#"{"file":"C:/x.rs","line":"7"}"#);
}

#[test]
fn level_parsing() {
    assert_eq!(LogLevel::from_str("INFO"), LogLevel::Info);
    assert_eq!(LogLevel::from_str("FATAL"), LogLevel::Fatal);
    assert_eq!(LogLevel::from_str("ERROR"), LogLevel::Error);
    assert_eq!(LogLevel::from_str("WARN"), LogLevel::Warn);
    assert_eq!(LogLevel::from_str("DEBUG"), LogLevel::Debug);
    assert_eq!(LogLevel::from_str("TRACE"), LogLevel::Unknown);
    assert_eq!(LogLevel::from_str("info"), LogLevel::Unknown);
    assert_eq!(json(&LogLevel::from_str("TRACE")), "\"<unknown>\"");
    assert_eq!(json(&LogLevel::Warn), "\"warn\"");
}

#[test]
fn end_to_end_record() {
    let line = r#"[2021-01-01T00:00:00] [INFO] [src/main.rs:10] ["hello world"] [a=b] ["c d"=1]"#;
    let out = with_log_record(line, |r| {
        assert_eq!(r.level, LogLevel::Info);
        let source = r.source.as_ref().unwrap();
        assert_eq!(source.file, "src/main.rs");
        assert_eq!(source.line, "10");
        assert_eq!(r.message, LogStr::Quoted("\"hello world\""));
        assert_eq!(r.entries.len(), 2);
        json(&r)
    })
    .unwrap();
    assert_eq!(
        out,
        r#"{"message":"hello world","level":"info","source":{"file":"src/main.rs","line":"10"},"time":"2021-01-01T00:00:00","fields":{"a":"b","c d":"1"}}"#
    );
}

#[test]
fn malformed_field_is_dropped() {
    let line = "[t] [WARN] [x.rs:1] [m] [a=1] [b=2] [broken] [c=3]";
    let mut diagnostics = Vec::new();
    let r = parse_log_record(line, &mut diagnostics).unwrap();
    assert_eq!(r.entries.len(), 3);
    assert_eq!(r.entries[2].key, LogStr::Unquoted("c"));
    assert_eq!(r.entries[2].value, LogStr::Unquoted("3"));
    assert_eq!(diagnostics.len(), 1);
    assert_eq!(
        json(&r),
        r#"{"message":"m","level":"warn","source":{"file":"x.rs","line":"1"},"time":"t","fields":{"a":"1","b":"2","c":"3"}}"#
    );
}

#[test]
fn field_with_quoted_bracket_recovers_after_it() {
    let line = r#"[t] [INFO] [x.rs:1] [m] ["k]"=v junk] [ok=1]"#;
    let mut diagnostics = Vec::new();
    let r = parse_log_record(line, &mut diagnostics).unwrap();
    assert_eq!(r.entries.len(), 1);
    assert_eq!(r.entries[0].key, LogStr::Unquoted("ok"));
}

#[test]
fn unknown_source_and_level() {
    let line = "[t] [TRACE] [<unknown>] [m]";
    let r = with_log_record(line, |r| json(&r)).unwrap();
    assert_eq!(
        r,
        r#"{"message":"m","level":"<unknown>","source":null,"time":"t","fields":{}}"#
    );
}

#[test]
fn colon_free_source_is_dropped() {
    let line = "[t] [INFO] [main] [m]   ";
    let mut diagnostics = Vec::new();
    let r = parse_log_record(line, &mut diagnostics).unwrap();
    assert!(r.source.is_none());
    assert!(r.entries.is_empty());
    assert!(diagnostics.is_empty());
}

#[test]
fn duplicate_keys_are_kept_in_order() {
    let line = "[t] [INFO] [a:1] [m] [k=1] [k=2]";
    let r = with_log_record(line, |r| json(&r)).unwrap();
    assert!(r.ends_with(r#""fields":{"k":"1","k":"2"}}"#));
}

#[test]
fn time_is_escaped_as_a_json_string() {
    let line = "[a\"b\\c\td\u{1}] [INFO] [a:1] [m]";
    let r = with_log_record(line, |r| json(&r)).unwrap();
    assert!(r.contains(r#""time":"a\"b\\c\td\u0001""#));
}

#[test]
fn broken_fixed_part_is_fatal() {
    let mut diagnostics = Vec::new();
    assert!(parse_log_record("[t] [INFO] [a:1]", &mut diagnostics).is_err());
    assert!(parse_log_record("t [INFO] [a:1] [m]", &mut diagnostics).is_err());
    assert!(parse_log_record("[t] [INFO] [a:1] [\"m]", &mut diagnostics).is_err());
    assert!(parse_log_record("", &mut diagnostics).is_err());
    assert!(parse_log_record("[t] [INFO] [a:1] [m] [broken", &mut diagnostics).is_err());
}

#[test]
fn zap_object_example() {
    let out = with_zap_object(r#"{a=1,"b c"="d e"}"#, |z| {
        assert_eq!(z.fields.len(), 2);
        assert_eq!(z.fields[0].key, LogStr::Unquoted("a"));
        assert_eq!(z.fields[1].value, LogStr::Quoted("\"d e\""));
        json(&z)
    })
    .unwrap();
    assert_eq!(out, r#"{"a":"1","b c":"d e"}"#);
}

#[test]
fn zap_object_with_spaces() {
    let z = parse_zap_object("{ a=1 , b=2}").unwrap();
    assert_eq!(json(&z), r#"{"a":"1","b":"2"}"#);
}

#[test]
fn zap_object_errors() {
    assert!(parse_zap_object("a=1}").is_err());
    assert!(parse_zap_object("{}").is_err());
    assert!(parse_zap_object("{a=1;b=2}").is_err());
    assert_eq!(parse_zap_object("{a=1,b=2").unwrap_err(), ParseError::Empty);
    assert!(parse_zap_object("{a=1 b=2}").is_err());
}

#[test]
fn fixed_part_errors_are_named() {
    let mut diagnostics = Vec::new();
    let e = parse_log_record("[t] [INFO] [a.rs:1] m", &mut diagnostics).unwrap_err();
    assert_eq!(
        e,
        ParseError::Unexpected {
            expected: "[".to_string(),
            got: "m".to_string(),
            hint: "s:1] >m<m".to_string(),
        }
    );
    assert_eq!(parse_log_record("[t] [INFO", &mut diagnostics).unwrap_err(), ParseError::Empty);
    let e = with_log_record("[t] [INFO] [a:1] [m] [x] y", |_| ()).unwrap_err();
    assert!(matches!(e, ParseError::Unexpected { .. }));
    assert!(diagnostics.is_empty());
}

#[test]
fn one_diagnostic_per_dropped_field() {
    let mut diagnostics = Vec::new();
    let r = parse_log_record("[t] [INFO] [a:1] [m] [x] [y=1] [z] [w=2]", &mut diagnostics).unwrap();
    assert_eq!(r.entries.len(), 2);
    assert_eq!(diagnostics.len(), 2);
}
