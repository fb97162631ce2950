use pandoraslogs::format::{detect_csv, detect_logfmt, skip_whitespace_and_bom, LogFormat};

#[test]
fn test_detect_json() {
    assert_eq!(LogFormat::detect(b"{\"level\":\"info\"}"), LogFormat::Json);
    assert_eq!(
        LogFormat::detect(b"  {\"level\":\"info\"}"),
        LogFormat::Json
    );
    assert_eq!(
        LogFormat::detect(b"\n{\"level\":\"info\"}"),
        LogFormat::Json
    );
}

#[test]
fn test_detect_json_with_bom() {
    let mut data = vec![0xEF, 0xBB, 0xBF];
    data.extend_from_slice(b"{\"level\":\"info\"}");
    assert_eq!(LogFormat::detect(&data), LogFormat::Json);
}

#[test]
fn test_detect_logfmt() {
    assert_eq!(
        LogFormat::detect(b"level=info msg=\"hello world\" duration=1.5ms"),
        LogFormat::Logfmt
    );
    assert_eq!(
        LogFormat::detect(b"ts=2025-02-12T10:31:45Z level=info component=api-server"),
        LogFormat::Logfmt
    );
}

#[test]
fn test_detect_csv() {
    let csv = b"timestamp,level,component,message\n2025-02-12T10:31:45Z,INFO,api-server,hello\n";
    assert_eq!(LogFormat::detect(csv), LogFormat::Csv);
}

#[test]
fn test_detect_plain_text() {
    assert_eq!(
        LogFormat::detect(b"2025-02-12T10:31:45Z INFO api-server request_id=abc123"),
        LogFormat::PlainText
    );
}

#[test]
fn test_detect_empty() {
    assert_eq!(LogFormat::detect(b""), LogFormat::PlainText);
    assert_eq!(LogFormat::detect(b"   "), LogFormat::PlainText);
}

#[test]
fn detect_json_after_bom_and_spaces() {
    assert_eq!(
        LogFormat::detect(b"\xEF\xBB\xBF   {\"level\":\"x\"}"),
        LogFormat::Json
    );
}

#[test]
fn detect_json_array_of_objects() {
    assert_eq!(LogFormat::detect(b"[ {\"a\":1}]"), LogFormat::Json);
    assert_eq!(LogFormat::detect(b"[1,2]"), LogFormat::PlainText);
    assert_eq!(LogFormat::detect(b"["), LogFormat::PlainText);
}

#[test]
fn one_pair_is_not_logfmt() {
    assert!(!detect_logfmt(b"level=info hello"));
    assert!(detect_logfmt(b"level=info hello msg=x"));
    assert!(detect_logfmt(b"a=\"x y\" b=\"unterminated"));
    assert!(!detect_logfmt(b"=x =y"));
    assert!(!detect_logfmt(b""));
}

#[test]
fn csv_needs_a_matching_second_line() {
    assert!(detect_csv(b"a,b,c", b"a,b,c\n1,2,3\n"));
    assert!(detect_csv(b"a,b,c\r", b"a,b,c\r\n1,2,3"));
    assert!(!detect_csv(b"a,b,c", b"a,b,c\n1,2\n"));
    assert!(!detect_csv(b"a,b,c", b"a,b,c"));
    assert!(!detect_csv(b"a,b", b"a,b\n1,2\n"));
    assert!(!detect_csv(b"1,2,3,4,5,6", b"1,2,3,4,5,6\n1,2,3,4,5,6\n"));
}

#[test]
fn detection_reads_the_window_only() {
    let mut data = vec![b' '; 4096];
    data.extend_from_slice(b"{\"a\":1}");
    assert_eq!(LogFormat::detect(&data), LogFormat::PlainText);
    let mut data = vec![b' '; 4095];
    data.extend_from_slice(b"{\"a\":1}");
    assert_eq!(LogFormat::detect(&data), LogFormat::Json);
}

#[test]
fn skip_bom_and_whitespace() {
    assert_eq!(skip_whitespace_and_bom(b"\xEF\xBB\xBF \t\r\nx "), b"x ");
    assert_eq!(skip_whitespace_and_bom(b"\xEF\xBBx"), b"\xEF\xBBx");
    assert_eq!(skip_whitespace_and_bom(b"  "), b"");
}

#[test]
fn format_names() {
    assert_eq!(LogFormat::PlainText.as_str(), "plain-text");
    assert_eq!(LogFormat::Json.as_str(), "json");
    assert_eq!(LogFormat::Logfmt.as_str(), "logfmt");
    assert_eq!(LogFormat::Csv.as_str(), "csv");
}
