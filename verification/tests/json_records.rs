use bgtzip::json_records::{
    is_object_text, looks_like_json, parse_json_records, trim_ascii, JsonRecord, JsonType,
};

fn json_lines(lines: &[&str]) -> Vec<u8> {
    let mut buf = Vec::new();
    for line in lines {
        buf.extend_from_slice(line.as_bytes());
        buf.push(b'\n');
    }
    buf
}

#[test]
fn parse_valid_json() {
    let data = json_lines(&[
        r#"{"level":"INFO","msg":"ok"}"#,
        r#"{"level":"ERROR","msg":"fail"}"#,
    ]);
    let recs = parse_json_records(&data, b'\n');
    assert_eq!(recs.len(), 2);
    assert!(!recs[0].parse_error);
    assert!(!recs[1].parse_error);
}

#[test]
fn parse_invalid_json() {
    let data = json_lines(&[
        r#"{"level":"INFO"}"#,
        "not json at all",
        r#"{"level":"ERROR"}"#,
    ]);
    let recs = parse_json_records(&data, b'\n');
    assert_eq!(recs.len(), 3);
    assert!(!recs[0].parse_error);
    assert!(recs[1].parse_error);
    assert!(!recs[2].parse_error);
}

#[test]
fn looks_like_json_detect() {
    assert!(looks_like_json(br#"{"key":"value"}"#));
    assert!(!looks_like_json(b"Feb 16 server sshd: hello"));
    assert!(!looks_like_json(b""));
}

#[test]
fn looks_like_json_reads_only_the_first_line() {
    assert!(looks_like_json(b"  {\"a\":1}  \nnot json\n"));
    assert!(!looks_like_json(b"not json\n{\"a\":1}\n"));
    assert!(!looks_like_json(b"\n{\"a\":1}\n"));
    assert!(!looks_like_json(b"[1,2,3]\n"));
    assert!(!looks_like_json(b"42"));
    assert!(!looks_like_json(b"{\"a\":1} trailing"));
}

#[test]
fn object_text_needs_bytes_and_an_object() {
    assert!(is_object_text(2, Some(JsonType::Object)));
    assert!(!is_object_text(0, Some(JsonType::Object)));
    assert!(!is_object_text(2, Some(JsonType::Array)));
    assert!(!is_object_text(2, None));
}

#[test]
fn trim_strips_ascii_white_space_at_both_ends() {
    assert_eq!(trim_ascii(b"  a b \t\r\n"), b"a b");
    assert_eq!(trim_ascii(b"\x0c x"), b"x");
    assert_eq!(trim_ascii(b"x"), b"x");
    assert_eq!(trim_ascii(b" \t \n"), b"");
    assert_eq!(trim_ascii(b""), b"");
    // a vertical tab is not white space here
    assert_eq!(trim_ascii(b"\x0bx\x0b"), b"\x0bx\x0b");
}

#[test]
fn blank_records_are_left_out_and_spans_kept() {
    let data = b"{\"a\":1}\n\n   \n  [1] \nnope\n{\"b\":2}";
    let recs = parse_json_records(data, b'\n');
    let rows: Vec<(usize, usize, bool, bool)> =
        recs.iter().map(|r| (r.offset, r.length, r.parse_error, r.value.is_some())).collect();
    assert_eq!(
        rows,
        vec![(0, 8, false, true), (13, 7, false, true), (20, 5, true, false), (25, 7, false, true)]
    );
    assert_eq!(recs[1].content(data), b"  [1] \n");
    assert!(recs[1].value.as_ref().unwrap().is_array());
    assert_eq!(recs[0].value.as_ref().unwrap()["a"], 1);
    assert!(parse_json_records(b"", b'\n').is_empty());
    assert!(parse_json_records(b"\n\n", b'\n').is_empty());
}

#[test]
fn record_from_parse_result() {
    let rec = JsonRecord::new(3, 4, None);
    assert!(rec.parse_error);
    assert_eq!((rec.offset, rec.length), (3, 4));
    let rec = JsonRecord::new(0, 2, Some(serde_json::Value::Null));
    assert!(!rec.parse_error);
    assert!(rec.value.unwrap().is_null());
}

#[test]
fn json_type_names() {
    let names: Vec<&str> = [
        JsonType::Null,
        JsonType::Bool,
        JsonType::Number,
        JsonType::String,
        JsonType::Array,
        JsonType::Object,
    ]
    .iter()
    .map(|t| t.name())
    .collect();
    assert_eq!(names, vec!["null", "bool", "number", "string", "array", "object"]);
}
