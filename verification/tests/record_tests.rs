use memstore::record::parse_record_line;
use memstore::record::record_line;
use memstore::record::record_lines;
use memstore::record::records_from_lines;
use memstore::record::Record;

fn rec(id: u128, ts: i64, kind: &str, weight: &str, text: &str) -> Record {
    Record {
        id,
        ts,
        kind: kind.to_string(),
        weight: weight.to_string(),
        text: text.to_string(),
    }
}

#[test]
fn record_line_exact_format() {
    let r = rec(1, 2, "summary", "1", "hello");
    assert_eq!(record_line(&r), "1|2|summary|1|hello");
    let r2 = rec(10, -5, "a\nb", "0.5", "x|y");
    assert_eq!(record_line(&r2), "10|-5|a\\nb|0.5|x\\|y");
}

#[test]
fn record_round_trips_with_specials() {
    // A literal pipe, a caller-produced escape sequence, and a backslash.
    let cases = [
        rec(1, 2, "summary", "1", "hello world"),
        rec(1758000000123, 1758000000, "summary", "1", "a|b\\nc\\d"),
        rec(7, -3, "note", "0.25", "line one\nline two"),
        rec(u128::MAX, i64::MIN, "k", "inf", "\\|\n\\"),
        rec(0, 0, "", "0", ""),
    ];
    for r in cases {
        let line = record_line(&r);
        let back = parse_record_line(&line);
        assert_eq!(back, Some(r.clone()), "round trip failed for line {line:?}");
    }
}

#[test]
fn malformed_record_lines_are_dropped() {
    for line in [
        "",
        "   ",
        "1|2|k|1",
        "x|2|k|1|t",
        "1|y|k|1|t",
        "1|2|k|notanumber|t",
        "1|2|k||t",
        "1.5|2|k|1|t",
    ] {
        assert_eq!(parse_record_line(line), None, "accepted {line:?}");
    }
}

#[test]
fn kind_with_pipe_breaks_the_line() {
    // The kind field is not the tail of the line, so an escaped pipe in it
    // shifts the following fields and the line no longer parses.
    let r = rec(1, 2, "a|b", "1", "t");
    let line = record_line(&r);
    assert_eq!(parse_record_line(&line), None);
}

#[test]
fn signed_numeric_fields_parse_like_std() {
    let r = parse_record_line("+1|+2|k|1|t").unwrap();
    assert_eq!(r.id, 1);
    assert_eq!(r.ts, 2);
    let r2 = parse_record_line("1|-2|k|1|t").unwrap();
    assert_eq!(r2.ts, -2);
    assert_eq!(parse_record_line("-1|2|k|1|t"), None);
}

#[test]
fn special_float_weights_are_accepted() {
    assert!(parse_record_line("1|2|k|inf|t").is_some());
    assert!(parse_record_line("1|2|k|NaN|t").is_some());
    assert!(parse_record_line("1|2|k|-1.5e3|t").is_some());
    assert_eq!(parse_record_line("1|2|k|1..5|t"), None);
}

#[test]
fn weight_text_is_kept_verbatim() {
    let r = rec(3, 4, "k", "1.250", "t");
    let line = record_line(&r);
    let back = parse_record_line(&line).unwrap();
    assert_eq!(back.weight, "1.250");
}

#[test]
fn empty_record_log_loads_empty() {
    let lines: Vec<String> = Vec::new();
    assert!(records_from_lines(&lines).is_empty());
}

#[test]
fn record_log_skips_bad_lines() {
    let lines: Vec<String> = vec![
        "1|10|summary|1|first".to_string(),
        "".to_string(),
        "garbage".to_string(),
        "2|20|summary|1|second".to_string(),
        "3|x|summary|1|broken".to_string(),
    ];
    let records = records_from_lines(&lines);
    assert_eq!(records.len(), 2);
    assert_eq!(records[0].id, 1);
    assert_eq!(records[0].text, "first");
    assert_eq!(records[1].id, 2);
    assert_eq!(records[1].text, "second");
}

#[test]
fn record_lines_serializes_in_order() {
    let rs = vec![rec(1, 10, "k", "1", "a"), rec(2, 20, "k", "1", "b")];
    let lines = record_lines(&rs);
    assert_eq!(lines, vec!["1|10|k|1|a".to_string(), "2|20|k|1|b".to_string()]);
    let back = records_from_lines(&lines);
    assert_eq!(back, rs);
}
