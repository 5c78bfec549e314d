use memstore::record::Record;
use memstore::vector::parse_vector_line;
use memstore::vector::vector_line;
use memstore::vector::vector_lines;
use memstore::vector::vectors_from_lines;

fn strings(xs: &[&str]) -> Vec<String> {
    xs.iter().map(|s| s.to_string()).collect()
}

#[test]
fn vector_line_exact_format() {
    assert_eq!(vector_line(7, &strings(&["0.500000", "1.000000"])), "7|2|0.500000,1.000000");
    assert_eq!(vector_line(1, &strings(&[])), "1|0|");
}

#[test]
fn vector_round_trips() {
    let vals = strings(&["0.000000", "0.707107", "-0.707107"]);
    let line = vector_line(42, &vals);
    let back = parse_vector_line(&line).unwrap();
    assert_eq!(back.id, 42);
    assert_eq!(back.values, vals);
}

#[test]
fn vector_round_trips_full_dimension() {
    let vals: Vec<String> = (0..256).map(|_| "0.062500".to_string()).collect();
    let line = vector_line(9, &vals);
    let back = parse_vector_line(&line).unwrap();
    assert_eq!(back.id, 9);
    assert_eq!(back.values.len(), 256);
    assert_eq!(back.values, vals);
}

#[test]
fn declared_dimension_must_match() {
    // Dimension mismatch drops the line.
    assert!(parse_vector_line("7|3|0.5,1.0").is_none());
    assert!(parse_vector_line("7|1|0.5,1.0").is_none());
    assert!(parse_vector_line("7|2|0.5,1.0").is_some());
}

#[test]
fn unparseable_components_are_skipped_before_counting() {
    // Only float-shaped pieces count against the declared dimension.
    let e = parse_vector_line("7|2|0.5,abc,1.0").unwrap();
    assert_eq!(e.values, strings(&["0.5", "1.0"]));
    assert!(parse_vector_line("7|3|0.5,abc,1.0").is_none());
}

#[test]
fn malformed_vector_lines_are_dropped() {
    for line in ["", "7|2", "x|2|0.5,1.0", "7|x|0.5,1.0", "7"] {
        assert!(parse_vector_line(line).is_none(), "accepted {line:?}");
    }
}

#[test]
fn zero_dimension_line_is_accepted() {
    let e = parse_vector_line("5|0|").unwrap();
    assert_eq!(e.id, 5);
    assert!(e.values.is_empty());
}

#[test]
fn empty_vector_log_loads_empty() {
    let lines: Vec<String> = Vec::new();
    assert!(vectors_from_lines(&lines).is_empty());
}

#[test]
fn vector_log_skips_bad_lines() {
    let lines: Vec<String> = vec![
        "1|1|0.5".to_string(),
        "bad".to_string(),
        "2|2|0.1,0.2".to_string(),
        "3|5|0.1,0.2".to_string(),
    ];
    let entries = vectors_from_lines(&lines);
    assert_eq!(entries.len(), 2);
    assert_eq!(entries[0].id, 1);
    assert_eq!(entries[1].id, 2);
}

#[test]
fn vector_lines_pair_ids_with_records() {
    let records = vec![
        Record { id: 1, ts: 10, kind: "k".into(), weight: "1".into(), text: "a".into() },
        Record { id: 2, ts: 20, kind: "k".into(), weight: "1".into(), text: "b".into() },
    ];
    let values = vec![strings(&["0.1", "0.2"]), strings(&["0.3", "0.4"])];
    let lines = vector_lines(&records, &values);
    assert_eq!(lines.len(), 2);
    let e0 = parse_vector_line(&lines[0]).unwrap();
    let e1 = parse_vector_line(&lines[1]).unwrap();
    assert_eq!(e0.id, records[0].id);
    assert_eq!(e1.id, records[1].id);
    assert_eq!(e0.values, values[0]);
    assert_eq!(e1.values, values[1]);
}
