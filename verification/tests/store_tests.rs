use memstore::record::Record;
use memstore::store::age_secs;
use memstore::store::candidate_k;
use memstore::store::cmd_compact;
use memstore::store::select_candidates;
use memstore::store::sort_by_ts_desc;

fn rec(id: u128, ts: i64, text: &str) -> Record {
    Record {
        id,
        ts,
        kind: "summary".to_string(),
        weight: "1".to_string(),
        text: text.to_string(),
    }
}

#[test]
fn compact_keeps_the_newest() {
    // Ten records with strictly increasing timestamps, keep three.
    let records: Vec<Record> = (0..10).map(|i| rec(i as u128, i as i64, "t")).collect();
    let kept = cmd_compact(records, 3);
    let ts: Vec<i64> = kept.iter().map(|r| r.ts).collect();
    assert_eq!(ts, vec![9, 8, 7]);
}

#[test]
fn compact_with_large_keep_keeps_everything() {
    let records = vec![rec(1, 5, "a"), rec(2, 9, "b"), rec(3, 1, "c")];
    let kept = cmd_compact(records, 100);
    let ids: Vec<u128> = kept.iter().map(|r| r.id).collect();
    assert_eq!(ids, vec![2, 1, 3]);
}

#[test]
fn compact_keep_zero_empties_the_store() {
    let records = vec![rec(1, 5, "a"), rec(2, 9, "b")];
    assert!(cmd_compact(records, 0).is_empty());
}

#[test]
fn equal_timestamps_keep_input_order() {
    let records = vec![rec(1, 7, "first"), rec(2, 7, "second"), rec(3, 7, "third")];
    let sorted = sort_by_ts_desc(records);
    let ids: Vec<u128> = sorted.iter().map(|r| r.id).collect();
    assert_eq!(ids, vec![1, 2, 3]);
}

#[test]
fn compact_keeps_the_earliest_of_equal_timestamps() {
    let records = vec![rec(1, 7, "first"), rec(2, 9, "newest"), rec(3, 7, "second")];
    let kept = cmd_compact(records, 2);
    let ids: Vec<u128> = kept.iter().map(|r| r.id).collect();
    assert_eq!(ids, vec![2, 1]);
}

#[test]
fn sort_orders_newest_first() {
    let records = vec![rec(1, -5, "a"), rec(2, 30, "b"), rec(3, 0, "c"), rec(4, 30, "d")];
    let sorted = sort_by_ts_desc(records);
    let ids: Vec<u128> = sorted.iter().map(|r| r.id).collect();
    assert_eq!(ids, vec![2, 4, 3, 1]);
}

#[test]
fn select_candidates_filters_in_order() {
    let records = vec![rec(1, 1, "a"), rec(2, 2, "b"), rec(3, 3, "c"), rec(4, 4, "d")];
    let ids: Vec<u128> = vec![4, 2];
    let picked = select_candidates(records, &ids);
    let got: Vec<u128> = picked.iter().map(|r| r.id).collect();
    assert_eq!(got, vec![2, 4]);
}

#[test]
fn select_candidates_with_no_ids_is_empty() {
    let records = vec![rec(1, 1, "a")];
    let ids: Vec<u128> = Vec::new();
    assert!(select_candidates(records, &ids).is_empty());
}

#[test]
fn candidate_count_is_clamped() {
    assert_eq!(candidate_k(3, 100), 30);
    assert_eq!(candidate_k(0, 100), 10);
    assert_eq!(candidate_k(1000, 50), 50);
    assert_eq!(candidate_k(0, 5), 5);
    assert_eq!(candidate_k(usize::MAX, 100), 100);
    assert_eq!(candidate_k(1, 7), 7);
}

#[test]
fn future_timestamps_age_as_zero() {
    // A record stamped after "now" contributes no age, so its recency
    // factor is the maximum.
    assert_eq!(age_secs(100, 200), 0);
    assert_eq!(age_secs(100, 100), 0);
    assert_eq!(age_secs(200, 100), 100);
    assert_eq!(age_secs(0, -86400), 86400);
    assert_eq!(age_secs(i64::MAX, i64::MIN), u64::MAX);
}

#[test]
fn add_then_recent_shows_the_new_record() {
    // A fresh store, one added record, then the most recent one listed.
    let added = rec(1758000000123, 1758000000, "hello world");
    let store = vec![added.clone()];
    let listed = cmd_compact(store, 1);
    assert_eq!(listed.len(), 1);
    assert_eq!(listed[0].kind, "summary");
    assert_eq!(listed[0].text, "hello world");
    assert_eq!(listed[0], added);
}
