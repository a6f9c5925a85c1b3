use keychord::counts::ChordCounts;
use keychord::report::totals;
use keychord::snapshot::{merge_entries, restore_snapshot, snapshot, snapshot_entries, SnapshotError};
use keychord::store::FrequencyStore;

fn s(x: &str) -> String {
    x.to_string()
}

fn table(rows: &[(&str, u64)]) -> ChordCounts {
    let mut t = ChordCounts::new();
    for (k, v) in rows {
        t.set(s(k), *v);
    }
    t
}

#[test]
fn total_sums_across_apps() {
    let mut store = FrequencyStore::new();
    store.put_table(s("a"), table(&[("X", 2)]));
    store.put_table(s("b"), table(&[("X", 3)]));
    let total = totals(&store);
    assert_eq!(total.count(&s("X")), 5);
    assert_eq!(total.len(), 1);
}

#[test]
fn total_keeps_signatures_of_one_app() {
    let mut store = FrequencyStore::new();
    store.put_table(s("a"), table(&[("X", 2), ("Y", 7)]));
    store.put_table(s("b"), table(&[("X", 3), ("Z", 1)]));
    let total = totals(&store);
    assert_eq!(total.count(&s("X")), 5);
    assert_eq!(total.count(&s("Y")), 7);
    assert_eq!(total.count(&s("Z")), 1);
    assert_eq!(total.count(&s("W")), 0);
    assert_eq!(total.len(), 3);
}

#[test]
fn total_of_empty_store_is_empty() {
    assert_eq!(totals(&FrequencyStore::new()).len(), 0);
}

#[test]
fn total_saturates() {
    let mut store = FrequencyStore::new();
    store.put_table(s("a"), table(&[("X", u64::MAX)]));
    store.put_table(s("b"), table(&[("X", 1)]));
    assert_eq!(totals(&store).count(&s("X")), u64::MAX);
}

#[test]
fn increment_saturates() {
    let mut t = table(&[("X", u64::MAX - 1)]);
    t.increment(s("X"));
    assert_eq!(t.count(&s("X")), u64::MAX);
    t.increment(s("X"));
    assert_eq!(t.count(&s("X")), u64::MAX);
    t.increment(s("Y"));
    assert_eq!(t.count(&s("Y")), 1);
}

#[test]
fn record_creates_missing_entries() {
    let mut store = FrequencyStore::new();
    store.record(s("editor"), s("[A]"));
    store.record(s("editor"), s("[A]"));
    store.record(s("editor"), s("[B]"));
    assert_eq!(store.count(&s("editor"), &s("[A]")), 2);
    assert_eq!(store.count(&s("editor"), &s("[B]")), 1);
    assert_eq!(store.count(&s("other"), &s("[A]")), 0);
}

#[test]
fn snapshot_text_is_json() {
    let mut store = FrequencyStore::new();
    store.put_table(s("b"), table(&[("X", 3)]));
    store.put_table(s("a"), table(&[("Y", 1), ("X", 2)]));
    let text = snapshot(&store);
    assert_eq!(text, "{\"a\":{\"X\":2,\"Y\":1},\"b\":{\"X\":3}}");
}

#[test]
fn restore_then_snapshot_round_trips() {
    let text = "{\"editor\":{\"[Ctrl, C]\":3,\"[Ctrl, V]\":1},\"shell\":{\"[Tab]\":9}}";
    let mut store = FrequencyStore::new();
    assert_eq!(restore_snapshot(&mut store, text), Ok(()));
    assert_eq!(store.count(&s("editor"), &s("[Ctrl, C]")), 3);
    assert_eq!(store.count(&s("shell"), &s("[Tab]")), 9);
    let again = snapshot(&store);
    assert_eq!(again, text);
    let mut second = FrequencyStore::new();
    assert_eq!(restore_snapshot(&mut second, &again), Ok(()));
    assert_eq!(snapshot(&second), text);
}

#[test]
fn restore_replaces_app_table_wholesale() {
    let mut store = FrequencyStore::new();
    store.put_table(s("editor"), table(&[("[A]", 5), ("[B]", 1)]));
    store.put_table(s("shell"), table(&[("[C]", 2)]));
    assert_eq!(restore_snapshot(&mut store, "{\"editor\":{\"[A]\":1}}"), Ok(()));
    assert_eq!(store.count(&s("editor"), &s("[A]")), 1);
    assert_eq!(store.count(&s("editor"), &s("[B]")), 0);
    assert_eq!(store.count(&s("shell"), &s("[C]")), 2);
}

#[test]
fn malformed_snapshot_is_rejected() {
    let mut store = FrequencyStore::new();
    store.record(s("editor"), s("[A]"));
    assert_eq!(restore_snapshot(&mut store, "{\"editor\": {\"[A]\": -1}}"), Err(SnapshotError::Malformed));
    assert_eq!(restore_snapshot(&mut store, "{\"editor\" {}}"), Err(SnapshotError::Malformed));
    assert_eq!(store.count(&s("editor"), &s("[A]")), 1);
    assert_eq!(store.apps().len(), 1);
}

#[test]
fn merge_twice_is_merge_once() {
    let entries = vec![
        (s("a"), vec![(s("X"), 1), (s("X"), 4)]),
        (s("b"), vec![(s("Y"), 2)]),
        (s("a"), vec![(s("Z"), 3)]),
    ];
    let mut store = FrequencyStore::new();
    merge_entries(&mut store, &entries);
    let once = snapshot(&store);
    assert_eq!(once, "{\"a\":{\"Z\":3},\"b\":{\"Y\":2}}");
    merge_entries(&mut store, &entries);
    assert_eq!(snapshot(&store), once);
}

#[test]
fn entries_describe_store() {
    let mut store = FrequencyStore::new();
    store.record(s("a"), s("[X]"));
    store.record(s("b"), s("[Y]"));
    store.record(s("b"), s("[Y]"));
    let entries = snapshot_entries(&store);
    assert_eq!(entries, vec![(s("a"), vec![(s("[X]"), 1)]), (s("b"), vec![(s("[Y]"), 2)])]);
    let mut copy = FrequencyStore::new();
    merge_entries(&mut copy, &entries);
    assert_eq!(copy.count(&s("b"), &s("[Y]")), 2);
    assert_eq!(copy.count(&s("a"), &s("[X]")), 1);
}
