//! Snapshots of the frequency store as JSON text: `{"app": {"signature": count}}`.
use vstd::prelude::*;
use std::collections::BTreeMap;
use crate::counts::{lists_counts, ChordCounts};
use crate::store::{lists_tables, FrequencyStore};

verus! {

#[verifier::external_type_specification]
#[verifier::external_body]
pub struct ExJsonError(serde_json::Error);

/// Why a snapshot could not be read.
#[derive(Debug, PartialEq, Eq, Structural)]
pub enum SnapshotError {
    /// The text is not a JSON object of objects of unsigned counts.
    Malformed,
}

/// The signature rows of a snapshot entry, as plain values.
pub open spec fn rows_view(rows: Seq<(String, u64)>) -> Seq<(Seq<char>, u64)> {
    rows.map_values(|r: (String, u64)| (r.0@, r.1))
}

/// Snapshot entries, as plain values.
pub open spec fn entries_view(e: Seq<(String, Vec<(String, u64)>)>) -> Seq<
    (Seq<char>, Seq<(Seq<char>, u64)>),
> {
    e.map_values(|x: (String, Vec<(String, u64)>)| (x.0@, rows_view(x.1@)))
}

/// No two entries name the same application, and no entry lists a signature twice.
pub open spec fn entries_distinct(e: Seq<(Seq<char>, Seq<(Seq<char>, u64)>)>) -> bool {
    &&& forall|i: int, j: int| 0 <= i < j < e.len() ==> (#[trigger] e[i]).0 != (#[trigger] e[j]).0
    &&& forall|i: int, a: int, b: int|
        0 <= i < e.len() && 0 <= a < b < e[i].1.len() ==> (#[trigger] e[i].1[a]).0
            != (#[trigger] e[i].1[b]).0
}

/// The table that `rows` describe, a later row for a signature overriding an earlier one.
pub open spec fn table_from(rows: Seq<(Seq<char>, u64)>) -> Map<Seq<char>, u64>
    decreases rows.len(),
{
    if rows.len() == 0 {
        Map::empty()
    } else {
        table_from(rows.drop_last()).insert(rows.last().0, rows.last().1)
    }
}

/// `m` with each entry's table put in place of the application's table, in order.
pub open spec fn merged(
    m: Map<Seq<char>, Map<Seq<char>, u64>>,
    e: Seq<(Seq<char>, Seq<(Seq<char>, u64)>)>,
) -> Map<Seq<char>, Map<Seq<char>, u64>>
    decreases e.len(),
{
    if e.len() == 0 {
        m
    } else {
        merged(m, e.drop_last()).insert(e.last().0, table_from(e.last().1))
    }
}

proof fn lemma_merged_union(
    m: Map<Seq<char>, Map<Seq<char>, u64>>,
    e: Seq<(Seq<char>, Seq<(Seq<char>, u64)>)>,
)
    ensures
        merged(m, e) == m.union_prefer_right(merged(Map::empty(), e)),
    decreases e.len(),
{
    if e.len() == 0 {
        assert(m.union_prefer_right(Map::empty()) =~= m);
    } else {
        lemma_merged_union(m, e.drop_last());
        assert(merged(m, e) =~= m.union_prefer_right(merged(Map::empty(), e)));
    }
}

/// Merging the same snapshot entries a second time changes nothing.
pub proof fn lemma_restore_idempotent(
    m: Map<Seq<char>, Map<Seq<char>, u64>>,
    e: Seq<(Seq<char>, Seq<(Seq<char>, u64)>)>,
)
    ensures
        merged(merged(m, e), e) == merged(m, e),
{
    lemma_merged_union(m, e);
    lemma_merged_union(merged(m, e), e);
    let t = merged(Map::<Seq<char>, Map<Seq<char>, u64>>::empty(), e);
    assert(m.union_prefer_right(t).union_prefer_right(t) =~= m.union_prefer_right(t));
}

/// The entries that serde_json reads from `text`, or `None` where it rejects the text.
pub uninterp spec fn parsed_snapshot(text: Seq<char>) -> Option<Seq<(Seq<char>, Seq<(Seq<char>, u64)>)>>;

/// The JSON text that serde_json writes for the tables `m`.
pub uninterp spec fn snapshot_json(m: Map<Seq<char>, Map<Seq<char>, u64>>) -> Seq<char>;

/// Relies on serde_json::from_str into ordered maps of unsigned counts: the outcome, and
/// the entries in key order, depend on the text alone.
#[verifier::external_body]
fn parse_json(text: &str) -> (r: Result<Vec<(String, Vec<(String, u64)>)>, serde_json::Error>)
    ensures
        match r {
            Ok(e) => parsed_snapshot(text@) == Some(entries_view(e@)),
            Err(_) => parsed_snapshot(text@) is None,
        },
{
    let m: BTreeMap<String, BTreeMap<String, u64>> = serde_json::from_str(text)?;
    Ok(m.into_iter().map(|(app, t)| (app, t.into_iter().collect())).collect())
}

/// Relies on serde_json::to_string of ordered maps: it fails only where a `Serialize` impl
/// fails or a map key is not a string, neither of which a map of `&str` to map of `&str`
/// to `u64` has; with distinct keys, the text depends only on the tables that the entries
/// describe.
#[verifier::external_body]
fn write_json(e: &Vec<(String, Vec<(String, u64)>)>) -> (r: Result<String, serde_json::Error>)
    requires
        entries_distinct(entries_view(e@)),
    ensures
        r is Ok,
        r is Ok ==> r->Ok_0@ == snapshot_json(merged(Map::empty(), entries_view(e@))),
{
    let m: BTreeMap<&str, BTreeMap<&str, u64>> = e.iter().map(
        |(app, t)| (app.as_str(), t.iter().map(|(k, v)| (k.as_str(), *v)).collect()),
    ).collect();
    serde_json::to_string(&m)
}

proof fn lemma_table_from_lists(rows: Seq<(String, u64)>, m: Map<Seq<char>, u64>)
    requires
        lists_counts(rows, m),
    ensures
        table_from(rows_view(rows)) == m,
    decreases rows.len(),
{
    if rows.len() == 0 {
        assert(m =~= Map::empty()) by {
            assert forall|k: Seq<char>| !m.contains_key(k) by {
                if m.contains_key(k) {
                    let i = choose|i: int| 0 <= i < rows.len() && (#[trigger] rows[i]).0@ == k;
                }
            }
        }
    } else {
        let n = rows.len() - 1;
        let k = rows[n].0@;
        let rest = rows.drop_last();
        let sub = m.remove(k);
        assert forall|i: int| 0 <= i < rest.len() implies sub.contains_key((#[trigger] rest[i]).0@)
            && sub[rest[i].0@] == rest[i].1 by {
            assert(rows[i].0@ != rows[n].0@);
        }
        assert forall|q: Seq<char>| #[trigger] sub.contains_key(q) implies exists|i: int|
            0 <= i < rest.len() && (#[trigger] rest[i]).0@ == q by {
            let i = choose|i: int| 0 <= i < rows.len() && (#[trigger] rows[i]).0@ == q;
            assert(rest[i] == rows[i]);
        }
        assert forall|i: int, j: int| 0 <= i < j < rest.len() implies (#[trigger] rest[i]).0@
            != (#[trigger] rest[j]).0@ by {
            assert(rows[i].0@ != rows[j].0@);
        }
        lemma_table_from_lists(rest, sub);
        assert(rows_view(rows).drop_last() =~= rows_view(rest));
        assert(sub.insert(k, rows[n].1) =~= m);
    }
}

/// Copies the rows of a table into plain pairs.
fn table_rows(t: &ChordCounts) -> (r: Vec<(String, u64)>)
    requires
        t.wf(),
    ensures
        lists_counts(r@, t@),
{
    let rows = t.rows();
    let mut out: Vec<(String, u64)> = Vec::new();
    let mut i: usize = 0;
    while i < rows.len()
        invariant
            i <= rows@.len(),
            out@.len() == i,
            lists_counts(rows@, t@),
            forall|j: int| 0 <= j < i ==> (#[trigger] out@[j]).0@ == rows@[j].0@ && out@[j].1 == rows@[j].1,
        decreases rows@.len() - i,
    {
        out.push((rows[i].0.clone(), rows[i].1));
        i = i + 1;
    }
    proof {
        assert forall|a: int, b: int| 0 <= a < b < out@.len() implies (#[trigger] out@[a]).0@
            != (#[trigger] out@[b]).0@ by {
            assert(rows@[a].0@ != rows@[b].0@);
        }
        assert forall|k: Seq<char>| #[trigger] t@.contains_key(k) implies exists|j: int|
            0 <= j < out@.len() && (#[trigger] out@[j]).0@ == k by {
            let j = choose|j: int| 0 <= j < rows@.len() && (#[trigger] rows@[j]).0@ == k;
            assert(out@[j].0@ == k);
        }
    }
    out
}

/// The store as snapshot entries: one per application, with distinct keys at both levels.
pub fn snapshot_entries(store: &FrequencyStore) -> (r: Vec<(String, Vec<(String, u64)>)>)
    requires
        store.wf(),
    ensures
        merged(Map::empty(), entries_view(r@)) == store@,
        entries_distinct(entries_view(r@)),
{
    let apps = store.apps();
    let mut out: Vec<(String, Vec<(String, u64)>)> = Vec::new();
    let mut i: usize = 0;
    while i < apps.len()
        invariant
            i <= apps@.len(),
            out@.len() == i,
            lists_tables(apps@, store@),
            forall|j: int|
                0 <= j < i ==> (#[trigger] out@[j]).0@ == apps@[j].0@ && lists_counts(
                    out@[j].1@,
                    apps@[j].1@,
                ),
        decreases apps@.len() - i,
    {
        let rows = table_rows(&apps[i].1);
        out.push((apps[i].0.clone(), rows));
        i = i + 1;
    }
    proof {
        lemma_merged_lists(out@, apps@, store@);
        let ev = entries_view(out@);
        assert forall|i: int, j: int| 0 <= i < j < ev.len() implies (#[trigger] ev[i]).0
            != (#[trigger] ev[j]).0 by {
            assert(apps@[i].0@ != apps@[j].0@);
        }
        assert forall|i: int, a: int, b: int|
            0 <= i < ev.len() && 0 <= a < b < ev[i].1.len() implies (#[trigger] ev[i].1[a]).0
            != (#[trigger] ev[i].1[b]).0 by {
            assert(lists_counts(out@[i].1@, apps@[i].1@));
            assert(out@[i].1@[a].0@ != out@[i].1@[b].0@);
        }
    }
    out
}

proof fn lemma_merged_lists(
    out: Seq<(String, Vec<(String, u64)>)>,
    apps: Seq<(String, ChordCounts)>,
    m: Map<Seq<char>, Map<Seq<char>, u64>>,
)
    requires
        lists_tables(apps, m),
        out.len() == apps.len(),
        forall|j: int|
            0 <= j < out.len() ==> (#[trigger] out[j]).0@ == apps[j].0@ && lists_counts(
                out[j].1@,
                apps[j].1@,
            ),
    ensures
        merged(Map::empty(), entries_view(out)) == m,
    decreases out.len(),
{
    if out.len() == 0 {
        assert(m =~= Map::empty()) by {
            assert forall|k: Seq<char>| !m.contains_key(k) by {
                if m.contains_key(k) {
                    let i = choose|i: int| 0 <= i < apps.len() && (#[trigger] apps[i]).0@ == k;
                }
            }
        }
    } else {
        let n = out.len() - 1;
        let k = apps[n].0@;
        let rest = apps.drop_last();
        let sub = m.remove(k);
        assert forall|i: int| 0 <= i < rest.len() implies (#[trigger] rest[i]).1.wf()
            && sub.contains_key(rest[i].0@) && sub[rest[i].0@] == rest[i].1@ by {
            assert(apps[i].0@ != apps[n].0@);
        }
        assert forall|q: Seq<char>| #[trigger] sub.contains_key(q) implies exists|i: int|
            0 <= i < rest.len() && (#[trigger] rest[i]).0@ == q by {
            let i = choose|i: int| 0 <= i < apps.len() && (#[trigger] apps[i]).0@ == q;
            assert(rest[i] == apps[i]);
        }
        assert forall|i: int, j: int| 0 <= i < j < rest.len() implies (#[trigger] rest[i]).0@
            != (#[trigger] rest[j]).0@ by {
            assert(apps[i].0@ != apps[j].0@);
        }
        let orest = out.drop_last();
        assert forall|j: int| 0 <= j < orest.len() implies (#[trigger] orest[j]).0@ == rest[j].0@
            && lists_counts(orest[j].1@, rest[j].1@) by {
            assert(orest[j] == out[j]);
        }
        lemma_merged_lists(orest, rest, sub);
        assert(entries_view(out).drop_last() =~= entries_view(orest));
        lemma_table_from_lists(out[n].1@, apps[n].1@);
        assert(sub.insert(k, apps[n].1@) =~= m);
    }
}

/// Builds the table that `rows` describe.
pub fn table_of_rows(rows: &Vec<(String, u64)>) -> (r: ChordCounts)
    ensures
        r.wf(),
        r@ == table_from(rows_view(rows@)),
{
    let mut t = ChordCounts::new();
    let mut i: usize = 0;
    while i < rows.len()
        invariant
            i <= rows@.len(),
            t.wf(),
            t@ == table_from(rows_view(rows@).take(i as int)),
        decreases rows@.len() - i,
    {
        t.set(rows[i].0.clone(), rows[i].1);
        proof {
            assert(rows_view(rows@).take(i + 1).drop_last() =~= rows_view(rows@).take(i as int));
        }
        i = i + 1;
    }
    proof {
        assert(rows_view(rows@).take(rows@.len() as int) =~= rows_view(rows@));
    }
    t
}

/// Puts each entry's table in place of the application's table, in order.
pub fn merge_entries(store: &mut FrequencyStore, entries: &Vec<(String, Vec<(String, u64)>)>)
    requires
        old(store).wf(),
    ensures
        final(store).wf(),
        final(store)@ == merged(old(store)@, entries_view(entries@)),
{
    let mut i: usize = 0;
    while i < entries.len()
        invariant
            i <= entries@.len(),
            store.wf(),
            store@ == merged(old(store)@, entries_view(entries@).take(i as int)),
        decreases entries@.len() - i,
    {
        let t = table_of_rows(&entries[i].1);
        store.put_table(entries[i].0.clone(), t);
        proof {
            assert(entries_view(entries@).take(i + 1).drop_last() =~= entries_view(entries@).take(
                i as int,
            ));
        }
        i = i + 1;
    }
    proof {
        assert(entries_view(entries@).take(entries@.len() as int) =~= entries_view(entries@));
    }
}

/// Reads a snapshot and merges it into `store`, each application's table replacing the
/// store's wholesale. On failure the store is left as it was.
pub fn restore_snapshot(store: &mut FrequencyStore, text: &str) -> (r: Result<(), SnapshotError>)
    requires
        old(store).wf(),
    ensures
        final(store).wf(),
        r is Ok <==> parsed_snapshot(text@) is Some,
        r is Ok ==> final(store)@ == merged(old(store)@, parsed_snapshot(text@)->0),
        r is Err ==> r->Err_0 == SnapshotError::Malformed && final(store)@ == old(store)@,
{
    match parse_json(text) {
        Ok(entries) => {
            merge_entries(store, &entries);
            Ok(())
        },
        Err(_) => Err(SnapshotError::Malformed),
    }
}

/// Writes the whole store as snapshot text.
pub fn snapshot(store: &FrequencyStore) -> (r: String)
    requires
        store.wf(),
    ensures
        r@ == snapshot_json(store@),
{
    let entries = snapshot_entries(store);
    match write_json(&entries) {
        Ok(text) => text,
        Err(_) => String::new(),
    }
}

} // verus!
