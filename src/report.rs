//! The aggregate report: a Total table plus one table per application.
use vstd::prelude::*;
use crate::counts::{capped, count_in, ChordCounts};
use crate::store::FrequencyStore;

verus! {

/// The sum of the counts of `sig` over all tables of `listing`.
pub open spec fn sum_for(listing: Seq<(Seq<char>, Map<Seq<char>, u64>)>, sig: Seq<char>) -> nat
    decreases listing.len(),
{
    if listing.len() == 0 {
        0
    } else {
        (sum_for(listing.drop_last(), sig) + count_in(listing.last().1, sig)) as nat
    }
}

/// Whether some table of `listing` holds `sig`.
pub open spec fn appears_in(listing: Seq<(Seq<char>, Map<Seq<char>, u64>)>, sig: Seq<char>) -> bool {
    exists|i: int| 0 <= i < listing.len() && (#[trigger] listing[i]).1.contains_key(sig)
}

proof fn lemma_capped_add(a: nat, v: u64)
    ensures
        (if capped(a) + v > u64::MAX { u64::MAX } else { (capped(a) + v) as u64 }) == capped((a + v) as nat),
{
}

/// Sums the counts of each signature over all applications, saturating at `u64::MAX`.
pub fn totals(store: &FrequencyStore) -> (r: ChordCounts)
    requires
        store.wf(),
    ensures
        r.wf(),
        forall|sig: Seq<char>| #[trigger] r@.contains_key(sig) == appears_in(store.listing(), sig),
        forall|sig: Seq<char>|
            r@.contains_key(sig) ==> #[trigger] r@[sig] == capped(sum_for(store.listing(), sig)),
{
    let apps = store.apps();
    let ghost listing = store.listing();
    let mut total = ChordCounts::new();
    let mut i: usize = 0;
    while i < apps.len()
        invariant
            total.wf(),
            i <= apps@.len(),
            listing.len() == apps@.len(),
            listing == apps@.map_values(|e: (String, ChordCounts)| (e.0@, e.1@)),
            forall|k: int| 0 <= k < apps@.len() ==> (#[trigger] apps@[k]).1.wf(),
            forall|sig: Seq<char>|
                #[trigger] total@.contains_key(sig) == appears_in(listing.take(i as int), sig),
            forall|sig: Seq<char>|
                #[trigger] count_in(total@, sig) == capped(sum_for(listing.take(i as int), sig)),
        decreases apps@.len() - i,
    {
        let table = &apps[i].1;
        let rows = table.rows();
        let mut j: usize = 0;
        while j < rows.len()
            invariant
                total.wf(),
                table.wf(),
                i < apps@.len(),
                j <= rows@.len(),
                crate::counts::lists_counts(rows@, table@),
                listing[i as int].1 == table@,
                forall|sig: Seq<char>|
                    #[trigger] total@.contains_key(sig) == (appears_in(listing.take(i as int), sig)
                        || exists|jj: int| 0 <= jj < j && (#[trigger] rows@[jj]).0@ == sig),
                forall|sig: Seq<char>|
                    #[trigger] count_in(total@, sig) == capped(
                        (sum_for(listing.take(i as int), sig) + if exists|jj: int|
                            0 <= jj < j && (#[trigger] rows@[jj]).0@ == sig {
                            table@[sig] as nat
                        } else {
                            0nat
                        }) as nat,
                    ),
            decreases rows@.len() - j,
        {
            let sig = &rows[j].0;
            let v = rows[j].1;
            let c = total.count(sig);
            let ghost s = sig@;
            let ghost before = total@;
            proof {
                assert(!exists|jj: int| 0 <= jj < j && (#[trigger] rows@[jj]).0@ == s) by {
                    if exists|jj: int| 0 <= jj < j && (#[trigger] rows@[jj]).0@ == s {
                        let jj = choose|jj: int| 0 <= jj < j && (#[trigger] rows@[jj]).0@ == s;
                        assert(rows@[jj].0@ != rows@[j as int].0@);
                    }
                }
                lemma_capped_add(sum_for(listing.take(i as int), s), v);
            }
            total.set(sig.clone(), c.saturating_add(v));
            proof {
                assert forall|q: Seq<char>| #[trigger] total@.contains_key(q) == (appears_in(
                    listing.take(i as int),
                    q,
                ) || exists|jj: int| 0 <= jj < j + 1 && (#[trigger] rows@[jj]).0@ == q) by {
                    if q == s {
                        assert(rows@[j as int].0@ == q);
                    } else {
                        assert(before.contains_key(q) == total@.contains_key(q));
                        if exists|jj: int| 0 <= jj < j + 1 && (#[trigger] rows@[jj]).0@ == q {
                            let jj = choose|jj: int| 0 <= jj < j + 1 && (#[trigger] rows@[jj]).0@ == q;
                            assert(jj < j);
                        }
                    }
                }
                assert forall|q: Seq<char>| #[trigger] count_in(total@, q) == capped(
                    (sum_for(listing.take(i as int), q) + if exists|jj: int|
                        0 <= jj < j + 1 && (#[trigger] rows@[jj]).0@ == q {
                        table@[q] as nat
                    } else {
                        0nat
                    }) as nat,
                ) by {
                    if q == s {
                        assert(rows@[j as int].0@ == q);
                        assert(table@[q] == v);
                    } else {
                        assert(count_in(before, q) == count_in(total@, q));
                        if exists|jj: int| 0 <= jj < j + 1 && (#[trigger] rows@[jj]).0@ == q {
                            let jj = choose|jj: int| 0 <= jj < j + 1 && (#[trigger] rows@[jj]).0@ == q;
                            assert(jj < j);
                        }
                    }
                }
            }
            j = j + 1;
        }
        proof {
            let next = listing.take(i + 1);
            assert(next.drop_last() =~= listing.take(i as int));
            assert(next.last() == listing[i as int]);
            assert forall|q: Seq<char>| #[trigger] total@.contains_key(q) == appears_in(next, q) by {
                let seen = exists|jj: int| 0 <= jj < rows@.len() && (#[trigger] rows@[jj]).0@ == q;
                assert(seen == table@.contains_key(q));
                if appears_in(listing.take(i as int), q) {
                    let k = choose|k: int|
                        0 <= k < i && (#[trigger] listing.take(i as int)[k]).1.contains_key(q);
                    assert(next[k] == listing.take(i as int)[k]);
                }
                if appears_in(next, q) {
                    let k = choose|k: int| 0 <= k < next.len() && (#[trigger] next[k]).1.contains_key(q);
                    if k < i {
                        assert(next[k] == listing.take(i as int)[k]);
                    }
                }
                if table@.contains_key(q) {
                    assert(next[i as int].1.contains_key(q));
                }
            }
            assert forall|q: Seq<char>| #[trigger] count_in(total@, q) == capped(sum_for(next, q)) by {
                let seen = exists|jj: int| 0 <= jj < rows@.len() && (#[trigger] rows@[jj]).0@ == q;
                assert(seen == table@.contains_key(q));
            }
        }
        i = i + 1;
    }
    proof {
        assert(listing.take(apps@.len() as int) =~= listing);
        assert forall|sig: Seq<char>| total@.contains_key(sig) implies #[trigger] total@[sig]
            == capped(sum_for(listing, sig)) by {
            assert(count_in(total@, sig) == total@[sig]);
        }
    }
    total
}

} // verus!
