//! The frequency store: application identity to chord counts.
use vstd::prelude::*;
use crate::counts::{bumped, capped, count_in, ChordCounts};

verus! {

/// The count of `sig` under `app` in `m`, zero where either is absent.
pub open spec fn count_of(m: Map<Seq<char>, Map<Seq<char>, u64>>, app: Seq<char>, sig: Seq<char>) -> u64 {
    if m.contains_key(app) {
        count_in(m[app], sig)
    } else {
        0
    }
}

/// The table of `app` in `m`, empty where `app` is absent.
pub open spec fn table_of(m: Map<Seq<char>, Map<Seq<char>, u64>>, app: Seq<char>) -> Map<Seq<char>, u64> {
    if m.contains_key(app) {
        m[app]
    } else {
        Map::empty()
    }
}

/// `m` after one more occurrence of `sig` under `app`, missing entries starting at zero.
pub open spec fn recorded(m: Map<Seq<char>, Map<Seq<char>, u64>>, app: Seq<char>, sig: Seq<char>) -> Map<
    Seq<char>,
    Map<Seq<char>, u64>,
> {
    m.insert(app, table_of(m, app).insert(sig, bumped(count_of(m, app, sig))))
}

/// `m` after `n` occurrences of `sig` under `app`.
pub open spec fn recorded_times(
    m: Map<Seq<char>, Map<Seq<char>, u64>>,
    app: Seq<char>,
    sig: Seq<char>,
    n: nat,
) -> Map<Seq<char>, Map<Seq<char>, u64>>
    decreases n,
{
    if n == 0 {
        m
    } else {
        recorded(recorded_times(m, app, sig, (n - 1) as nat), app, sig)
    }
}

/// Recording a chord never lowers a count: it raises the chord's own count by one (up to
/// `u64::MAX`) and leaves every other count as it was.
pub proof fn lemma_record_monotonic(
    m: Map<Seq<char>, Map<Seq<char>, u64>>,
    app: Seq<char>,
    sig: Seq<char>,
    a: Seq<char>,
    s: Seq<char>,
)
    ensures
        count_of(recorded(m, app, sig), a, s) >= count_of(m, a, s),
        (a == app && s == sig) ==> count_of(recorded(m, app, sig), a, s) == bumped(count_of(m, a, s)),
        !(a == app && s == sig) ==> count_of(recorded(m, app, sig), a, s) == count_of(m, a, s),
{
}

/// Recording the same chord `n` times adds `n` to its count, up to `u64::MAX`.
pub proof fn lemma_record_repeated(
    m: Map<Seq<char>, Map<Seq<char>, u64>>,
    app: Seq<char>,
    sig: Seq<char>,
    n: nat,
)
    ensures
        count_of(recorded_times(m, app, sig, n), app, sig) == capped((count_of(m, app, sig) + n) as nat),
    decreases n,
{
    if n > 0 {
        lemma_record_repeated(m, app, sig, (n - 1) as nat);
    }
}

/// `rows` holds each application of `m` exactly once, with its table.
pub open spec fn lists_tables(rows: Seq<(String, ChordCounts)>, m: Map<Seq<char>, Map<Seq<char>, u64>>) -> bool {
    &&& forall|i: int, j: int|
        0 <= i < j < rows.len() ==> (#[trigger] rows[i]).0@ != (#[trigger] rows[j]).0@
    &&& forall|i: int|
        0 <= i < rows.len() ==> (#[trigger] rows[i]).1.wf() && m.contains_key(rows[i].0@)
            && m[rows[i].0@] == rows[i].1@
    &&& forall|k: Seq<char>|
        #[trigger] m.contains_key(k) ==> exists|i: int| 0 <= i < rows.len() && (#[trigger] rows[i]).0@ == k
}

/// Per-application chord counts.
pub struct FrequencyStore {
    apps: Vec<(String, ChordCounts)>,
    model: Ghost<Map<Seq<char>, Map<Seq<char>, u64>>>,
}

impl View for FrequencyStore {
    type V = Map<Seq<char>, Map<Seq<char>, u64>>;

    closed spec fn view(&self) -> Map<Seq<char>, Map<Seq<char>, u64>> {
        self.model@
    }
}

impl FrequencyStore {
    /// Well-formedness: one row per application, each holding a well-formed table.
    pub closed spec fn wf(&self) -> bool {
        lists_tables(self.apps@, self.model@)
    }

    /// The applications and their tables, in the order the store keeps them.
    pub closed spec fn listing(&self) -> Seq<(Seq<char>, Map<Seq<char>, u64>)> {
        self.apps@.map_values(|r: (String, ChordCounts)| (r.0@, r.1@))
    }

    /// An empty store.
    pub fn new() -> (r: FrequencyStore)
        ensures
            r.wf(),
            r@ == Map::<Seq<char>, Map<Seq<char>, u64>>::empty(),
    {
        FrequencyStore { apps: Vec::new(), model: Ghost(Map::empty()) }
    }

    fn find(&self, app: &String) -> (r: Option<usize>)
        requires
            self.wf(),
        ensures
            match r {
                Some(i) => i < self.apps@.len() && self.apps@[i as int].0@ == app@,
                None => !self@.contains_key(app@),
            },
    {
        let mut i: usize = 0;
        while i < self.apps.len()
            invariant
                self.wf(),
                i <= self.apps@.len(),
                forall|j: int| 0 <= j < i ==> (#[trigger] self.apps@[j]).0@ != app@,
            decreases self.apps@.len() - i,
        {
            if self.apps[i].0 == *app {
                return Some(i);
            }
            i = i + 1;
        }
        None
    }

    /// The rows of the store, one per application.
    pub fn apps(&self) -> (r: &Vec<(String, ChordCounts)>)
        requires
            self.wf(),
        ensures
            lists_tables(r@, self@),
            self.listing() == r@.map_values(|e: (String, ChordCounts)| (e.0@, e.1@)),
    {
        &self.apps
    }

    /// How often `sig` was recorded under `app`; zero if never.
    pub fn count(&self, app: &String, sig: &String) -> (r: u64)
        requires
            self.wf(),
        ensures
            r == count_of(self@, app@, sig@),
    {
        match self.find(app) {
            Some(i) => self.apps[i].1.count(sig),
            None => 0,
        }
    }

    /// Replaces the whole table of `app` with `table`, adding `app` if it is new.
    pub fn put_table(&mut self, app: String, table: ChordCounts)
        requires
            old(self).wf(),
            table.wf(),
        ensures
            final(self).wf(),
            final(self)@ == old(self)@.insert(app@, table@),
    {
        let ghost k = app@;
        let ghost t = table@;
        let ghost at: int;
        match self.find(&app) {
            Some(i) => {
                self.apps.set(i, (app, table));
                proof {
                    at = i as int;
                }
            },
            None => {
                self.apps.push((app, table));
                proof {
                    at = self.apps@.len() - 1;
                }
            },
        }
        self.model = Ghost(self.model@.insert(k, t));
        proof {
            let rows = self.apps@;
            let m = self.model@;
            assert(rows[at].0@ == k);
            assert forall|i: int| 0 <= i < rows.len() implies (#[trigger] rows[i]).1.wf()
                && m.contains_key(rows[i].0@) && m[rows[i].0@] == rows[i].1@ by {
                if i != at {
                    assert(old(self).apps@[i] == rows[i]);
                }
            }
            assert forall|q: Seq<char>| #[trigger] m.contains_key(q) implies exists|i: int|
                0 <= i < rows.len() && (#[trigger] rows[i]).0@ == q by {
                if q == k {
                    assert(rows[at].0@ == q);
                } else {
                    let i = choose|i: int|
                        0 <= i < old(self).apps@.len() && (#[trigger] old(self).apps@[i]).0@ == q;
                    assert(rows[i].0@ == q);
                }
            }
            assert forall|i: int, j: int| 0 <= i < j < rows.len() implies (#[trigger] rows[i]).0@
                != (#[trigger] rows[j]).0@ by {
                if i != at && j != at {
                    assert(old(self).apps@[i] == rows[i]);
                    assert(old(self).apps@[j] == rows[j]);
                } else if i == at {
                    assert(old(self).apps@[j] == rows[j]);
                } else {
                    assert(old(self).apps@[i] == rows[i]);
                }
            }
        }
    }

    /// Records one more occurrence of `sig` under `app`, creating missing entries at zero.
    pub fn record(&mut self, app: String, sig: String)
        requires
            old(self).wf(),
        ensures
            final(self).wf(),
            final(self)@ == recorded(old(self)@, app@, sig@),
    {
        match self.find(&app) {
            Some(i) => {
                let mut table = ChordCounts::new();
                std::mem::swap(&mut table, &mut self.apps[i].1);
                let ghost before = self.model@;
                self.model = Ghost(before.insert(app@, Map::empty()));
                proof {
                    let rows = self.apps@;
                    assert forall|j: int| 0 <= j < rows.len() implies (#[trigger] rows[j]).1.wf()
                        && self.model@.contains_key(rows[j].0@) && self.model@[rows[j].0@]
                        == rows[j].1@ by {
                        if j != i {
                            assert(old(self).apps@[j] == rows[j]);
                        }
                    }
                    assert forall|q: Seq<char>| #[trigger] self.model@.contains_key(q) implies exists|j: int|
                        0 <= j < rows.len() && (#[trigger] rows[j]).0@ == q by {
                        if q != app@ {
                            let j = choose|j: int|
                                0 <= j < old(self).apps@.len() && (#[trigger] old(self).apps@[j]).0@ == q;
                            assert(rows[j].0@ == q);
                        } else {
                            assert(rows[i as int].0@ == q);
                        }
                    }
                    assert forall|a: int, b: int| 0 <= a < b < rows.len() implies (#[trigger] rows[a]).0@
                        != (#[trigger] rows[b]).0@ by {
                        assert(old(self).apps@[a].0@ != old(self).apps@[b].0@);
                    }
                }
                table.increment(sig);
                self.put_table(app, table);
            },
            None => {
                let mut table = ChordCounts::new();
                table.increment(sig);
                self.put_table(app, table);
            },
        }
    }
}

} // verus!
