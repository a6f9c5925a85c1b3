//! A table from chord signature to occurrence count.
use vstd::prelude::*;

verus! {

/// The count after one more occurrence: counts saturate at `u64::MAX`.
pub open spec fn bumped(n: u64) -> u64 {
    if n < u64::MAX {
        (n + 1) as u64
    } else {
        n
    }
}

/// `n`, or `u64::MAX` where `n` does not fit.
pub open spec fn capped(n: nat) -> u64 {
    if n < u64::MAX {
        n as u64
    } else {
        u64::MAX
    }
}

/// The count that `m` holds for `k`, zero where `k` is absent.
pub open spec fn count_in(m: Map<Seq<char>, u64>, k: Seq<char>) -> u64 {
    if m.contains_key(k) {
        m[k]
    } else {
        0
    }
}

/// `rows` holds each key of `m` exactly once, with its count.
pub open spec fn lists_counts(rows: Seq<(String, u64)>, m: Map<Seq<char>, u64>) -> bool {
    &&& forall|i: int, j: int|
        0 <= i < j < rows.len() ==> (#[trigger] rows[i]).0@ != (#[trigger] rows[j]).0@
    &&& forall|i: int|
        0 <= i < rows.len() ==> m.contains_key((#[trigger] rows[i]).0@) && m[rows[i].0@]
            == rows[i].1
    &&& forall|k: Seq<char>|
        #[trigger] m.contains_key(k) ==> exists|i: int| 0 <= i < rows.len() && (#[trigger] rows[i]).0@ == k
}

/// Occurrence counts of chord signatures, keyed by the signature text.
pub struct ChordCounts {
    rows: Vec<(String, u64)>,
    model: Ghost<Map<Seq<char>, u64>>,
}

impl View for ChordCounts {
    type V = Map<Seq<char>, u64>;

    closed spec fn view(&self) -> Map<Seq<char>, u64> {
        self.model@
    }
}

impl ChordCounts {
    /// Well-formedness: the rows list the modelled map, one row per key.
    pub closed spec fn wf(&self) -> bool {
        lists_counts(self.rows@, self.model@)
    }

    /// An empty table.
    pub fn new() -> (r: ChordCounts)
        ensures
            r.wf(),
            r@ == Map::<Seq<char>, u64>::empty(),
    {
        ChordCounts { rows: Vec::new(), model: Ghost(Map::empty()) }
    }

    /// The position of the row for `sig`, if there is one.
    fn find(&self, sig: &String) -> (r: Option<usize>)
        requires
            self.wf(),
        ensures
            match r {
                Some(i) => i < self.rows@.len() && self.rows@[i as int].0@ == sig@,
                None => !self@.contains_key(sig@),
            },
    {
        let mut i: usize = 0;
        while i < self.rows.len()
            invariant
                self.wf(),
                i <= self.rows@.len(),
                forall|j: int| 0 <= j < i ==> (#[trigger] self.rows@[j]).0@ != sig@,
            decreases self.rows@.len() - i,
        {
            if self.rows[i].0 == *sig {
                return Some(i);
            }
            i = i + 1;
        }
        None
    }

    /// How often `sig` was recorded; zero if never.
    pub fn count(&self, sig: &String) -> (r: u64)
        requires
            self.wf(),
        ensures
            r == count_in(self@, sig@),
    {
        match self.find(sig) {
            Some(i) => self.rows[i].1,
            None => 0,
        }
    }

    /// Number of distinct signatures in the table.
    pub fn len(&self) -> (r: usize)
        requires
            self.wf(),
        ensures
            r == self@.dom().len(),
    {
        proof {
            self.lemma_dom_len();
        }
        self.rows.len()
    }

    proof fn lemma_dom_len(&self)
        requires
            self.wf(),
        ensures
            self@.dom().len() == self.rows@.len(),
            self@.dom().finite(),
        decreases self.rows@.len(),
    {
        let keys = self.rows@.map_values(|r: (String, u64)| r.0@);
        assert(keys.no_duplicates()) by {
            assert forall|i: int, j: int| 0 <= i < keys.len() && 0 <= j < keys.len() && i != j
                implies keys[i] != keys[j] by {
                if i < j {
                    assert(self.rows@[i].0@ != self.rows@[j].0@);
                } else {
                    assert(self.rows@[j].0@ != self.rows@[i].0@);
                }
            }
        }
        assert(self@.dom() =~= keys.to_set()) by {
            assert forall|k: Seq<char>| self@.dom().contains(k) implies keys.to_set().contains(k) by {
                let i = choose|i: int| 0 <= i < self.rows@.len() && (#[trigger] self.rows@[i]).0@ == k;
                assert(keys[i] == k);
            }
        }
        keys.unique_seq_to_set();
    }

    /// The rows of the table, one per signature, in insertion order.
    pub fn rows(&self) -> (r: &Vec<(String, u64)>)
        requires
            self.wf(),
        ensures
            lists_counts(r@, self@),
    {
        &self.rows
    }

    /// Sets the count of `sig` to `n`, adding the signature if it is new.
    pub fn set(&mut self, sig: String, n: u64)
        requires
            old(self).wf(),
        ensures
            final(self).wf(),
            final(self)@ == old(self)@.insert(sig@, n),
    {
        let ghost k = sig@;
        let ghost at: int;
        match self.find(&sig) {
            Some(i) => {
                self.rows.set(i, (sig, n));
                proof {
                    at = i as int;
                }
            },
            None => {
                self.rows.push((sig, n));
                proof {
                    at = self.rows@.len() - 1;
                }
            },
        }
        self.model = Ghost(self.model@.insert(k, n));
        proof {
            let rows = self.rows@;
            let m = self.model@;
            assert(rows[at].0@ == k);
            assert forall|i: int| 0 <= i < rows.len() implies m.contains_key(
                (#[trigger] rows[i]).0@,
            ) && m[rows[i].0@] == rows[i].1 by {
                if i != at {
                    assert(old(self).rows@[i] == rows[i]);
                }
            }
            assert forall|q: Seq<char>| #[trigger] m.contains_key(q) implies exists|i: int|
                0 <= i < rows.len() && (#[trigger] rows[i]).0@ == q by {
                if q == k {
                    assert(rows[at].0@ == q);
                } else {
                    let i = choose|i: int|
                        0 <= i < old(self).rows@.len() && (#[trigger] old(self).rows@[i]).0@ == q;
                    assert(rows[i].0@ == q);
                }
            }
            assert forall|i: int, j: int| 0 <= i < j < rows.len() implies (#[trigger] rows[i]).0@
                != (#[trigger] rows[j]).0@ by {
                if i != at && j != at {
                    assert(old(self).rows@[i] == rows[i]);
                    assert(old(self).rows@[j] == rows[j]);
                } else if i == at {
                    assert(old(self).rows@[j] == rows[j]);
                } else {
                    assert(old(self).rows@[i] == rows[i]);
                }
            }
        }
    }

    /// Records one more occurrence of `sig`, saturating at `u64::MAX`.
    pub fn increment(&mut self, sig: String)
        requires
            old(self).wf(),
        ensures
            final(self).wf(),
            final(self)@ == old(self)@.insert(sig@, bumped(count_in(old(self)@, sig@))),
    {
        let c = self.count(&sig);
        let n = if c < u64::MAX {
            c + 1
        } else {
            c
        };
        self.set(sig, n);
    }
}

} // verus!
