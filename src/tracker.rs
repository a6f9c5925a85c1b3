//! The chord tracker: turns key presses and releases into chord observations.
use vstd::prelude::*;
use crate::store::{recorded, FrequencyStore};

verus! {

/// A key going down or up; the key is named by its identifier text.
pub enum KeyEvent {
    Press(String),
    Release(String),
}

/// A completed chord: the focused application and the chord's signature.
pub struct Chord {
    pub app: String,
    pub signature: String,
}

/// The abstract state of a tracker.
pub struct ChordState {
    /// Keys held down, in the order they were pressed.
    pub pressed: Seq<Seq<char>>,
    /// Keys taken off the press stack during the current chord, in that order.
    pub released: Seq<Seq<char>>,
    /// The frequency tables.
    pub counts: Map<Seq<char>, Map<Seq<char>, u64>>,
}

/// The key names joined by `", "`.
pub open spec fn joined(keys: Seq<Seq<char>>) -> Seq<char>
    decreases keys.len(),
{
    if keys.len() == 0 {
        Seq::empty()
    } else if keys.len() == 1 {
        keys[0]
    } else {
        joined(keys.drop_last()) + seq![',', ' '] + keys.last()
    }
}

/// The text of a key list: `[A, B, C]`.
pub open spec fn rendered(keys: Seq<Seq<char>>) -> Seq<char> {
    seq!['['] + joined(keys) + seq![']']
}

/// The signature of a chord whose keys left the press stack in the order `released`.
pub open spec fn signature_of(released: Seq<Seq<char>>) -> Seq<char> {
    rendered(released.reverse())
}

/// What a focus lookup gave, as an optional application identity.
pub open spec fn focus_of(focus: Result<String, String>) -> Option<Seq<char>> {
    match focus {
        Ok(app) => Some(app@),
        Err(_) => None,
    }
}

/// Whether handling `ev` in state `s` consults the focused application.
pub open spec fn wants_focus(s: ChordState, ev: KeyEvent) -> bool {
    ev is Release && s.pressed.len() > 0
}

/// The chord that `ev` completes in state `s`, if any: the application and the signature.
pub open spec fn completed(s: ChordState, ev: KeyEvent, focus: Option<Seq<char>>) -> Option<
    (Seq<char>, Seq<char>),
> {
    if wants_focus(s, ev) && focus is Some && s.pressed.len() == 1 {
        Some((focus->0, signature_of(s.released.push(s.pressed.last()))))
    } else {
        None
    }
}

/// One transition of the tracker.
pub open spec fn step(s: ChordState, ev: KeyEvent, focus: Option<Seq<char>>) -> ChordState {
    match ev {
        KeyEvent::Press(k) => ChordState { pressed: s.pressed.push(k@), ..s },
        KeyEvent::Release(_) => {
            if s.pressed.len() == 0 || focus is None {
                s
            } else {
                let pressed = s.pressed.drop_last();
                let released = s.released.push(s.pressed.last());
                if pressed.len() == 0 {
                    ChordState {
                        pressed,
                        released: Seq::empty(),
                        counts: recorded(s.counts, focus->0, signature_of(released)),
                    }
                } else {
                    ChordState { pressed, released, ..s }
                }
            }
        },
    }
}

/// The state after handling `evs` in order from `s`, the focus lookup for `evs[i]`
/// giving `apps[i]`.
pub open spec fn run(s: ChordState, evs: Seq<KeyEvent>, apps: Seq<Seq<char>>) -> ChordState
    decreases evs.len(),
{
    if evs.len() == 0 {
        s
    } else {
        step(run(s, evs.drop_last(), apps), evs.last(), Some(apps[evs.len() - 1]))
    }
}

/// The number of chords completed while handling `evs` from `s`.
pub open spec fn chords_in_run(s: ChordState, evs: Seq<KeyEvent>, apps: Seq<Seq<char>>) -> nat
    decreases evs.len(),
{
    if evs.len() == 0 {
        0
    } else {
        chords_in_run(s, evs.drop_last(), apps) + if completed(
            run(s, evs.drop_last(), apps),
            evs.last(),
            Some(apps[evs.len() - 1]),
        ) is Some {
            1nat
        } else {
            0nat
        }
    }
}

/// The number of releases among `evs` that take the press stack from one key to none.
pub open spec fn closing_releases(s: ChordState, evs: Seq<KeyEvent>, apps: Seq<Seq<char>>) -> nat
    decreases evs.len(),
{
    if evs.len() == 0 {
        0
    } else {
        let before = run(s, evs.drop_last(), apps);
        closing_releases(s, evs.drop_last(), apps) + if evs.last() is Release
            && before.pressed.len() == 1 && run(s, evs, apps).pressed.len() == 0 {
            1nat
        } else {
            0nat
        }
    }
}

/// Where every focus lookup succeeds, the chords completed are exactly the releases that
/// take the press stack from one key to none.
pub proof fn lemma_chords_are_closing_releases(
    s: ChordState,
    evs: Seq<KeyEvent>,
    apps: Seq<Seq<char>>,
)
    requires
        apps.len() == evs.len(),
    ensures
        chords_in_run(s, evs, apps) == closing_releases(s, evs, apps),
    decreases evs.len(),
{
    if evs.len() > 0 {
        lemma_chords_are_closing_releases(s, evs.drop_last(), apps.drop_last());
        lemma_run_apps_agree(s, evs.drop_last(), apps, apps.drop_last());
    }
}

proof fn lemma_run_apps_agree(s: ChordState, evs: Seq<KeyEvent>, a: Seq<Seq<char>>, b: Seq<Seq<char>>)
    requires
        a.len() >= evs.len(),
        b.len() >= evs.len(),
        forall|i: int| 0 <= i < evs.len() ==> a[i] == b[i],
    ensures
        run(s, evs, a) == run(s, evs, b),
        chords_in_run(s, evs, a) == chords_in_run(s, evs, b),
        closing_releases(s, evs, a) == closing_releases(s, evs, b),
    decreases evs.len(),
{
    if evs.len() > 0 {
        lemma_run_apps_agree(s, evs.drop_last(), a, b);
    }
}

proof fn lemma_presses(s: ChordState, evs: Seq<KeyEvent>, apps: Seq<Seq<char>>, ks: Seq<Seq<char>>, j: int)
    requires
        s.released.len() == 0,
        s.pressed.len() == 0,
        0 <= j <= ks.len(),
        evs.len() >= ks.len(),
        forall|i: int| 0 <= i < ks.len() ==> (#[trigger] evs[i]) is Press && evs[i]->Press_0@ == ks[i],
    ensures
        run(s, evs.take(j), apps) == (ChordState { pressed: ks.take(j), ..s }),
    decreases j,
{
    if j == 0 {
        assert(ks.take(0) =~= s.pressed);
    } else {
        lemma_presses(s, evs, apps, ks, j - 1);
        assert(evs.take(j).drop_last() =~= evs.take(j - 1));
        assert(ks.take(j) =~= ks.take(j - 1).push(ks[j - 1]));
    }
}

proof fn lemma_releases(s: ChordState, evs: Seq<KeyEvent>, apps: Seq<Seq<char>>, ks: Seq<Seq<char>>, j: int)
    requires
        s.released.len() == 0,
        s.pressed.len() == 0,
        ks.len() >= 1,
        0 <= j < ks.len(),
        evs.len() == 2 * ks.len(),
        forall|i: int| 0 <= i < ks.len() ==> (#[trigger] evs[i]) is Press && evs[i]->Press_0@ == ks[i],
        forall|i: int| ks.len() <= i < evs.len() ==> (#[trigger] evs[i]) is Release,
    ensures
        run(s, evs.take(ks.len() + j), apps) == (ChordState {
            pressed: ks.take(ks.len() - j),
            released: ks.subrange(ks.len() - j, ks.len() as int).reverse(),
            counts: s.counts,
        }),
    decreases j,
{
    let n = ks.len() as int;
    if j == 0 {
        lemma_presses(s, evs, apps, ks, n);
        assert(ks.subrange(n, n).reverse() =~= s.released);
        assert(ks.take(n) =~= ks);
    } else {
        lemma_releases(s, evs, apps, ks, j - 1);
        assert(evs.take(n + j).drop_last() =~= evs.take(n + j - 1));
        assert(evs.take(n + j).last() == evs[n + j - 1]);
        assert(ks.take(n - j + 1).drop_last() =~= ks.take(n - j));
        assert(ks.subrange(n - j, n).reverse() =~= ks.subrange(n - j + 1, n).reverse().push(
            ks[n - j],
        ));
    }
}

/// Pressing keys one after another from rest and then releasing as many, with every focus
/// lookup succeeding, records one chord whose signature lists the keys in press order,
/// whichever keys the releases name.
pub proof fn lemma_signature_in_press_order(
    s: ChordState,
    evs: Seq<KeyEvent>,
    apps: Seq<Seq<char>>,
    ks: Seq<Seq<char>>,
)
    requires
        s.released.len() == 0,
        s.pressed.len() == 0,
        ks.len() >= 1,
        evs.len() == 2 * ks.len(),
        apps.len() == evs.len(),
        forall|i: int| 0 <= i < ks.len() ==> (#[trigger] evs[i]) is Press && evs[i]->Press_0@ == ks[i],
        forall|i: int| ks.len() <= i < evs.len() ==> (#[trigger] evs[i]) is Release,
    ensures
        completed(run(s, evs.drop_last(), apps), evs.last(), Some(apps.last())) == Some(
            (apps.last(), rendered(ks)),
        ),
        run(s, evs, apps) == (ChordState {
            pressed: Seq::empty(),
            released: Seq::empty(),
            counts: recorded(s.counts, apps.last(), rendered(ks)),
        }),
{
    let n = ks.len() as int;
    lemma_releases(s, evs, apps, ks, n - 1);
    assert(evs.take(2 * n - 1) =~= evs.drop_last());
    let before = run(s, evs.drop_last(), apps);
    assert(before.pressed.last() == ks[0]);
    assert(before.released.push(before.pressed.last()).reverse() =~= ks);
    assert(before.pressed.drop_last() =~= Seq::<Seq<char>>::empty());
}

fn push_str(out: &mut String, s: &str)
    ensures
        final(out)@ == old(out)@ + s@,
{
    out.append(s);
}

/// Renders key names as `[A, B, C]`.
pub fn render_keys(keys: &Vec<String>) -> (r: String)
    ensures
        r@ == rendered(keys@.map_values(|k: String| k@)),
{
    let ghost names = keys@.map_values(|k: String| k@);
    let mut out = String::from_str("[");
    proof {
        reveal_strlit("[");
    }
    let mut i: usize = 0;
    while i < keys.len()
        invariant
            i <= keys@.len(),
            names == keys@.map_values(|k: String| k@),
            out@ == seq!['['] + joined(names.subrange(0, i as int)),
        decreases keys@.len() - i,
    {
        let ghost before = out@;
        if i > 0 {
            push_str(&mut out, ", ");
            proof {
                reveal_strlit(", ");
            }
        }
        push_str(&mut out, keys[i].as_str());
        proof {
            let sub = names.subrange(0, i + 1);
            assert(sub.drop_last() =~= names.subrange(0, i as int));
            assert(sub.last() == keys@[i as int]@);
            if i == 0 {
                assert(joined(sub) == sub[0]);
                assert(out@ =~= seq!['['] + joined(sub));
            } else {
                assert(out@ =~= seq!['['] + joined(sub));
            }
        }
        i = i + 1;
    }
    push_str(&mut out, "]");
    proof {
        reveal_strlit("]");
        assert(names.subrange(0, keys@.len() as int) =~= names);
        assert(out@ =~= rendered(names));
    }
    out
}

/// The chord tracker together with the frequency tables it fills.
pub struct Capture {
    stack: Vec<String>,
    seq: Vec<String>,
    data: FrequencyStore,
}

impl View for Capture {
    type V = ChordState;

    closed spec fn view(&self) -> ChordState {
        ChordState {
            pressed: self.stack@.map_values(|k: String| k@),
            released: self.seq@.map_values(|k: String| k@),
            counts: self.data@,
        }
    }
}

impl Capture {
    /// Well-formedness of the tables.
    pub closed spec fn wf(&self) -> bool {
        self.data.wf()
    }

    /// A tracker with nothing pressed and the given tables.
    pub fn new(data: FrequencyStore) -> (r: Capture)
        requires
            data.wf(),
        ensures
            r.wf(),
            r@.pressed.len() == 0,
            r@.released.len() == 0,
            r@.counts == data@,
    {
        Capture { stack: Vec::new(), seq: Vec::new(), data }
    }

    /// The frequency tables.
    pub fn data(&self) -> (r: &FrequencyStore)
        requires
            self.wf(),
        ensures
            r.wf(),
            r@ == self@.counts,
    {
        &self.data
    }

    /// Number of keys held down.
    pub fn held(&self) -> (r: usize)
        ensures
            r == self@.pressed.len(),
    {
        self.stack.len()
    }

    /// Whether handling `event` needs the identity of the focused application.
    pub fn needs_focus(&self, event: &KeyEvent) -> (r: bool)
        ensures
            r == wants_focus(self@, *event),
    {
        match event {
            KeyEvent::Press(_) => false,
            KeyEvent::Release(_) => self.stack.len() > 0,
        }
    }

    /// Handles one key event. `focus` is what the focus lookup gave; it is read only
    /// where `needs_focus` holds. Returns the chord that the event completed, if any.
    pub fn handle_event(&mut self, event: &KeyEvent, focus: &Result<String, String>) -> (r: Option<
        Chord,
    >)
        requires
            old(self).wf(),
        ensures
            final(self).wf(),
            final(self)@ == step(old(self)@, *event, focus_of(*focus)),
            match r {
                Some(c) => completed(old(self)@, *event, focus_of(*focus)) == Some(
                    (c.app@, c.signature@),
                ),
                None => completed(old(self)@, *event, focus_of(*focus)) is None,
            },
    {
        match event {
            KeyEvent::Press(k) => {
                self.stack.push(k.clone());
                proof {
                    assert(self@.pressed =~= old(self)@.pressed.push(k@));
                }
                None
            },
            KeyEvent::Release(_) => {
                if self.stack.len() == 0 {
                    return None;
                }
                match focus {
                    Err(_) => None,
                    Ok(app) => {
                        let top = self.stack.pop().unwrap();
                        self.seq.push(top);
                        proof {
                            assert(self@.pressed =~= old(self)@.pressed.drop_last());
                            assert(self@.released =~= old(self)@.released.push(
                                old(self)@.pressed.last(),
                            ));
                        }
                        if self.stack.len() == 0 {
                            let mut keys: Vec<String> = Vec::new();
                            let mut i: usize = self.seq.len();
                            while i > 0
                                invariant
                                    i <= self.seq@.len(),
                                    keys@.len() == self.seq@.len() - i,
                                    forall|j: int|
                                        0 <= j < keys@.len() ==> (#[trigger] keys@[j])@
                                            == self.seq@[self.seq@.len() - 1 - j]@,
                                decreases i,
                            {
                                i = i - 1;
                                keys.push(self.seq[i].clone());
                            }
                            let ghost rel = self@.released;
                            proof {
                                assert(keys@.map_values(|k: String| k@) =~= rel.reverse());
                            }
                            let signature = render_keys(&keys);
                            let chord = Chord { app: app.clone(), signature: signature.clone() };
                            self.data.record(app.clone(), signature);
                            self.seq.clear();
                            proof {
                                assert(self@.released =~= Seq::<Seq<char>>::empty());
                            }
                            Some(chord)
                        } else {
                            None
                        }
                    },
                }
            },
        }
    }
}

} // verus!
