use vstd::prelude::*;
use crate::slot::CameraSlot;

verus! {

/// A label that a camera can carry and that the registry can hold.
#[derive(Clone, Copy, Debug, PartialEq, Eq, Hash, Structural)]
pub enum Label {
    /// The render-designation token: the engine renders through its camera.
    Render,
    /// A slot's own name.
    Slot(CameraSlot),
}

/// A camera of the scene: its fixed slot and the label it carries now.
#[derive(Clone, Copy, Debug, PartialEq, Eq, Structural)]
pub struct CameraEntity {
    pub slot: CameraSlot,
    pub name: Option<Label>,
}

/// One active label of the registry and the camera it is bound to, if any.
#[derive(Clone, Copy, Debug, PartialEq, Eq, Structural)]
pub struct ActiveEntry {
    pub label: Label,
    pub entity: Option<usize>,
}

/// Whether some entry holds the label.
pub open spec fn holds_label(s: Seq<ActiveEntry>, l: Label) -> bool {
    exists|i: int| 0 <= i < s.len() && s[i].label == l
}

/// No two entries hold the same label.
pub open spec fn labels_unique(s: Seq<ActiveEntry>) -> bool {
    forall|i: int, j: int|
        0 <= i < s.len() && 0 <= j < s.len() && s[i].label == s[j].label ==> i == j
}

/// The entries read as a map from label to bound camera.
pub open spec fn entries_view(s: Seq<ActiveEntry>) -> Map<Label, Option<usize>> {
    Map::new(
        |l: Label| holds_label(s, l),
        |l: Label| s[choose|i: int| 0 <= i < s.len() && s[i].label == l].entity,
    )
}

/// The index of the last camera that carries the label, if any.
pub open spec fn last_named(cams: Seq<CameraEntity>, l: Label) -> Option<int>
    decreases cams.len(),
{
    if cams.len() == 0 {
        None
    } else if cams.last().name == Some(l) {
        Some(cams.len() - 1)
    } else {
        last_named(cams.drop_last(), l)
    }
}

/// The slot of the camera that a binding names, if it names one of `cams`.
pub open spec fn slot_of(cams: Seq<CameraEntity>, e: Option<usize>) -> Option<CameraSlot> {
    match e {
        Some(k) => if k < cams.len() {
            Some(cams[k as int].slot)
        } else {
            None
        },
        None => None,
    }
}

/// What the engine binds an entry to: a binding that still names a camera stays,
/// any other goes to the last camera that carries the entry's label.
pub open spec fn rebound(cams: Seq<CameraEntity>, e: ActiveEntry) -> ActiveEntry {
    match e.entity {
        Some(k) if k < cams.len() => e,
        _ => ActiveEntry {
            label: e.label,
            entity: match last_named(cams, e.label) {
                Some(k) => Some(k as usize),
                None => None,
            },
        },
    }
}

/// Within an entry sequence with unique labels, an entry's binding is the view's.
pub proof fn lemma_view_at(s: Seq<ActiveEntry>, i: int)
    requires
        labels_unique(s),
        0 <= i < s.len(),
    ensures
        entries_view(s).contains_key(s[i].label),
        entries_view(s)[s[i].label] == s[i].entity,
{
    let l = s[i].label;
    assert(holds_label(s, l));
    let j = choose|j: int| 0 <= j < s.len() && s[j].label == l;
    assert(j == i);
}

/// The registry of active cameras: each active label and the camera bound to it.
pub struct Registry {
    entries: Vec<ActiveEntry>,
}

impl Registry {
    /// The entries in the order in which they are listed.
    pub closed spec fn entry_seq(&self) -> Seq<ActiveEntry> {
        self.entries@
    }

    pub open spec fn wf(&self) -> bool {
        labels_unique(self.entry_seq())
    }

    pub open spec fn view(&self) -> Map<Label, Option<usize>> {
        entries_view(self.entry_seq())
    }

    /// A registry with no active label.
    pub fn new() -> (r: Registry)
        ensures
            r.wf(),
            r.entry_seq() == Seq::<ActiveEntry>::empty(),
            r.view() == Map::<Label, Option<usize>>::empty(),
    {
        let r = Registry { entries: Vec::new() };
        assert(r.view() =~= Map::<Label, Option<usize>>::empty());
        r
    }

    fn position(&self, label: Label) -> (r: Option<usize>)
        ensures
            match r {
                Some(i) => i < self.entry_seq().len() && self.entry_seq()[i as int].label == label,
                None => !holds_label(self.entry_seq(), label),
            },
    {
        let mut i: usize = 0;
        while i < self.entries.len()
            invariant
                i <= self.entries@.len(),
                forall|k: int| 0 <= k < i ==> self.entries@[k].label != label,
            decreases self.entries@.len() - i,
        {
            if self.entries[i].label == label {
                return Some(i);
            }
            i = i + 1;
        }
        None
    }

    /// The binding of a label: `None` where the label is not active, else the
    /// camera it is bound to, if any.
    pub fn lookup(&self, label: Label) -> (r: Option<Option<usize>>)
        requires
            self.wf(),
        ensures
            r == (if self.view().contains_key(label) {
                Some(self.view()[label])
            } else {
                None::<Option<usize>>
            }),
    {
        match self.position(label) {
            Some(i) => {
                proof {
                    lemma_view_at(self.entry_seq(), i as int);
                }
                Some(self.entries[i].entity)
            },
            None => None,
        }
    }

    /// Makes the label active, bound to no camera, whether or not it was before.
    pub fn add(&mut self, label: Label)
        requires
            old(self).wf(),
        ensures
            final(self).wf(),
            final(self).view() == old(self).view().insert(label, None),
    {
        self.insert(label, None);
    }

    /// Makes the label active with the given binding.
    pub fn insert(&mut self, label: Label, entity: Option<usize>)
        requires
            old(self).wf(),
        ensures
            final(self).wf(),
            final(self).view() == old(self).view().insert(label, entity),
    {
        let ghost s0 = self.entries@;
        let entry = ActiveEntry { label, entity };
        match self.position(label) {
            Some(i) => {
                self.entries.set(i, entry);
                let ghost s1 = self.entries@;
                assert forall|a: int, b: int|
                    0 <= a < s1.len() && 0 <= b < s1.len() && s1[a].label == s1[b].label
                    implies a == b by {
                    assert(s1[a].label == s0[a].label);
                    assert(s1[b].label == s0[b].label);
                }
                assert forall|l: Label| #[trigger] holds_label(s1, l) == holds_label(s0, l) by {
                    if holds_label(s0, l) {
                        let k = choose|k: int| 0 <= k < s0.len() && s0[k].label == l;
                        assert(s1[k].label == l);
                    }
                    if holds_label(s1, l) {
                        let k = choose|k: int| 0 <= k < s1.len() && s1[k].label == l;
                        assert(s0[k].label == l);
                    }
                }
                assert forall|l: Label| #[trigger] entries_view(s1).contains_key(l) implies
                    entries_view(s1)[l] == entries_view(s0).insert(label, entity)[l] by {
                    let k = choose|k: int| 0 <= k < s1.len() && s1[k].label == l;
                    lemma_view_at(s1, k);
                    if k != i {
                        lemma_view_at(s0, k);
                    }
                }
                assert(entries_view(s1) =~= entries_view(s0).insert(label, entity));
            },
            None => {
                self.entries.push(entry);
                let ghost s1 = self.entries@;
                assert forall|l: Label| #[trigger] holds_label(s1, l) == (holds_label(s0, l) || l == label) by {
                    if holds_label(s0, l) {
                        let k = choose|k: int| 0 <= k < s0.len() && s0[k].label == l;
                        assert(s1[k].label == l);
                    }
                    if l == label {
                        assert(s1[s0.len() as int].label == l);
                    }
                    if holds_label(s1, l) && l != label {
                        let k = choose|k: int| 0 <= k < s1.len() && s1[k].label == l;
                        assert(s0[k].label == l);
                    }
                }
                assert forall|l: Label| #[trigger] entries_view(s1).contains_key(l) implies
                    entries_view(s1)[l] == entries_view(s0).insert(label, entity)[l] by {
                    let k = choose|k: int| 0 <= k < s1.len() && s1[k].label == l;
                    lemma_view_at(s1, k);
                    if k < s0.len() {
                        lemma_view_at(s0, k);
                    }
                }
                assert(entries_view(s1) =~= entries_view(s0).insert(label, entity));
            },
        }
    }
    /// Makes the label inactive, whatever it was bound to.
    pub fn remove(&mut self, label: Label)
        requires
            old(self).wf(),
        ensures
            final(self).wf(),
            final(self).view() == old(self).view().remove(label),
    {
        let ghost s0 = self.entries@;
        match self.position(label) {
            Some(i) => {
                self.entries.remove(i);
                let ghost s1 = self.entries@;
                assert(s1 =~= s0.remove(i as int));
                assert forall|a: int, b: int|
                    0 <= a < s1.len() && 0 <= b < s1.len() && s1[a].label == s1[b].label
                    implies a == b by {
                    let a0 = if a < i { a } else { a + 1 };
                    let b0 = if b < i { b } else { b + 1 };
                    assert(s1[a] == s0[a0]);
                    assert(s1[b] == s0[b0]);
                }
                assert forall|l: Label| #[trigger] holds_label(s1, l) == (holds_label(s0, l) && l != label) by {
                    if holds_label(s0, l) && l != label {
                        let k = choose|k: int| 0 <= k < s0.len() && s0[k].label == l;
                        assert(k != i);
                        if k < i {
                            assert(s1[k].label == l);
                        } else {
                            assert(s1[k - 1].label == l);
                        }
                    }
                    if holds_label(s1, l) {
                        let k = choose|k: int| 0 <= k < s1.len() && s1[k].label == l;
                        let k0 = if k < i { k } else { k + 1 };
                        assert(s0[k0].label == l);
                        assert(k0 != i);
                    }
                }
                assert forall|l: Label| #[trigger] entries_view(s1).contains_key(l) implies
                    entries_view(s1)[l] == entries_view(s0).remove(label)[l] by {
                    let k = choose|k: int| 0 <= k < s1.len() && s1[k].label == l;
                    let k0 = if k < i { k } else { k + 1 };
                    assert(s1[k] == s0[k0]);
                    lemma_view_at(s1, k);
                    lemma_view_at(s0, k0);
                }
                assert(entries_view(s1) =~= entries_view(s0).remove(label));
            },
            None => {
                assert(entries_view(s0) =~= entries_view(s0).remove(label));
            },
        }
    }
    /// Binds the entries as the engine does before each tick: a binding that no
    /// longer names a camera is dropped, and each unbound entry goes to the last
    /// camera that carries its label, if any.
    pub fn bind_unresolved(&mut self, cameras: &Vec<CameraEntity>)
        requires
            old(self).wf(),
        ensures
            final(self).wf(),
            final(self).entry_seq().len() == old(self).entry_seq().len(),
            forall|i: int| 0 <= i < old(self).entry_seq().len() ==>
                final(self).entry_seq()[i] == rebound(cameras@, old(self).entry_seq()[i]),
            forall|l: Label| #[trigger] old(self).view().contains_key(l) ==>
                final(self).view().contains_key(l)
                && final(self).view()[l] == rebound(cameras@, ActiveEntry { label: l, entity: old(self).view()[l] }).entity,
            final(self).view().dom() == old(self).view().dom(),
    {
        let ghost s0 = self.entries@;
        let mut i: usize = 0;
        while i < self.entries.len()
            invariant
                self.entries@.len() == s0.len(),
                i <= s0.len(),
                forall|k: int| 0 <= k < i ==> self.entries@[k] == rebound(cameras@, s0[k]),
                forall|k: int| i <= k < s0.len() ==> self.entries@[k] == s0[k],
            decreases s0.len() - i,
        {
            let e = self.entries[i];
            let keep = match e.entity {
                Some(k) => k < cameras.len(),
                None => false,
            };
            if !keep {
                let found = last_named_index(cameras, e.label);
                self.entries.set(i, ActiveEntry { label: e.label, entity: found });
            }
            i = i + 1;
        }
        let ghost s1 = self.entries@;
        assert forall|k: int| 0 <= k < s1.len() implies #[trigger] s1[k].label == s0[k].label by {}
        assert forall|l: Label| #[trigger] holds_label(s1, l) == holds_label(s0, l) by {
            if holds_label(s0, l) {
                let k = choose|k: int| 0 <= k < s0.len() && s0[k].label == l;
                assert(s1[k].label == l);
            }
            if holds_label(s1, l) {
                let k = choose|k: int| 0 <= k < s1.len() && s1[k].label == l;
                assert(s0[k].label == l);
            }
        }
        assert(entries_view(s1).dom() =~= entries_view(s0).dom());
        assert forall|l: Label| #[trigger] entries_view(s0).contains_key(l) implies
            entries_view(s1).contains_key(l)
            && entries_view(s1)[l] == rebound(cameras@, ActiveEntry { label: l, entity: entries_view(s0)[l] }).entity by {
            let k = choose|k: int| 0 <= k < s0.len() && s0[k].label == l;
            lemma_view_at(s0, k);
            lemma_view_at(s1, k);
        }
    }

    /// Each active label with the slot of the camera bound to it, in listing
    /// order; `None` where the label is bound to no camera.
    pub fn report(&self, cameras: &Vec<CameraEntity>) -> (r: Vec<(Label, Option<CameraSlot>)>)
        requires
            self.wf(),
        ensures
            r@.len() == self.entry_seq().len(),
            forall|i: int| 0 <= i < r@.len() ==>
                r@[i] == (self.entry_seq()[i].label, slot_of(cameras@, self.entry_seq()[i].entity)),
            forall|i: int| 0 <= i < r@.len() ==>
                self.view().contains_key(#[trigger] r@[i].0)
                && r@[i].1 == slot_of(cameras@, self.view()[r@[i].0]),
            forall|l: Label| #[trigger] self.view().contains_key(l) ==>
                exists|i: int| 0 <= i < r@.len() && r@[i].0 == l,
            forall|i: int, j: int| 0 <= i < r@.len() && 0 <= j < r@.len() && r@[i].0 == r@[j].0 ==> i == j,
    {
        let mut r: Vec<(Label, Option<CameraSlot>)> = Vec::new();
        let mut i: usize = 0;
        while i < self.entries.len()
            invariant
                i <= self.entries@.len(),
                r@.len() == i,
                forall|k: int| 0 <= k < i ==>
                    r@[k] == (self.entries@[k].label, slot_of(cameras@, self.entries@[k].entity)),
            decreases self.entries@.len() - i,
        {
            let e = self.entries[i];
            let slot = match e.entity {
                Some(k) => if k < cameras.len() {
                    Some(cameras[k].slot)
                } else {
                    None
                },
                None => None,
            };
            r.push((e.label, slot));
            i = i + 1;
        }
        proof {
            assert forall|i: int| 0 <= i < r@.len() implies
                self.view().contains_key(#[trigger] r@[i].0)
                && r@[i].1 == slot_of(cameras@, self.view()[r@[i].0]) by {
                lemma_view_at(self.entries@, i);
            }
            assert forall|l: Label| #[trigger] self.view().contains_key(l) implies
                exists|i: int| 0 <= i < r@.len() && r@[i].0 == l by {
                let k = choose|k: int| 0 <= k < self.entries@.len() && self.entries@[k].label == l;
                assert(r@[k].0 == l);
            }
        }
        r
    }
}

/// The index of the last camera that carries the label, if any.
pub fn last_named_index(cameras: &Vec<CameraEntity>, label: Label) -> (r: Option<usize>)
    ensures
        r == (match last_named(cameras@, label) {
            Some(k) => Some(k as usize),
            None => None::<usize>,
        }),
        match r {
            Some(k) => k < cameras@.len(),
            None => true,
        },
{
    let mut i: usize = cameras.len();
    assert(cameras@.take(i as int) =~= cameras@);
    while i > 0
        invariant
            i <= cameras@.len(),
            last_named(cameras@, label) == last_named(cameras@.take(i as int), label),
        decreases i,
    {
        let ghost t = cameras@.take(i as int);
        assert(t.drop_last() =~= cameras@.take(i - 1));
        if cameras[i - 1].name == Some(label) {
            return Some(i - 1);
        }
        i = i - 1;
    }
    None
}

} // verus!
