use vstd::prelude::*;
use crate::registry::{CameraEntity, Label, Registry};
use crate::slot::{advance, CameraSlot};

verus! {

/// The index of the last camera of the slot, if any.
pub open spec fn last_with_slot(cams: Seq<CameraEntity>, s: CameraSlot) -> Option<int>
    decreases cams.len(),
{
    if cams.len() == 0 {
        None
    } else if cams.last().slot == s {
        Some(cams.len() - 1)
    } else {
        last_with_slot(cams.drop_last(), s)
    }
}

/// The camera that the registry designates for rendering, where it is one of `cams`.
pub open spec fn designated(reg: Map<Label, Option<usize>>, cams: Seq<CameraEntity>) -> Option<int> {
    if reg.contains_key(Label::Render) {
        match reg[Label::Render] {
            Some(k) => if k < cams.len() {
                Some(k as int)
            } else {
                None
            },
            None => None,
        }
    } else {
        None
    }
}

/// The designation has to move: a camera is designated, its slot is not the
/// active one, and some camera has the active slot.
pub open spec fn needs_handoff(
    reg: Map<Label, Option<usize>>,
    cams: Seq<CameraEntity>,
    active: CameraSlot,
) -> bool {
    &&& designated(reg, cams) is Some
    &&& cams[designated(reg, cams)->0].slot != active
    &&& last_with_slot(cams, active) is Some
}

/// The cameras after the designation moves to camera `target`: every camera
/// that carried the render label takes back its slot's name, and `target`
/// carries the render label.
pub open spec fn handed_off(cams: Seq<CameraEntity>, target: int) -> Seq<CameraEntity> {
    Seq::new(
        cams.len(),
        |k: int|
            if k == target {
                CameraEntity { slot: cams[k].slot, name: Some(Label::Render) }
            } else if cams[k].name == Some(Label::Render) {
                CameraEntity { slot: cams[k].slot, name: Some(Label::Slot(cams[k].slot)) }
            } else {
                cams[k]
            },
    )
}

/// The cameras after a synchronisation.
pub open spec fn synced_cameras(
    reg: Map<Label, Option<usize>>,
    cams: Seq<CameraEntity>,
    active: CameraSlot,
) -> Seq<CameraEntity> {
    if needs_handoff(reg, cams, active) {
        handed_off(cams, last_with_slot(cams, active)->0)
    } else {
        cams
    }
}

/// The registry after a synchronisation: the render label, re-added, waits to
/// be bound again.
pub open spec fn synced_registry(
    reg: Map<Label, Option<usize>>,
    cams: Seq<CameraEntity>,
    active: CameraSlot,
) -> Map<Label, Option<usize>> {
    if needs_handoff(reg, cams, active) {
        reg.insert(Label::Render, None)
    } else {
        reg
    }
}

/// Camera `k` is the one camera that carries the render label.
pub open spec fn sole_render_holder(cams: Seq<CameraEntity>, k: int) -> bool {
    &&& 0 <= k < cams.len()
    &&& cams[k].name == Some(Label::Render)
    &&& forall|j: int| 0 <= j < cams.len() && j != k ==> cams[j].name != Some(Label::Render)
}

/// The index of the last camera of the slot, if any.
pub fn last_with_slot_index(cameras: &Vec<CameraEntity>, s: CameraSlot) -> (r: Option<usize>)
    ensures
        r == (match last_with_slot(cameras@, s) {
            Some(k) => Some(k as usize),
            None => None::<usize>,
        }),
        match r {
            Some(k) => k < cameras@.len() && cameras@[k as int].slot == s,
            None => true,
        },
{
    let mut i: usize = cameras.len();
    assert(cameras@.take(i as int) =~= cameras@);
    while i > 0
        invariant
            i <= cameras@.len(),
            last_with_slot(cameras@, s) == last_with_slot(cameras@.take(i as int), s),
        decreases i,
    {
        let ghost t = cameras@.take(i as int);
        assert(t.drop_last() =~= cameras@.take(i - 1));
        if cameras[i - 1].slot == s {
            return Some(i - 1);
        }
        i = i - 1;
    }
    None
}

/// Hands the render designation to a camera of the active slot when the
/// designated camera is of another slot; does nothing where no camera is
/// designated, the designated one is of the active slot, or no camera has it.
pub fn sync_render_designation(
    registry: &mut Registry,
    cameras: &mut Vec<CameraEntity>,
    active: CameraSlot,
)
    requires
        old(registry).wf(),
    ensures
        final(registry).wf(),
        final(registry).view() == synced_registry(old(registry).view(), old(cameras)@, active),
        final(cameras)@ == synced_cameras(old(registry).view(), old(cameras)@, active),
        !needs_handoff(old(registry).view(), old(cameras)@, active) ==>
            final(registry).entry_seq() == old(registry).entry_seq(),
{
    let current = match registry.lookup(Label::Render) {
        Some(Some(k)) => k,
        _ => return,
    };
    if current >= cameras.len() || cameras[current].slot == active {
        return;
    }
    let target = match last_with_slot_index(cameras, active) {
        Some(t) => t,
        None => return,
    };
    proof {
        lemma_last_with_slot_found(cameras@, active);
    }
    registry.remove(Label::Render);
    let ghost c0 = cameras@;
    let mut i: usize = 0;
    while i < cameras.len()
        invariant
            cameras@.len() == c0.len(),
            i <= c0.len(),
            target < c0.len(),
            forall|k: int| 0 <= k < i ==> cameras@[k] == (if c0[k].name == Some(Label::Render) {
                CameraEntity { slot: c0[k].slot, name: Some(Label::Slot(c0[k].slot)) }
            } else {
                c0[k]
            }),
            forall|k: int| i <= k < c0.len() ==> cameras@[k] == c0[k],
        decreases c0.len() - i,
    {
        let c = cameras[i];
        if c.name == Some(Label::Render) {
            cameras.set(i, CameraEntity { slot: c.slot, name: Some(Label::Slot(c.slot)) });
        }
        i = i + 1;
    }
    let slot = cameras[target].slot;
    cameras.set(target, CameraEntity { slot, name: Some(Label::Render) });
    registry.add(Label::Render);
    assert(cameras@ =~= handed_off(c0, target as int));
    assert(registry.view() =~= old(registry).view().remove(Label::Render).insert(Label::Render, None));
    assert(registry.view() =~= old(registry).view().insert(Label::Render, None));
}

/// One press of the cycle key: the active slot moves on, then the render
/// designation follows it.
pub fn cycle(state: &mut CameraSlot, registry: &mut Registry, cameras: &mut Vec<CameraEntity>)
    requires
        old(registry).wf(),
    ensures
        *final(state) == old(state).spec_next(),
        final(registry).wf(),
        final(registry).view() == synced_registry(old(registry).view(), old(cameras)@, *final(state)),
        final(cameras)@ == synced_cameras(old(registry).view(), old(cameras)@, *final(state)),
{
    advance(state);
    sync_render_designation(registry, cameras, *state);
}

/// Where exactly one camera carries the render label, the registry designates
/// it, and some camera has the active slot, then after a synchronisation
/// exactly one camera carries the render label and its slot is the active one.
pub proof fn lemma_sync_keeps_one_holder(
    reg: Map<Label, Option<usize>>,
    cams: Seq<CameraEntity>,
    active: CameraSlot,
    holder: usize,
)
    requires
        sole_render_holder(cams, holder as int),
        reg.contains_key(Label::Render),
        reg[Label::Render] == Some(holder),
        exists|j: int| 0 <= j < cams.len() && cams[j].slot == active,
    ensures
        exists|k: int|
            sole_render_holder(synced_cameras(reg, cams, active), k)
            && synced_cameras(reg, cams, active)[k].slot == active,
{
    lemma_last_with_slot_found(cams, active);
    assert(designated(reg, cams) == Some(holder as int));
    let after = synced_cameras(reg, cams, active);
    if needs_handoff(reg, cams, active) {
        let t = last_with_slot(cams, active)->0;
        assert(sole_render_holder(after, t));
        assert(after[t].slot == active);
    } else {
        assert(sole_render_holder(after, holder as int));
        assert(after[holder as int].slot == active);
    }
}

/// The last camera of a slot, where one is found, has that slot; and one is
/// found wherever some camera has the slot.
pub proof fn lemma_last_with_slot_found(cams: Seq<CameraEntity>, s: CameraSlot)
    ensures
        last_with_slot(cams, s) matches Some(k) ==> 0 <= k < cams.len() && cams[k].slot == s,
        (exists|j: int| 0 <= j < cams.len() && cams[j].slot == s) ==> last_with_slot(cams, s) is Some,
    decreases cams.len(),
{
    if cams.len() > 0 {
        lemma_last_with_slot_found(cams.drop_last(), s);
        if cams.last().slot != s {
            if exists|j: int| 0 <= j < cams.len() && cams[j].slot == s {
                let j = choose|j: int| 0 <= j < cams.len() && cams[j].slot == s;
                assert(j != cams.len() - 1);
                assert(cams.drop_last()[j].slot == s);
            }
        }
    }
}

/// Where the designated camera already has the active slot, a synchronisation
/// leaves the registry and every camera's label as they were.
pub proof fn lemma_sync_noop_when_current(
    reg: Map<Label, Option<usize>>,
    cams: Seq<CameraEntity>,
    active: CameraSlot,
)
    requires
        designated(reg, cams) is Some,
        cams[designated(reg, cams)->0].slot == active,
    ensures
        synced_registry(reg, cams, active) == reg,
        synced_cameras(reg, cams, active) == cams,
{
}

} // verus!
