use camera_cycle::cycle::{cycle, last_with_slot_index, sync_render_designation};
use camera_cycle::registry::{last_named_index, CameraEntity, Label, Registry};
use camera_cycle::slot::{advance, CameraSlot};

fn cam(slot: CameraSlot, name: Option<Label>) -> CameraEntity {
    CameraEntity { slot, name }
}

/// Two cameras as a scene starts: both carry the render label, and the
/// registry holds the render label and the name of the inactive slot.
fn start_scene() -> (CameraSlot, Registry, Vec<CameraEntity>) {
    let cameras = vec![
        cam(CameraSlot::Primary, Some(Label::Render)),
        cam(CameraSlot::Secondary, Some(Label::Render)),
    ];
    let mut registry = Registry::new();
    registry.add(Label::Render);
    registry.add(Label::Slot(CameraSlot::Primary));
    registry.bind_unresolved(&cameras);
    (CameraSlot::Secondary, registry, cameras)
}

#[test]
fn next_wraps_around() {
    assert_eq!(CameraSlot::Primary.next(), CameraSlot::Secondary);
    assert_eq!(CameraSlot::Secondary.next(), CameraSlot::Primary);
    assert_eq!(CameraSlot::Primary.index(), 0);
    assert_eq!(CameraSlot::Secondary.index(), 1);
    assert_eq!(CameraSlot::at(0), CameraSlot::Primary);
    assert_eq!(CameraSlot::at(1), CameraSlot::Secondary);
}

#[test]
fn advance_twice_restores_state() {
    for start in [CameraSlot::Primary, CameraSlot::Secondary] {
        let mut s = start;
        advance(&mut s);
        assert_ne!(s, start);
        advance(&mut s);
        assert_eq!(s, start);
    }
}

#[test]
fn scene_starts_on_latest_camera() {
    let (_, registry, _) = start_scene();
    assert_eq!(registry.lookup(Label::Render), Some(Some(1)));
    assert_eq!(registry.lookup(Label::Slot(CameraSlot::Primary)), Some(None));
    assert_eq!(registry.lookup(Label::Slot(CameraSlot::Secondary)), None);
}

#[test]
fn cycle_once_from_secondary() {
    let (mut state, mut registry, mut cameras) = start_scene();
    cycle(&mut state, &mut registry, &mut cameras);
    assert_eq!(state, CameraSlot::Primary);
    assert_eq!(cameras[0], cam(CameraSlot::Primary, Some(Label::Render)));
    assert_eq!(cameras[1], cam(CameraSlot::Secondary, Some(Label::Slot(CameraSlot::Secondary))));
    assert_eq!(registry.lookup(Label::Render), Some(None));
    registry.bind_unresolved(&cameras);
    assert_eq!(registry.lookup(Label::Render), Some(Some(0)));
}

#[test]
fn cycle_twice_from_secondary() {
    let (mut state, mut registry, mut cameras) = start_scene();
    cycle(&mut state, &mut registry, &mut cameras);
    registry.bind_unresolved(&cameras);
    cycle(&mut state, &mut registry, &mut cameras);
    assert_eq!(state, CameraSlot::Secondary);
    assert_eq!(cameras[0], cam(CameraSlot::Primary, Some(Label::Slot(CameraSlot::Primary))));
    assert_eq!(cameras[1], cam(CameraSlot::Secondary, Some(Label::Render)));
    registry.bind_unresolved(&cameras);
    assert_eq!(registry.lookup(Label::Render), Some(Some(1)));
}

#[test]
fn sync_leaves_one_holder_of_active_slot() {
    let cameras0 = vec![
        cam(CameraSlot::Primary, Some(Label::Slot(CameraSlot::Primary))),
        cam(CameraSlot::Secondary, Some(Label::Render)),
    ];
    let mut cameras = cameras0.clone();
    let mut registry = Registry::new();
    registry.add(Label::Render);
    registry.bind_unresolved(&cameras);
    sync_render_designation(&mut registry, &mut cameras, CameraSlot::Primary);
    let holders: Vec<usize> =
        (0..cameras.len()).filter(|&k| cameras[k].name == Some(Label::Render)).collect();
    assert_eq!(holders, vec![0]);
    assert_eq!(cameras[0].slot, CameraSlot::Primary);
}

#[test]
fn sync_noop_when_designated_is_active() {
    let mut cameras = vec![
        cam(CameraSlot::Primary, Some(Label::Slot(CameraSlot::Primary))),
        cam(CameraSlot::Secondary, Some(Label::Render)),
    ];
    let mut registry = Registry::new();
    registry.add(Label::Render);
    registry.add(Label::Slot(CameraSlot::Primary));
    registry.bind_unresolved(&cameras);
    let before_cams = cameras.clone();
    let before_report = registry.report(&cameras);
    sync_render_designation(&mut registry, &mut cameras, CameraSlot::Secondary);
    assert_eq!(cameras, before_cams);
    assert_eq!(registry.report(&cameras), before_report);
    assert_eq!(registry.lookup(Label::Render), Some(Some(1)));
}

#[test]
fn no_designation_is_noop_and_reports_blank() {
    let mut cameras = vec![
        cam(CameraSlot::Primary, Some(Label::Slot(CameraSlot::Primary))),
        cam(CameraSlot::Secondary, Some(Label::Slot(CameraSlot::Secondary))),
    ];
    let mut registry = Registry::new();
    registry.add(Label::Render);
    registry.add(Label::Slot(CameraSlot::Primary));
    let mut state = CameraSlot::Secondary;
    cycle(&mut state, &mut registry, &mut cameras);
    assert_eq!(state, CameraSlot::Primary);
    assert_eq!(cameras[0], cam(CameraSlot::Primary, Some(Label::Slot(CameraSlot::Primary))));
    assert_eq!(cameras[1], cam(CameraSlot::Secondary, Some(Label::Slot(CameraSlot::Secondary))));
    assert_eq!(registry.lookup(Label::Render), Some(None));
    assert_eq!(
        registry.report(&cameras),
        vec![(Label::Render, None), (Label::Slot(CameraSlot::Primary), None)]
    );
}

#[test]
fn sync_noop_without_render_label() {
    let mut cameras = vec![cam(CameraSlot::Primary, Some(Label::Render))];
    let mut registry = Registry::new();
    sync_render_designation(&mut registry, &mut cameras, CameraSlot::Secondary);
    assert_eq!(cameras, vec![cam(CameraSlot::Primary, Some(Label::Render))]);
    assert_eq!(registry.lookup(Label::Render), None);
}

#[test]
fn sync_noop_without_camera_of_active_slot() {
    let mut cameras = vec![cam(CameraSlot::Secondary, Some(Label::Render))];
    let mut registry = Registry::new();
    registry.add(Label::Render);
    registry.bind_unresolved(&cameras);
    sync_render_designation(&mut registry, &mut cameras, CameraSlot::Primary);
    assert_eq!(cameras, vec![cam(CameraSlot::Secondary, Some(Label::Render))]);
    assert_eq!(registry.lookup(Label::Render), Some(Some(0)));
}

#[test]
fn sync_relabels_every_stale_holder() {
    let mut cameras = vec![
        cam(CameraSlot::Secondary, Some(Label::Render)),
        cam(CameraSlot::Primary, None),
        cam(CameraSlot::Secondary, Some(Label::Render)),
    ];
    let mut registry = Registry::new();
    registry.add(Label::Render);
    registry.bind_unresolved(&cameras);
    assert_eq!(registry.lookup(Label::Render), Some(Some(2)));
    sync_render_designation(&mut registry, &mut cameras, CameraSlot::Primary);
    assert_eq!(cameras[0].name, Some(Label::Slot(CameraSlot::Secondary)));
    assert_eq!(cameras[1].name, Some(Label::Render));
    assert_eq!(cameras[2].name, Some(Label::Slot(CameraSlot::Secondary)));
}

#[test]
fn registry_add_remove_lookup() {
    let cameras = vec![cam(CameraSlot::Primary, Some(Label::Render))];
    let mut registry = Registry::new();
    assert_eq!(registry.lookup(Label::Render), None);
    registry.add(Label::Render);
    registry.bind_unresolved(&cameras);
    assert_eq!(registry.lookup(Label::Render), Some(Some(0)));
    registry.add(Label::Render);
    assert_eq!(registry.lookup(Label::Render), Some(None));
    assert_eq!(registry.report(&cameras).len(), 1);
    registry.remove(Label::Render);
    assert_eq!(registry.lookup(Label::Render), None);
    registry.remove(Label::Render);
    assert_eq!(registry.report(&cameras), vec![]);
}

#[test]
fn bind_drops_stale_binding() {
    let mut cameras = vec![
        cam(CameraSlot::Primary, None),
        cam(CameraSlot::Secondary, Some(Label::Render)),
    ];
    let mut registry = Registry::new();
    registry.add(Label::Render);
    registry.bind_unresolved(&cameras);
    assert_eq!(registry.report(&cameras), vec![(Label::Render, Some(CameraSlot::Secondary))]);
    cameras.pop();
    assert_eq!(registry.report(&cameras), vec![(Label::Render, None)]);
    registry.bind_unresolved(&cameras);
    assert_eq!(registry.lookup(Label::Render), Some(None));
}

#[test]
fn last_index_lookups() {
    let cameras = vec![
        cam(CameraSlot::Primary, Some(Label::Render)),
        cam(CameraSlot::Primary, Some(Label::Render)),
        cam(CameraSlot::Secondary, None),
    ];
    assert_eq!(last_named_index(&cameras, Label::Render), Some(1));
    assert_eq!(last_named_index(&cameras, Label::Slot(CameraSlot::Primary)), None);
    assert_eq!(last_with_slot_index(&cameras, CameraSlot::Primary), Some(1));
    assert_eq!(last_with_slot_index(&cameras, CameraSlot::Secondary), Some(2));
    assert_eq!(last_with_slot_index(&vec![], CameraSlot::Secondary), None);
}

#[test]
fn registry_insert_sets_binding() {
    let cameras = vec![
        cam(CameraSlot::Primary, None),
        cam(CameraSlot::Secondary, None),
    ];
    let mut registry = Registry::new();
    registry.insert(Label::Render, Some(1));
    assert_eq!(registry.lookup(Label::Render), Some(Some(1)));
    registry.insert(Label::Render, Some(0));
    assert_eq!(registry.report(&cameras), vec![(Label::Render, Some(CameraSlot::Primary))]);
}
