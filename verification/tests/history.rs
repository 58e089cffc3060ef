use rnote_engine::geometry::Aabb;
use rnote_engine::store::chrono_comp::{ChronoComponent, StrokeLayer};
use rnote_engine::store::history::StoreSnapshot;
use rnote_engine::store::render_comp::RenderState;
use rnote_engine::store::{StrokeEntry, StrokeKey, StrokeStore};
use rnote_engine::strokes::{Stroke, StrokeImage, StrokeKind};
use rnote_engine::widgetflags::WidgetFlags;
use std::sync::Arc;

fn shape(min: i64, max: i64, tag: u8) -> Stroke {
    Stroke::new(StrokeKind::Shape, Aabb::new(min, min, max, max), vec![tag])
}

fn image() -> StrokeImage {
    StrokeImage { bounds: Aabb::new(0, 0, 4, 4), pixel_width: 2, pixel_height: 2, data: vec![7; 16] }
}

fn no_flags() -> WidgetFlags {
    WidgetFlags { quit: false, redraw: false, resize: false, refresh_ui: false, indicate_changed_store: false }
}

fn restored() -> WidgetFlags {
    WidgetFlags { quit: false, redraw: true, resize: true, refresh_ui: true, indicate_changed_store: true }
}

fn content(store: &StrokeStore, keys: &[StrokeKey]) -> Vec<(Stroke, ChronoComponent, bool, bool)> {
    keys.iter()
        .map(|k| {
            let e = store.entry(*k).unwrap();
            ((*e.stroke).clone(), e.chrono, e.selected, e.trashed)
        })
        .collect()
}

#[test]
fn undo_and_redo_on_empty_history_do_nothing() {
    let mut store = StrokeStore::new();
    let a = store.insert_stroke(shape(0, 5, 1), None);
    assert_eq!(store.undo(), no_flags());
    assert_eq!(store.redo(), no_flags());
    assert!(store.contains(a));
    assert_eq!(store.keys_sorted_chrono(), vec![a]);
}

#[test]
fn record_sets_only_refresh_ui() {
    let mut store = StrokeStore::new();
    assert_eq!(store.record(), WidgetFlags { refresh_ui: true, ..no_flags() });
}

#[test]
fn record_mutate_undo_restores_content_and_order() {
    let mut store = StrokeStore::new();
    let a = store.insert_stroke(shape(0, 5, 1), None);
    let b = store.insert_stroke(shape(10, 15, 2), Some(StrokeLayer::Document));
    let c = store.insert_stroke(shape(20, 25, 3), None);
    store.set_selected(c, true);
    let order_before = store.keys_sorted_chrono();
    let content_before = content(&store, &order_before);
    assert_eq!(order_before, vec![b, a, c]);

    store.record();
    store.update_chrono_to_last(a);
    store.remove_stroke(b);
    assert!(store.translate_stroke(c, 100, 100));
    store.set_trashed(c, true);
    let d = store.insert_stroke(shape(30, 35, 4), Some(StrokeLayer::Image));
    let order_edited = store.keys_sorted_chrono();
    let content_edited = content(&store, &order_edited);
    assert_eq!(order_edited, vec![d, c, a]);

    assert_eq!(store.undo(), restored());
    assert_eq!(store.keys_sorted_chrono(), order_before);
    assert_eq!(content(&store, &order_before), content_before);
    assert!(!store.contains(d));
    assert_eq!(store.keys_unordered_intersecting_bounds(Aabb::new(20, 20, 25, 25)), vec![c]);
    assert_eq!(store.keys_unordered_intersecting_bounds(Aabb::new(10, 10, 15, 15)), vec![b]);
    assert!(store.keys_unordered_intersecting_bounds(Aabb::new(120, 120, 125, 125)).is_empty());

    assert_eq!(store.redo(), restored());
    assert_eq!(store.keys_sorted_chrono(), order_edited);
    assert_eq!(content(&store, &order_edited), content_edited);
    assert!(!store.contains(b));
    assert_eq!(store.keys_unordered_intersecting_bounds(Aabb::new(120, 120, 125, 125)), vec![c]);
    assert_eq!(store.redo(), no_flags());
}

#[test]
fn record_clears_what_could_be_redone() {
    let mut store = StrokeStore::new();
    let a = store.insert_stroke(shape(0, 5, 1), None);
    store.record();
    store.remove_stroke(a);
    store.undo();
    assert!(store.contains(a));
    store.record();
    assert_eq!(store.redo(), no_flags());
    assert!(store.contains(a));
}

#[test]
fn undo_walks_back_through_several_records() {
    let mut store = StrokeStore::new();
    store.record();
    let a = store.insert_stroke(shape(0, 5, 1), None);
    store.record();
    let b = store.insert_stroke(shape(0, 5, 2), None);
    store.record();
    let c = store.insert_stroke(shape(0, 5, 3), None);
    assert_eq!(store.keys_sorted_chrono(), vec![a, b, c]);
    store.undo();
    assert_eq!(store.keys_sorted_chrono(), vec![a, b]);
    store.undo();
    assert_eq!(store.keys_sorted_chrono(), vec![a]);
    store.undo();
    assert!(store.keys_sorted_chrono().is_empty());
    assert_eq!(store.undo(), no_flags());
    store.redo();
    store.redo();
    assert_eq!(store.keys_sorted_chrono(), vec![a, b]);
    store.redo();
    assert_eq!(store.keys_sorted_chrono(), vec![a, b, c]);
}

#[test]
fn key_of_undone_insert_is_not_handed_out_again() {
    let mut store = StrokeStore::new();
    store.record();
    let a = store.insert_stroke(shape(0, 5, 1), None);
    store.undo();
    let b = store.insert_stroke(shape(0, 5, 2), None);
    assert_ne!(a, b);
    assert!(!store.contains(a));
    assert!(store.contains(b));
    assert_eq!(store.entry(b).unwrap().chrono.t, 2);
}

#[test]
fn busy_stroke_comes_back_dirty() {
    let mut store = StrokeStore::new();
    let a = store.insert_stroke(shape(0, 5, 1), None);
    let b = store.insert_stroke(shape(0, 5, 2), None);
    let jobs = store.regenerate_rendering_in_viewport(false, Aabb::new(0, 0, 9, 9), 1000);
    assert_eq!(jobs.len(), 2);
    assert!(store.replace_rendering_with_images(b, vec![image()]));
    store.record();
    store.remove_stroke(a);
    store.remove_stroke(b);
    store.undo();
    assert!(matches!(store.render_state(a), Some(RenderState::Dirty)));
    match store.render_state(b) {
        Some(RenderState::Rendered(images)) => assert_eq!(**images, vec![image()]),
        other => panic!("{:?}", other),
    }
}

#[test]
fn snapshot_does_not_see_later_edits() {
    let mut store = StrokeStore::new();
    let a = store.insert_stroke(shape(0, 5, 1), None);
    let b = store.insert_stroke(shape(10, 15, 2), None);
    let snapshot = store.take_store_snapshot();
    store.remove_stroke(a);
    assert!(store.update_stroke(b, shape(50, 55, 9)));
    let c = store.insert_stroke(shape(0, 5, 3), None);
    assert_eq!(snapshot.keys(), vec![a, b]);
    assert!(snapshot.contains(a));
    assert!(!snapshot.contains(c));
    assert_eq!(*snapshot.entry(a).unwrap().stroke, shape(0, 5, 1));
    assert_eq!(*snapshot.entry(b).unwrap().stroke, shape(10, 15, 2));
    assert!(snapshot.entry(c).is_none());
    assert_eq!(*store.entry(b).unwrap().stroke, shape(50, 55, 9));
}

#[test]
fn clear_removes_strokes_and_history() {
    let mut store = StrokeStore::new();
    let a = store.insert_stroke(shape(0, 5, 1), None);
    store.record();
    store.clear();
    assert!(!store.contains(a));
    assert!(store.keys_unordered().is_empty());
    assert!(store.keys_unordered_intersecting_bounds(Aabb::new(0, 0, 9, 9)).is_empty());
    assert_eq!(store.undo(), no_flags());
    assert_eq!(store.redo(), no_flags());
    let b = store.insert_stroke(shape(0, 5, 2), None);
    assert_ne!(a, b);
    assert_eq!(store.chrono_counter(), 2);
}

fn entry(stroke: Stroke, t: u32, layer: StrokeLayer, render: RenderState) -> StrokeEntry {
    StrokeEntry {
        stroke: Arc::new(stroke),
        chrono: ChronoComponent::new(t, layer),
        render,
        selected: false,
        trashed: false,
    }
}

#[test]
fn import_replaces_tables_and_forgets_history() {
    let mut store = StrokeStore::new();
    let old = store.insert_stroke(shape(0, 5, 1), None);
    store.record();
    let snapshot = StoreSnapshot::from_entries(vec![
        Some(entry(shape(10, 15, 2), 40, StrokeLayer::UserLayer(0), RenderState::Busy)),
        None,
        Some(entry(shape(20, 25, 3), 7, StrokeLayer::UserLayer(0), RenderState::Dirty)),
        Some(entry(shape(30, 35, 4), 9, StrokeLayer::Document, RenderState::Busy)),
    ]);
    let keys = snapshot.keys();
    assert_eq!(keys.len(), 3);
    assert_eq!(keys[0], old);
    assert!(store.import_store_snapshot(&snapshot));
    assert_eq!(store.keys_unordered(), keys);
    assert_eq!(store.keys_sorted_chrono(), vec![keys[2], keys[1], keys[0]]);
    assert_eq!(*store.entry(keys[0]).unwrap().stroke, shape(10, 15, 2));
    assert!(matches!(store.render_state(keys[0]), Some(RenderState::Dirty)));
    assert!(matches!(store.render_state(keys[2]), Some(RenderState::Dirty)));
    assert_eq!(store.chrono_counter(), 40);
    assert_eq!(store.undo(), no_flags());
    assert_eq!(store.keys_unordered_intersecting_bounds(Aabb::new(0, 0, 9, 9)), Vec::<StrokeKey>::new());
    assert_eq!(store.keys_unordered_intersecting_bounds(Aabb::new(22, 22, 23, 23)), vec![keys[1]]);
    let fresh = store.insert_stroke(shape(0, 1, 5), None);
    assert!(!keys.contains(&fresh));
    assert_eq!(store.entry(fresh).unwrap().chrono.t, 41);
    assert_eq!(store.keys_sorted_chrono(), vec![keys[2], keys[1], keys[0], fresh]);
}

#[test]
fn import_of_short_snapshot_keeps_keys_handed_out() {
    let mut store = StrokeStore::new();
    let a = store.insert_stroke(shape(0, 5, 1), None);
    let b = store.insert_stroke(shape(0, 5, 2), None);
    let snapshot = StoreSnapshot::from_entries(vec![]);
    assert!(store.import_store_snapshot(&snapshot));
    assert!(store.keys_unordered().is_empty());
    let c = store.insert_stroke(shape(0, 5, 3), None);
    assert_ne!(c, a);
    assert_ne!(c, b);
    assert_eq!(store.chrono_counter(), 3);
}
