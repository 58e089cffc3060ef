use std::cmp::Ordering;

use rnote_engine::geometry::Aabb;
use rnote_engine::store::chrono_comp::{ChronoComponent, ChronoRank, StrokeLayer};
use rnote_engine::store::{StrokeKey, StrokeStore};
use rnote_engine::strokes::{Stroke, StrokeKind};

fn stroke_at(min_x: i64, min_y: i64, max_x: i64, max_y: i64) -> Stroke {
    Stroke::new(StrokeKind::BrushPath, Aabb::new(min_x, min_y, max_x, max_y), vec![1, 2, 3])
}

fn layers() -> Vec<StrokeLayer> {
    vec![
        StrokeLayer::Document,
        StrokeLayer::Image,
        StrokeLayer::Highlighter,
        StrokeLayer::UserLayer(0),
        StrokeLayer::UserLayer(1),
        StrokeLayer::UserLayer(7),
        StrokeLayer::UserLayer(u32::MAX),
    ]
}

#[test]
fn layer_order_is_document_image_highlighter_user() {
    let layers = layers();
    for i in 0..layers.len() {
        for j in 0..layers.len() {
            let expected = i.cmp(&j);
            assert_eq!(layers[i].order(&layers[j]), expected);
            assert_eq!(layers[i].partial_cmp(&layers[j]), Some(expected));
            assert_eq!(layers[i].cmp(&layers[j]), expected);
            assert_eq!(layers[i] == layers[j], i == j);
            assert_eq!(layers[i] < layers[j], i < j);
        }
    }
}

#[test]
fn layer_default_is_user_layer_zero() {
    assert_eq!(StrokeLayer::default(), StrokeLayer::UserLayer(0));
}

#[test]
fn chrono_component_new_and_default() {
    let c = ChronoComponent::new(5, StrokeLayer::Highlighter);
    assert_eq!(c.t, 5);
    assert_eq!(c.layer, StrokeLayer::Highlighter);
    let d = ChronoComponent::default();
    assert_eq!(d.t, 0);
    assert_eq!(d.layer, StrokeLayer::UserLayer(0));
}

#[test]
fn insert_user_layer_then_document_sorts_document_first() {
    let mut store = StrokeStore::new();
    let a = store.insert_stroke(stroke_at(0, 0, 10, 10), Some(StrokeLayer::UserLayer(0)));
    let b = store.insert_stroke(stroke_at(5, 5, 20, 20), Some(StrokeLayer::Document));
    assert_eq!(store.keys_sorted_chrono(), vec![b, a]);
}

#[test]
fn sorted_chrono_orders_by_layer_then_time() {
    let mut store = StrokeStore::new();
    let u1 = store.insert_stroke(stroke_at(0, 0, 1, 1), Some(StrokeLayer::UserLayer(1)));
    let hl = store.insert_stroke(stroke_at(0, 0, 1, 1), Some(StrokeLayer::Highlighter));
    let u0_first = store.insert_stroke(stroke_at(0, 0, 1, 1), None);
    let img = store.insert_stroke(stroke_at(0, 0, 1, 1), Some(StrokeLayer::Image));
    let doc = store.insert_stroke(stroke_at(0, 0, 1, 1), Some(StrokeLayer::Document));
    let u0_second = store.insert_stroke(stroke_at(0, 0, 1, 1), Some(StrokeLayer::UserLayer(0)));
    let doc_second = store.insert_stroke(stroke_at(0, 0, 1, 1), Some(StrokeLayer::Document));
    assert_eq!(
        store.keys_sorted_chrono(),
        vec![doc, doc_second, img, hl, u0_first, u0_second, u1]
    );
}

#[test]
fn insert_gives_promotion_times_from_one_counter() {
    let mut store = StrokeStore::new();
    assert_eq!(store.chrono_counter(), 0);
    let a = store.insert_stroke(stroke_at(0, 0, 1, 1), None);
    let b = store.insert_stroke(stroke_at(0, 0, 1, 1), Some(StrokeLayer::Image));
    assert_eq!(store.entry(a).unwrap().chrono, ChronoComponent::new(1, StrokeLayer::UserLayer(0)));
    assert_eq!(store.entry(b).unwrap().chrono, ChronoComponent::new(2, StrokeLayer::Image));
    assert_eq!(store.chrono_counter(), 2);
}

#[test]
fn update_chrono_to_last_moves_key_to_front_of_its_layer() {
    let mut store = StrokeStore::new();
    let a = store.insert_stroke(stroke_at(0, 0, 1, 1), None);
    let b = store.insert_stroke(stroke_at(0, 0, 1, 1), None);
    let c = store.insert_stroke(stroke_at(0, 0, 1, 1), None);
    let hl = store.insert_stroke(stroke_at(0, 0, 1, 1), Some(StrokeLayer::Highlighter));
    let top = store.insert_stroke(stroke_at(0, 0, 1, 1), Some(StrokeLayer::UserLayer(3)));
    assert_eq!(store.keys_sorted_chrono(), vec![hl, a, b, c, top]);
    store.update_chrono_to_last(a);
    assert_eq!(store.keys_sorted_chrono(), vec![hl, b, c, a, top]);
    assert_eq!(store.entry(a).unwrap().chrono, ChronoComponent::new(6, StrokeLayer::UserLayer(0)));
    assert_eq!(store.entry(b).unwrap().chrono, ChronoComponent::new(2, StrokeLayer::UserLayer(0)));
    assert_eq!(store.chrono_counter(), 6);
    store.update_chrono_to_last(hl);
    assert_eq!(store.keys_sorted_chrono(), vec![hl, b, c, a, top]);
    assert_eq!(store.entry(hl).unwrap().chrono.t, 7);
}

#[test]
fn update_chrono_to_last_of_stale_key_changes_nothing() {
    let mut store = StrokeStore::new();
    let a = store.insert_stroke(stroke_at(0, 0, 1, 1), None);
    let b = store.insert_stroke(stroke_at(0, 0, 1, 1), None);
    store.remove_stroke(a);
    store.update_chrono_to_last(a);
    assert_eq!(store.chrono_counter(), 2);
    assert_eq!(store.keys_sorted_chrono(), vec![b]);
    assert!(!store.contains(a));
}

#[test]
fn sorted_chrono_of_empty_store_is_empty() {
    let store = StrokeStore::new();
    assert_eq!(store.keys_sorted_chrono(), Vec::<StrokeKey>::new());
    assert_eq!(
        store.keys_sorted_chrono_intersecting_bounds(Aabb::new(0, 0, 100, 100)),
        Vec::<StrokeKey>::new()
    );
}

#[test]
fn sorted_chrono_in_bounds_is_the_full_order_restricted() {
    let mut store = StrokeStore::new();
    let mut keys = Vec::new();
    let layers = layers();
    for i in 0..40i64 {
        let layer = layers[(i as usize * 5) % layers.len()];
        keys.push(store.insert_stroke(stroke_at(i * 10, 0, i * 10 + 5, 5), Some(layer)));
    }
    store.update_chrono_to_last(keys[3]);
    store.update_chrono_to_last(keys[17]);
    let query = Aabb::new(95, -3, 262, 2);
    let all = store.keys_sorted_chrono();
    assert_eq!(all.len(), 40);
    let expected: Vec<StrokeKey> = all
        .into_iter()
        .filter(|k| store.get_stroke_ref(*k).unwrap().bounds().intersects(&query))
        .collect();
    assert_eq!(expected.len(), 18);
    assert_eq!(store.keys_sorted_chrono_intersecting_bounds(query), expected);
}

#[test]
fn rank_order_compares_layer_time_then_key() {
    let mut store = StrokeStore::new();
    let a = store.insert_stroke(stroke_at(0, 0, 1, 1), None);
    let b = store.insert_stroke(stroke_at(0, 0, 1, 1), None);
    let low = ChronoRank { layer: StrokeLayer::Document, t: 9, key: b };
    let high = ChronoRank { layer: StrokeLayer::Image, t: 1, key: a };
    assert_eq!(low.order(&high), Ordering::Less);
    assert_eq!(high.order(&low), Ordering::Greater);
    let early = ChronoRank { layer: StrokeLayer::Image, t: 1, key: b };
    let late = ChronoRank { layer: StrokeLayer::Image, t: 2, key: a };
    assert_eq!(early.order(&late), Ordering::Less);
    assert_eq!(late.order(&early), Ordering::Greater);
    let older = ChronoRank { layer: StrokeLayer::Image, t: 2, key: a };
    let newer = ChronoRank { layer: StrokeLayer::Image, t: 2, key: b };
    assert_eq!(older.order(&newer), Ordering::Less);
    assert_eq!(newer.order(&older), Ordering::Greater);
    assert_eq!(older.order(&older), Ordering::Equal);
}
