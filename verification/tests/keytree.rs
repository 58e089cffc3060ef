use rnote_engine::geometry::Aabb;
use rnote_engine::store::keytree::KeyTree;
use rnote_engine::store::{StrokeKey, StrokeStore};
use rnote_engine::strokes::{Stroke, StrokeKind};

fn keys(n: usize) -> Vec<StrokeKey> {
    let mut store = StrokeStore::new();
    (0..n)
        .map(|_| store.insert_stroke(Stroke::new(StrokeKind::Shape, Aabb::new(0, 0, 0, 0), vec![]), None))
        .collect()
}

fn brute_force(filed: &[(StrokeKey, Aabb)], query: &Aabb) -> Vec<StrokeKey> {
    let mut hits: Vec<StrokeKey> =
        filed.iter().filter(|(_, b)| b.intersects(query)).map(|(k, _)| *k).collect();
    hits.sort_by_key(|k| format!("{:?}", k));
    hits
}

fn sorted(mut hits: Vec<StrokeKey>) -> Vec<StrokeKey> {
    hits.sort_by_key(|k| format!("{:?}", k));
    hits
}

fn box_of(i: i64) -> Aabb {
    let x = (i * 37) % 200 - 100;
    let y = (i * 91) % 160 - 80;
    Aabb::new(x, y, x + (i % 7) * 3, y + (i % 5) * 4)
}

fn queries() -> Vec<Aabb> {
    vec![
        Aabb::new(-1000, -1000, 1000, 1000),
        Aabb::new(0, 0, 0, 0),
        Aabb::new(-100, -80, -50, 0),
        Aabb::new(10, 10, 60, 40),
        Aabb::new(99, 79, 300, 300),
        Aabb::new(500, 500, 600, 600),
        Aabb::new(50, -80, 50, 80),
        Aabb::new(20, 20, 10, 10),
    ]
}

#[test]
fn new_tree_holds_nothing() {
    let tree = KeyTree::new();
    assert!(tree.keys_intersecting_bounds(Aabb::new(i64::MIN, i64::MIN, i64::MAX, i64::MAX)).is_empty());
    assert_eq!(tree.get(keys(1)[0]), None);
}

#[test]
fn query_matches_linear_scan_after_inserts_updates_removes() {
    let keys = keys(120);
    let mut tree = KeyTree::new();
    let mut filed: Vec<(StrokeKey, Aabb)> = Vec::new();
    for (i, key) in keys.iter().enumerate() {
        let bounds = box_of(i as i64);
        tree.insert(*key, bounds);
        filed.push((*key, bounds));
        if i % 10 == 0 {
            for q in queries() {
                assert_eq!(sorted(tree.keys_intersecting_bounds(q)), brute_force(&filed, &q));
            }
        }
    }
    for i in (0..keys.len()).step_by(3) {
        let bounds = box_of(i as i64 + 1000);
        tree.update(keys[i], bounds);
        for entry in filed.iter_mut() {
            if entry.0 == keys[i] {
                entry.1 = bounds;
            }
        }
    }
    for q in queries() {
        assert_eq!(sorted(tree.keys_intersecting_bounds(q)), brute_force(&filed, &q));
    }
    for i in (0..keys.len()).step_by(2) {
        let removed = tree.remove(keys[i]);
        let at = filed.iter().position(|(k, _)| *k == keys[i]).unwrap();
        assert_eq!(removed, Some(filed[at].1));
        filed.remove(at);
        if i % 16 == 0 {
            for q in queries() {
                assert_eq!(sorted(tree.keys_intersecting_bounds(q)), brute_force(&filed, &q));
            }
        }
    }
    for q in queries() {
        assert_eq!(sorted(tree.keys_intersecting_bounds(q)), brute_force(&filed, &q));
    }
    for (key, _) in filed.clone() {
        assert!(tree.remove(key).is_some());
    }
    for q in queries() {
        assert!(tree.keys_intersecting_bounds(q).is_empty());
    }
}

#[test]
fn boxes_that_share_an_edge_or_corner_intersect() {
    let keys = keys(3);
    let mut tree = KeyTree::new();
    tree.insert(keys[0], Aabb::new(0, 0, 10, 10));
    tree.insert(keys[1], Aabb::new(10, 10, 20, 20));
    tree.insert(keys[2], Aabb::new(11, 0, 20, 9));
    assert_eq!(sorted(tree.keys_intersecting_bounds(Aabb::new(10, 10, 10, 10))), sorted(vec![keys[0], keys[1]]));
    assert_eq!(tree.keys_intersecting_bounds(Aabb::new(-5, -5, -1, -1)), Vec::<StrokeKey>::new());
    assert_eq!(tree.keys_intersecting_bounds(Aabb::new(11, 9, 11, 9)), vec![keys[2]]);
}

#[test]
fn insert_of_filed_key_replaces_its_bounds() {
    let keys = keys(1);
    let mut tree = KeyTree::new();
    tree.insert(keys[0], Aabb::new(0, 0, 1, 1));
    tree.insert(keys[0], Aabb::new(50, 50, 51, 51));
    assert_eq!(tree.get(keys[0]), Some(Aabb::new(50, 50, 51, 51)));
    assert!(tree.keys_intersecting_bounds(Aabb::new(0, 0, 1, 1)).is_empty());
    assert_eq!(tree.keys_intersecting_bounds(Aabb::new(40, 40, 60, 60)), vec![keys[0]]);
}

#[test]
fn update_of_absent_key_files_it() {
    let keys = keys(2);
    let mut tree = KeyTree::new();
    tree.update(keys[1], Aabb::new(3, 3, 4, 4));
    assert_eq!(tree.get(keys[1]), Some(Aabb::new(3, 3, 4, 4)));
    assert_eq!(tree.get(keys[0]), None);
    assert_eq!(tree.keys_intersecting_bounds(Aabb::new(0, 0, 5, 5)), vec![keys[1]]);
}

#[test]
fn remove_of_absent_key_returns_none() {
    let keys = keys(2);
    let mut tree = KeyTree::new();
    tree.insert(keys[0], Aabb::new(0, 0, 1, 1));
    assert_eq!(tree.remove(keys[1]), None);
    assert_eq!(tree.remove(keys[0]), Some(Aabb::new(0, 0, 1, 1)));
    assert_eq!(tree.remove(keys[0]), None);
}

#[test]
fn clear_empties_the_tree() {
    let keys = keys(30);
    let mut tree = KeyTree::new();
    for (i, key) in keys.iter().enumerate() {
        tree.insert(*key, box_of(i as i64));
    }
    tree.clear();
    assert!(tree.keys_intersecting_bounds(Aabb::new(-1000, -1000, 1000, 1000)).is_empty());
    assert_eq!(tree.get(keys[0]), None);
}

#[test]
fn many_entries_at_one_place_are_all_found() {
    let keys = keys(100);
    let mut tree = KeyTree::new();
    for key in keys.iter() {
        tree.insert(*key, Aabb::new(5, 5, 6, 6));
    }
    assert_eq!(sorted(tree.keys_intersecting_bounds(Aabb::new(6, 6, 7, 7))), sorted(keys.clone()));
    assert!(tree.keys_intersecting_bounds(Aabb::new(7, 7, 8, 8)).is_empty());
}

#[test]
fn store_query_follows_edits() {
    let mut store = StrokeStore::new();
    let a = store.insert_stroke(Stroke::new(StrokeKind::Shape, Aabb::new(0, 0, 10, 10), vec![]), None);
    let b = store.insert_stroke(Stroke::new(StrokeKind::Shape, Aabb::new(100, 100, 110, 110), vec![]), None);
    let near = Aabb::new(-5, -5, 5, 5);
    let far = Aabb::new(105, 105, 200, 200);
    assert_eq!(store.keys_unordered_intersecting_bounds(near), vec![a]);
    assert_eq!(store.keys_unordered_intersecting_bounds(far), vec![b]);
    assert!(store.translate_stroke(a, 100, 100));
    assert!(store.keys_unordered_intersecting_bounds(near).is_empty());
    assert_eq!(sorted(store.keys_unordered_intersecting_bounds(far)), sorted(vec![a, b]));
    store.remove_stroke(b);
    assert_eq!(store.keys_unordered_intersecting_bounds(far), vec![a]);
    assert!(store.update_stroke(a, Stroke::new(StrokeKind::Text, Aabb::new(0, 0, 1, 1), vec![9])));
    assert_eq!(store.keys_unordered_intersecting_bounds(near), vec![a]);
    assert!(store.keys_unordered_intersecting_bounds(far).is_empty());
}
