//! Strokes by key: which are shown, where they lie, copies of them, and edits.

use std::sync::Arc;

use vstd::prelude::*;

use super::render_comp::{RenderState, RenderStateView};
use super::{
    entries_valid, lemma_stack_stays_valid, table_of, StoreView, StrokeEntry, StrokeEntryView,
    StrokeKey, StrokeStore,
};
use crate::geometry::Aabb;
use crate::strokes::{Stroke, StrokeView};

verus! {

/// The smallest box around all of `boxes`, or `None` where there is none.
pub open spec fn merged_bounds(boxes: Seq<Aabb>) -> Option<Aabb>
    decreases boxes.len(),
{
    if boxes.len() == 0 {
        None
    } else {
        match merged_bounds(boxes.drop_last()) {
            None => Some(boxes.last()),
            Some(around) => Some(around.merged_spec(boxes.last())),
        }
    }
}

/// The merged bounds hold every box that went into them.
pub proof fn lemma_merged_bounds_contain(boxes: Seq<Aabb>, i: int)
    requires
        0 <= i < boxes.len(),
    ensures
        merged_bounds(boxes).is_some(),
        merged_bounds(boxes).unwrap().contains_spec(boxes[i]),
    decreases boxes.len(),
{
    if i < boxes.len() - 1 {
        lemma_merged_bounds_contain(boxes.drop_last(), i);
    }
}

/// The smallest box around all of `boxes`, or `None` where there is none.
pub fn merge_all(boxes: &Vec<Aabb>) -> (r: Option<Aabb>)
    ensures
        r == merged_bounds(boxes@),
{
    let mut around: Option<Aabb> = None;
    let mut i: usize = 0;
    while i < boxes.len()
        invariant
            i <= boxes.len(),
            around == merged_bounds(boxes@.take(i as int)),
        decreases boxes.len() - i,
    {
        proof {
            assert(boxes@.take(i + 1).drop_last() =~= boxes@.take(i as int));
        }
        around = match around {
            None => Some(boxes[i]),
            Some(a) => Some(a.merged(&boxes[i])),
        };
        i += 1;
    }
    assert(boxes@.take(boxes@.len() as int) =~= boxes@);
    around
}

impl StoreView {
    /// The test whether a key is live.
    pub open spec fn is_live(self) -> spec_fn(StrokeKey) -> bool {
        |k: StrokeKey| self.entries.dom().contains(k)
    }

    /// The live keys among `keys`, in their order.
    pub open spec fn live_among(self, keys: Seq<StrokeKey>) -> Seq<StrokeKey> {
        keys.filter(self.is_live())
    }

    /// The bounds of the live keys among `keys`, in their order.
    pub open spec fn strokes_bounds(self, keys: Seq<StrokeKey>) -> Seq<Aabb> {
        self.live_among(keys).map_values(|k: StrokeKey| self.entries[k].stroke.bounds)
    }

    /// The strokes of the live keys among `keys`, in their order.
    pub open spec fn strokes(self, keys: Seq<StrokeKey>) -> Seq<StrokeView> {
        self.live_among(keys).map_values(|k: StrokeKey| self.entries[k].stroke)
    }

    /// Whether `key` is shown: it is live and not trashed.
    pub open spec fn is_shown(self, key: StrokeKey) -> bool {
        self.entries.dom().contains(key) && !self.entries[key].trashed
    }

    /// Whether `key` is live with the given flags, where a flag is given.
    pub open spec fn has_flags(
        self,
        key: StrokeKey,
        selected: Option<bool>,
        trashed: Option<bool>,
    ) -> bool {
        &&& self.entries.dom().contains(key)
        &&& selected matches Some(s) ==> self.entries[key].selected == s
        &&& trashed matches Some(t) ==> self.entries[key].trashed == t
    }

    /// The store after `stroke` took the place of the content of `key`. The stroke
    /// is dirty then. Unchanged for a stale key.
    pub open spec fn update_stroke(self, key: StrokeKey, stroke: StrokeView) -> StoreView {
        if self.entries.dom().contains(key) {
            self.with_entry(
                key,
                StrokeEntryView { stroke, render: RenderStateView::Dirty, ..self.entries[key] },
            )
        } else {
            self
        }
    }

    /// Whether the stroke of `key` can be moved by `(dx, dy)`.
    pub open spec fn can_translate(self, key: StrokeKey, dx: i64, dy: i64) -> bool {
        self.entries.dom().contains(key) && self.entries[key].stroke.bounds.can_translate(dx, dy)
    }

    /// The store after the stroke of `key` was moved by `(dx, dy)`; unchanged where
    /// it cannot be moved.
    pub open spec fn translate_stroke(self, key: StrokeKey, dx: i64, dy: i64) -> StoreView {
        if self.can_translate(key, dx, dy) {
            self.update_stroke(
                key,
                StrokeView {
                    bounds: self.entries[key].stroke.bounds.translated_spec(dx, dy),
                    ..self.entries[key].stroke
                },
            )
        } else {
            self
        }
    }

    /// The store after each stroke of `keys` was moved by `(dx, dy)`, one after the other.
    pub open spec fn translate_strokes(self, keys: Seq<StrokeKey>, dx: i64, dy: i64) -> StoreView
        decreases keys.len(),
    {
        if keys.len() == 0 {
            self
        } else {
            self.translate_strokes(keys.drop_last(), dx, dy).translate_stroke(keys.last(), dx, dy)
        }
    }
}

impl StrokeStore {
    /// The keys of `keys` that are live with the given flags.
    fn select_keys(
        &self,
        keys: &Vec<StrokeKey>,
        selected: Option<bool>,
        trashed: Option<bool>,
    ) -> (r: Vec<StrokeKey>)
        requires
            keys@.no_duplicates(),
        ensures
            r@.no_duplicates(),
            forall|k: StrokeKey|
                r@.contains(k) <==> keys@.contains(k) && self@.has_flags(k, selected, trashed),
    {
        let mut out: Vec<StrokeKey> = Vec::new();
        let mut i: usize = 0;
        while i < keys.len()
            invariant
                i <= keys.len(),
                keys@.no_duplicates(),
                out@.no_duplicates(),
                forall|k: StrokeKey|
                    out@.contains(k) <==> keys@.take(i as int).contains(k) && self@.has_flags(
                        k,
                        selected,
                        trashed,
                    ),
            decreases keys.len() - i,
        {
            let key = keys[i];
            let ghost done = keys@.take(i as int);
            let ghost before = out@;
            proof {
                assert(keys@.take(i + 1) =~= done.push(key));
                assert(!done.contains(key)) by {
                    if done.contains(key) {
                        let a = choose|a: int| 0 <= a < done.len() && done[a] == key;
                        assert(keys@[a] == keys@[i as int]);
                    }
                }
            }
            let fits = match self.entry(key) {
                Some(entry) => {
                    let selected_fits = match selected {
                        Some(s) => entry.selected == s,
                        None => true,
                    };
                    let trashed_fits = match trashed {
                        Some(t) => entry.trashed == t,
                        None => true,
                    };
                    selected_fits && trashed_fits
                },
                None => false,
            };
            if fits {
                out.push(key);
            }
            proof {
                assert forall|k: StrokeKey|
                    out@.contains(k) <==> done.push(key).contains(k) && self@.has_flags(
                        k,
                        selected,
                        trashed,
                    ) by {
                    if out@.contains(k) {
                        let a = choose|a: int| 0 <= a < out@.len() && out@[a] == k;
                        if a < before.len() {
                            assert(before[a] == k);
                            assert(before.contains(k));
                            let b = choose|b: int| 0 <= b < done.len() && done[b] == k;
                            assert(done.push(key)[b] == k);
                        } else {
                            assert(done.push(key)[done.len() as int] == k);
                        }
                    }
                    if done.push(key).contains(k) && self@.has_flags(k, selected, trashed) {
                        let b = choose|b: int| 0 <= b < done.push(key).len()
                            && done.push(key)[b] == k;
                        if b < done.len() {
                            assert(done[b] == k);
                            assert(done.contains(k));
                            assert(before.contains(k));
                            let a = choose|a: int| 0 <= a < before.len() && before[a] == k;
                            assert(out@[a] == k);
                        } else {
                            assert(out@[before.len() as int] == k);
                        }
                    }
                }
                if fits {
                    assert(!before.contains(key));
                }
            }
            i += 1;
        }
        assert(keys@.take(keys@.len() as int) =~= keys@);
        out
    }

    /// The keys that are not trashed, in no particular order.
    pub fn stroke_keys_unordered(&self) -> (r: Vec<StrokeKey>)
        ensures
            r@.no_duplicates(),
            forall|k: StrokeKey| r@.contains(k) <==> self@.is_shown(k),
    {
        let keys = self.keys_unordered();
        self.select_keys(&keys, None, Some(false))
    }

    /// The keys that are not trashed, in the order in which they are painted.
    pub fn stroke_keys_as_rendered(&self) -> (r: Vec<StrokeKey>)
        requires
            self.wf(),
        ensures
            r@.no_duplicates(),
            forall|k: StrokeKey| r@.contains(k) <==> self@.is_shown(k),
            self@.in_paint_order(r@),
    {
        let shown = self.stroke_keys_unordered();
        proof {
            assert forall|i: int| 0 <= i < shown@.len() implies self@.entries.dom().contains(
                shown@[i],
            ) by {
                assert(shown@.contains(shown@[i]));
            }
        }
        self.sort_chrono(&shown)
    }

    /// The keys that are not trashed and whose stroke meets `bounds`, in the order
    /// in which they are painted.
    pub fn stroke_keys_as_rendered_intersecting_bounds(&self, bounds: Aabb) -> (r: Vec<StrokeKey>)
        requires
            self.wf(),
        ensures
            r@.no_duplicates(),
            forall|k: StrokeKey|
                r@.contains(k) <==> self@.is_shown(k)
                    && self@.entries[k].stroke.bounds.intersects_spec(bounds),
            self@.in_paint_order(r@),
    {
        let hits = self.keys_unordered_intersecting_bounds(bounds);
        let shown = self.select_keys(&hits, None, Some(false));
        proof {
            assert forall|i: int| 0 <= i < shown@.len() implies self@.entries.dom().contains(
                shown@[i],
            ) by {
                assert(shown@.contains(shown@[i]));
            }
        }
        self.sort_chrono(&shown)
    }

    /// The selected keys, trashed or not, in no particular order.
    pub fn selection_keys_unordered(&self) -> (r: Vec<StrokeKey>)
        ensures
            r@.no_duplicates(),
            forall|k: StrokeKey|
                r@.contains(k) <==> self@.entries.dom().contains(k) && self@.entries[k].selected,
    {
        let keys = self.keys_unordered();
        self.select_keys(&keys, Some(true), None)
    }

    /// The selected keys that are not trashed, in the order in which they are painted.
    pub fn selection_keys_as_rendered(&self) -> (r: Vec<StrokeKey>)
        requires
            self.wf(),
        ensures
            r@.no_duplicates(),
            forall|k: StrokeKey| r@.contains(k) <==> self@.is_shown(k) && self@.entries[k].selected,
            self@.in_paint_order(r@),
    {
        let keys = self.keys_unordered();
        let picked = self.select_keys(&keys, Some(true), Some(false));
        proof {
            assert forall|i: int| 0 <= i < picked@.len() implies self@.entries.dom().contains(
                picked@[i],
            ) by {
                assert(picked@.contains(picked@[i]));
            }
        }
        self.sort_chrono(&picked)
    }

    /// The trashed keys, in no particular order.
    pub fn trashed_keys_unordered(&self) -> (r: Vec<StrokeKey>)
        ensures
            r@.no_duplicates(),
            forall|k: StrokeKey|
                r@.contains(k) <==> self@.entries.dom().contains(k) && self@.entries[k].trashed,
    {
        let keys = self.keys_unordered();
        self.select_keys(&keys, None, Some(true))
    }

    /// The bounds of each live key of `keys`, in their order.
    pub fn strokes_bounds(&self, keys: &Vec<StrokeKey>) -> (r: Vec<Aabb>)
        ensures
            r@ == self@.strokes_bounds(keys@),
    {
        let mut out: Vec<Aabb> = Vec::new();
        let mut i: usize = 0;
        assert(keys@.take(0).filter(self@.is_live()) =~= Seq::<StrokeKey>::empty()) by {
            reveal(Seq::filter);
        }
        while i < keys.len()
            invariant
                i <= keys.len(),
                out@ == self@.strokes_bounds(keys@.take(i as int)),
            decreases keys.len() - i,
        {
            let key = keys[i];
            proof {
                assert(keys@.take(i + 1) =~= keys@.take(i as int).push(key));
                keys@.take(i as int).lemma_filter_push(key, self@.is_live());
            }
            match self.get_stroke_ref(key) {
                Some(stroke) => {
                    out.push(stroke.bounds());
                    assert(out@ =~= self@.strokes_bounds(keys@.take(i + 1)));
                },
                None => {},
            }
            i += 1;
        }
        assert(keys@.take(keys@.len() as int) =~= keys@);
        out
    }

    /// The smallest box around the strokes of the live keys of `keys`, or `None`
    /// where none of them is live.
    pub fn bounds_for_strokes(&self, keys: &Vec<StrokeKey>) -> (r: Option<Aabb>)
        ensures
            r == merged_bounds(self@.strokes_bounds(keys@)),
    {
        let boxes = self.strokes_bounds(keys);
        merge_all(&boxes)
    }

    /// Independent copies of the strokes of the live keys of `keys`, in their order.
    /// Nothing that happens to the store later shows in them.
    pub fn clone_strokes(&self, keys: &Vec<StrokeKey>) -> (r: Vec<Stroke>)
        ensures
            r@.map_values(|s: Stroke| s@) == self@.strokes(keys@),
    {
        let mut out: Vec<Stroke> = Vec::new();
        let mut i: usize = 0;
        assert(keys@.take(0).filter(self@.is_live()) =~= Seq::<StrokeKey>::empty()) by {
            reveal(Seq::filter);
        }
        assert(out@.map_values(|s: Stroke| s@) =~= self@.strokes(keys@.take(0)));
        while i < keys.len()
            invariant
                i <= keys.len(),
                out@.map_values(|s: Stroke| s@) == self@.strokes(keys@.take(i as int)),
            decreases keys.len() - i,
        {
            let key = keys[i];
            let ghost before = out@;
            proof {
                assert(keys@.take(i + 1) =~= keys@.take(i as int).push(key));
                keys@.take(i as int).lemma_filter_push(key, self@.is_live());
            }
            match self.get_stroke_ref(key) {
                Some(stroke) => {
                    out.push(stroke.duplicate());
                    assert(out@.map_values(|s: Stroke| s@)
                        =~= before.map_values(|s: Stroke| s@).push(
                        stroke@,
                    ));
                    assert(out@.map_values(|s: Stroke| s@) =~= self@.strokes(keys@.take(i + 1)));
                },
                None => {},
            }
            i += 1;
        }
        assert(keys@.take(keys@.len() as int) =~= keys@);
        out
    }

    /// Puts `stroke` in the place of the content of `key`, files the key under the
    /// new bounds and marks it dirty, all in one step. Returns whether the key was live.
    pub fn update_stroke(&mut self, key: StrokeKey, stroke: Stroke) -> (updated: bool)
        requires
            old(self).wf(),
        ensures
            final(self).wf(),
            final(self)@ == old(self)@.update_stroke(key, stroke@),
            updated == old(self)@.entries.dom().contains(key),
    {
        let entry = match self.entry(key) {
            Some(entry) => entry.duplicate(),
            None => { return false; },
        };
        let bounds = stroke.bounds();
        let entry = StrokeEntry { stroke: Arc::new(stroke), render: RenderState::Dirty, ..entry };
        proof {
            self.lemma_valid();
            lemma_key_fits(*self, key);
        }
        self.key_tree.update(key, bounds);
        self.slots.set(key.index, Some(entry));
        proof {
            let before = old(self)@;
            let after = self@;
            assert(after.entries =~= before.entries.insert(key, entry@));
            assert(entries_valid(after.entries, after.issued, after.chrono_counter)) by {
                assert forall|k: StrokeKey| #[trigger] after.entries.dom().contains(k) implies
                    k.ordinal()
                    < after.issued && after.entries[k].chrono.t <= after.chrono_counter by {
                    assert(before.entries.dom().contains(k));
                }
            }
            lemma_stack_stays_valid(
                before.undo_stack,
                before.issued,
                before.chrono_counter,
                after.issued,
                after.chrono_counter,
            );
            lemma_stack_stays_valid(
                before.redo_stack,
                before.issued,
                before.chrono_counter,
                after.issued,
                after.chrono_counter,
            );
            assert(self.indexed()) by {
                assert forall|k: StrokeKey|
                    self.key_tree@.dom().contains(k) <==> #[trigger] table_of(
                        self.slots@,
                    ).dom().contains(k) by {
                    assert(old(self).key_tree@.dom().contains(k) <==> table_of(
                        old(self).slots@,
                    ).dom().contains(k));
                }
                assert forall|k: StrokeKey| #[trigger]
                    self.key_tree@.dom().contains(k) implies self.key_tree@[k] == table_of(
                    self.slots@,
                )[k].stroke.bounds by {
                    if k != key {
                        assert(old(self).key_tree@.dom().contains(k));
                    }
                }
            }
        }
        true
    }

    /// Moves the stroke of `key` by `(dx, dy)`. Returns `false`, and changes nothing,
    /// where the key is stale or the moved bounds would leave `i64`.
    pub fn translate_stroke(&mut self, key: StrokeKey, dx: i64, dy: i64) -> (moved: bool)
        requires
            old(self).wf(),
        ensures
            final(self).wf(),
            final(self)@ == old(self)@.translate_stroke(key, dx, dy),
            moved == old(self)@.can_translate(key, dx, dy),
    {
        let moved = match self.get_stroke_ref(key) {
            Some(stroke) => stroke.translated(dx, dy),
            None => None,
        };
        match moved {
            Some(stroke) => self.update_stroke(key, stroke),
            None => false,
        }
    }

    /// Moves the stroke of each key of `keys` by `(dx, dy)`, as [`Self::translate_stroke`] does.
    pub fn translate_strokes(&mut self, keys: &Vec<StrokeKey>, dx: i64, dy: i64)
        requires
            old(self).wf(),
        ensures
            final(self).wf(),
            final(self)@ == old(self)@.translate_strokes(keys@, dx, dy),
    {
        let mut i: usize = 0;
        while i < keys.len()
            invariant
                i <= keys.len(),
                self.wf(),
                self@ == old(self)@.translate_strokes(keys@.take(i as int), dx, dy),
            decreases keys.len() - i,
        {
            proof {
                assert(keys@.take(i + 1).drop_last() =~= keys@.take(i as int));
            }
            self.translate_stroke(keys[i], dx, dy);
            i += 1;
        }
        assert(keys@.take(keys@.len() as int) =~= keys@);
    }
}

/// The ordinal of a live key is below the number of slots, which fits `usize`.
proof fn lemma_key_fits(store: StrokeStore, key: StrokeKey)
    requires
        store.wf(),
        store@.entries.dom().contains(key),
    ensures
        key.ordinal() < usize::MAX,
{
}

} // verus!
