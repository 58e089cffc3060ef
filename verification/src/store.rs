//! The stroke store: component tables, their spatial index and their history.

use std::sync::Arc;

use vstd::prelude::*;

use crate::store::chrono_comp::{ChronoComponent, StrokeLayer};
use crate::store::history::StoreSnapshot;
use crate::store::keytree::KeyTree;
use crate::store::render_comp::{RenderState, RenderStateView};
use crate::strokes::{Stroke, StrokeView};

pub mod chrono_comp;
pub mod history;
pub mod keytree;
pub mod render_comp;
pub mod stroke_comp;

verus! {

/// The handle of a stroke. The store hands each one out once and never again: a
/// handle whose stroke was removed finds nothing until an undo brings that stroke
/// back, and it never finds another stroke, whatever was inserted since.
#[derive(Clone, Copy, Debug, PartialEq, Eq, Structural, Hash)]
pub struct StrokeKey {
    pub(crate) index: usize,
}

impl StrokeKey {
    /// The place of the key among all keys that its store has handed out, from 0.
    pub closed spec fn ordinal(self) -> nat {
        self.index as nat
    }

    /// The key with the given ordinal.
    pub closed spec fn at(ordinal: nat) -> StrokeKey {
        StrokeKey { index: ordinal as usize }
    }
}

/// Two keys with the same ordinal are the same key.
pub proof fn lemma_ordinal_injective(a: StrokeKey, b: StrokeKey)
    requires
        a.ordinal() == b.ordinal(),
    ensures
        a == b,
{
}

/// The key at an ordinal has that ordinal.
pub proof fn lemma_key_at(ordinal: nat)
    requires
        ordinal <= usize::MAX,
    ensures
        StrokeKey::at(ordinal).ordinal() == ordinal,
{
}

/// The key that the next insert hands out was never handed out before: neither
/// the tables nor any snapshot of the history holds it, so nothing that still
/// names an older key can come to name the new stroke.
pub proof fn lemma_next_key_is_fresh(view: StoreView)
    requires
        view.valid(),
    ensures
        !view.entries.dom().contains(view.next_key()),
        forall|i: int|
            0 <= i < view.undo_stack.len() ==> !(#[trigger] view.undo_stack[i]).dom().contains(
                view.next_key(),
            ),
        forall|i: int|
            0 <= i < view.redo_stack.len() ==> !(#[trigger] view.redo_stack[i]).dom().contains(
                view.next_key(),
            ),
{
    lemma_key_at(view.issued);
    assert forall|i: int| 0 <= i < view.undo_stack.len() implies !(
    #[trigger] view.undo_stack[i]).dom().contains(view.next_key()) by {
        assert(entries_valid(view.undo_stack[i], view.issued, view.chrono_counter));
    }
    assert forall|i: int| 0 <= i < view.redo_stack.len() implies !(
    #[trigger] view.redo_stack[i]).dom().contains(view.next_key()) by {
        assert(entries_valid(view.redo_stack[i], view.issued, view.chrono_counter));
    }
}

/// What the component tables hold for one key, as a value.
pub struct StrokeEntryView {
    pub stroke: StrokeView,
    pub chrono: ChronoComponent,
    pub render: RenderStateView,
    pub selected: bool,
    pub trashed: bool,
}

impl StrokeEntryView {
    /// The entry as a snapshot keeps it.
    pub open spec fn settled(self) -> StrokeEntryView {
        StrokeEntryView { render: self.render.settled(), ..self }
    }
}

/// The tables of a store as a snapshot keeps them.
pub open spec fn settled_entries(entries: Map<StrokeKey, StrokeEntryView>) -> Map<
    StrokeKey,
    StrokeEntryView,
> {
    entries.map_values(|e: StrokeEntryView| e.settled())
}

/// What the component tables hold for one key. The content is shared with every
/// snapshot that holds the same stroke.
#[derive(Debug)]
pub struct StrokeEntry {
    pub stroke: Arc<Stroke>,
    pub chrono: ChronoComponent,
    pub render: RenderState,
    pub selected: bool,
    pub trashed: bool,
}

impl View for StrokeEntry {
    type V = StrokeEntryView;

    open spec fn view(&self) -> StrokeEntryView {
        StrokeEntryView {
            stroke: (*self.stroke)@,
            chrono: self.chrono,
            render: self.render@,
            selected: self.selected,
            trashed: self.trashed,
        }
    }
}

impl StrokeEntry {
    /// The same entry, sharing content and images.
    pub fn duplicate(&self) -> (r: StrokeEntry)
        ensures
            r@ == self@,
    {
        StrokeEntry {
            stroke: render_comp::share(&self.stroke),
            chrono: self.chrono,
            render: self.render.duplicate(),
            selected: self.selected,
            trashed: self.trashed,
        }
    }

    /// The entry as a snapshot keeps it.
    pub fn settled(&self) -> (r: StrokeEntry)
        ensures
            r@ == self@.settled(),
    {
        StrokeEntry {
            stroke: render_comp::share(&self.stroke),
            chrono: self.chrono,
            render: self.render.settled(),
            selected: self.selected,
            trashed: self.trashed,
        }
    }
}

/// The tables that a sequence of slots stands for: the key with ordinal `i` has the
/// entry in slot `i`, if there is one.
pub closed spec fn table_of(slots: Seq<Option<StrokeEntry>>) -> Map<StrokeKey, StrokeEntryView> {
    Map::new(
        |k: StrokeKey| k.index < slots.len() && slots[k.index as int].is_some(),
        |k: StrokeKey| slots[k.index as int].unwrap()@,
    )
}

/// What a store is, as a value.
pub struct StoreView {
    /// The component tables: what each live key stands for.
    pub entries: Map<StrokeKey, StrokeEntryView>,
    /// The last promotion time that was given out.
    pub chrono_counter: u32,
    /// How many keys were handed out so far.
    pub issued: nat,
    /// The snapshots that `undo` goes back to, the latest last.
    pub undo_stack: Seq<Map<StrokeKey, StrokeEntryView>>,
    /// The snapshots that `redo` goes forward to, the next last.
    pub redo_stack: Seq<Map<StrokeKey, StrokeEntryView>>,
}

/// Every key of `entries` was handed out, and no promotion time is ahead of the counter.
pub open spec fn entries_valid(
    entries: Map<StrokeKey, StrokeEntryView>,
    issued: nat,
    chrono_counter: u32,
) -> bool {
    forall|k: StrokeKey| #[trigger]
        entries.dom().contains(k) ==> k.ordinal() < issued && entries[k].chrono.t
            <= chrono_counter
}

/// Snapshots stay valid while keys are handed out and the counter goes up.
pub proof fn lemma_stack_stays_valid(
    stack: Seq<Map<StrokeKey, StrokeEntryView>>,
    issued: nat,
    chrono_counter: u32,
    issued_after: nat,
    chrono_counter_after: u32,
)
    requires
        forall|i: int|
            0 <= i < stack.len() ==> entries_valid(#[trigger] stack[i], issued, chrono_counter),
        issued <= issued_after,
        chrono_counter <= chrono_counter_after,
    ensures
        forall|i: int|
            0 <= i < stack.len() ==> entries_valid(
                #[trigger] stack[i],
                issued_after,
                chrono_counter_after,
            ),
{
    assert forall|i: int| 0 <= i < stack.len() implies entries_valid(
        #[trigger] stack[i],
        issued_after,
        chrono_counter_after,
    ) by {
        assert(entries_valid(stack[i], issued, chrono_counter));
    }
}

impl StoreView {
    /// What holds of every store.
    pub open spec fn valid(self) -> bool {
        &&& self.issued <= self.chrono_counter
        &&& entries_valid(self.entries, self.issued, self.chrono_counter)
        &&& forall|i: int|
            0 <= i < self.undo_stack.len() ==> entries_valid(
                #[trigger] self.undo_stack[i],
                self.issued,
                self.chrono_counter,
            )
        &&& forall|i: int|
            0 <= i < self.redo_stack.len() ==> entries_valid(
                #[trigger] self.redo_stack[i],
                self.issued,
                self.chrono_counter,
            )
    }

    /// The store in which nothing has happened yet.
    pub open spec fn empty() -> StoreView {
        StoreView {
            entries: Map::empty(),
            chrono_counter: 0,
            issued: 0,
            undo_stack: Seq::empty(),
            redo_stack: Seq::empty(),
        }
    }

    /// The key that the next inserted stroke gets.
    pub open spec fn next_key(self) -> StrokeKey {
        StrokeKey::at(self.issued)
    }

    /// The store after `stroke` was inserted on `layer`, in front of its layer.
    pub open spec fn insert_stroke(self, stroke: StrokeView, layer: StrokeLayer) -> StoreView {
        StoreView {
            entries: self.entries.insert(
                self.next_key(),
                StrokeEntryView {
                    stroke,
                    chrono: ChronoComponent { t: (self.chrono_counter + 1) as u32, layer },
                    render: RenderStateView::Dirty,
                    selected: false,
                    trashed: false,
                },
            ),
            chrono_counter: (self.chrono_counter + 1) as u32,
            issued: self.issued + 1,
            ..self
        }
    }

    /// The store after `key` was removed.
    pub open spec fn remove_stroke(self, key: StrokeKey) -> StoreView {
        StoreView { entries: self.entries.remove(key), ..self }
    }

    /// The store with `entry` in the place of what `key` stood for.
    pub open spec fn with_entry(self, key: StrokeKey, entry: StrokeEntryView) -> StoreView {
        StoreView { entries: self.entries.insert(key, entry), ..self }
    }

    /// The store after the selection flag of `key` was set; unchanged for a stale key.
    pub open spec fn set_selected(self, key: StrokeKey, selected: bool) -> StoreView {
        if self.entries.dom().contains(key) {
            self.with_entry(key, StrokeEntryView { selected, ..self.entries[key] })
        } else {
            self
        }
    }

    /// The store after the trash flag of `key` was set; unchanged for a stale key.
    pub open spec fn set_trashed(self, key: StrokeKey, trashed: bool) -> StoreView {
        if self.entries.dom().contains(key) {
            self.with_entry(key, StrokeEntryView { trashed, ..self.entries[key] })
        } else {
            self
        }
    }
}

/// The strokes of a document with their spatial index, paint order, render cache
/// and history.
pub struct StrokeStore {
    /// The component tables: slot `i` holds what the key with ordinal `i` stands for.
    /// A slot belongs to one key for good.
    pub(crate) slots: Vec<Option<StrokeEntry>>,
    pub(crate) key_tree: KeyTree,
    pub(crate) chrono_counter: u32,
    pub(crate) history: Vec<Arc<StoreSnapshot>>,
    pub(crate) future: Vec<Arc<StoreSnapshot>>,
}

/// The tables of each snapshot of a stack.
pub closed spec fn stack_view(stack: Seq<Arc<StoreSnapshot>>) -> Seq<Map<StrokeKey,
    StrokeEntryView>> {
    stack.map_values(|s: Arc<StoreSnapshot>| (*s)@)
}

impl View for StrokeStore {
    type V = StoreView;

    closed spec fn view(&self) -> StoreView {
        StoreView {
            entries: table_of(self.slots@),
            chrono_counter: self.chrono_counter,
            issued: self.slots@.len(),
            undo_stack: stack_view(self.history@),
            redo_stack: stack_view(self.future@),
        }
    }
}

impl StrokeStore {
    /// The bounds that the spatial index must hold: those of each live stroke.
    pub(crate) closed spec fn indexed(self) -> bool {
        &&& forall|k: StrokeKey|
            self.key_tree@.dom().contains(k) <==> #[trigger] table_of(self.slots@).dom().contains(
                k,
            )
        &&& forall|k: StrokeKey| #[trigger]
            self.key_tree@.dom().contains(k) ==> self.key_tree@[k] == table_of(
                self.slots@,
            )[k].stroke.bounds
    }

    /// No snapshot has more slots than the store.
    pub(crate) closed spec fn snapshots_fit(self) -> bool {
        &&& forall|i: int|
            0 <= i < self.history@.len() ==> (#[trigger] self.history@[i]).slots@.len()
                <= self.slots@.len()
        &&& forall|i: int|
            0 <= i < self.future@.len() ==> (#[trigger] self.future@[i]).slots@.len()
                <= self.slots@.len()
    }

    /// The invariant of the store: the spatial index files each live key under the
    /// bounds of its stroke, and the store is valid as a value.
    pub closed spec fn wf(self) -> bool {
        &&& self.key_tree.wf()
        &&& self.indexed()
        &&& self.snapshots_fit()
        &&& self@.valid()
        &&& self.slots@.len() <= u32::MAX
    }

    /// A well-formed store is valid as a value.
    pub proof fn lemma_valid(self)
        requires
            self.wf(),
        ensures
            self@.valid(),
    {
    }

    /// A store without strokes and without history.
    pub fn new() -> (r: StrokeStore)
        ensures
            r.wf(),
            r@ == StoreView::empty(),
    {
        let r = StrokeStore {
            slots: Vec::new(),
            key_tree: KeyTree::new(),
            chrono_counter: 0,
            history: Vec::new(),
            future: Vec::new(),
        };
        proof {
            assert(table_of(r.slots@) =~= Map::empty());
            assert(stack_view(r.history@) =~= Seq::empty());
            assert(stack_view(r.future@) =~= Seq::empty());
        }
        r
    }

    /// The last promotion time that was given out.
    pub fn chrono_counter(&self) -> (r: u32)
        ensures
            r == self@.chrono_counter,
    {
        self.chrono_counter
    }

    /// Whether `key` stands for a stroke.
    pub fn contains(&self, key: StrokeKey) -> (r: bool)
        ensures
            r == self@.entries.dom().contains(key),
    {
        key.index < self.slots.len() && self.slots[key.index].is_some()
    }

    /// Inserts `stroke` in front of `layer`, or of the default layer, and hands out
    /// its key. The stroke starts dirty, unselected and not trashed.
    pub fn insert_stroke(&mut self, stroke: Stroke, layer: Option<StrokeLayer>) -> (key: StrokeKey)
        requires
            old(self).wf(),
            old(self)@.chrono_counter < u32::MAX,
        ensures
            final(self).wf(),
            key == old(self)@.next_key(),
            !old(self)@.entries.dom().contains(key),
            final(self)@ == old(self)@.insert_stroke(
                stroke@,
                match layer {
                    Some(layer) => layer,
                    None => StrokeLayer::UserLayer(0),
                },
            ),
    {
        let key = StrokeKey { index: self.slots.len() };
        let layer = match layer {
            Some(layer) => layer,
            None => StrokeLayer::default(),
        };
        let bounds = stroke.bounds();
        self.chrono_counter = self.chrono_counter + 1;
        let entry = StrokeEntry {
            stroke: Arc::new(stroke),
            chrono: ChronoComponent::new(self.chrono_counter, layer),
            render: RenderState::Dirty,
            selected: false,
            trashed: false,
        };
        self.slots.push(Some(entry));
        self.key_tree.insert(key, bounds);
        proof {
            let before = old(self)@;
            let after = self@;
            assert(after.entries =~= before.entries.insert(key, entry@));
            assert(entries_valid(after.entries, after.issued, after.chrono_counter)) by {
                assert forall|k: StrokeKey| #[trigger] after.entries.dom().contains(k) implies
                    k.ordinal()
                    < after.issued && after.entries[k].chrono.t <= after.chrono_counter by {
                    if k != key {
                        assert(before.entries.dom().contains(k));
                    }
                }
            }
            lemma_stack_stays_valid(
                before.undo_stack,
                before.issued,
                before.chrono_counter,
                after.issued,
                after.chrono_counter,
            );
            lemma_stack_stays_valid(
                before.redo_stack,
                before.issued,
                before.chrono_counter,
                after.issued,
                after.chrono_counter,
            );
            assert(self.indexed()) by {
                assert forall|k: StrokeKey|
                    self.key_tree@.dom().contains(k) <==> #[trigger] table_of(
                        self.slots@,
                    ).dom().contains(k) by {
                    if k != key {
                        assert(old(self).key_tree@.dom().contains(k) <==> table_of(
                            old(self).slots@,
                        ).dom().contains(k));
                    }
                }
                assert forall|k: StrokeKey| #[trigger]
                    self.key_tree@.dom().contains(k) implies self.key_tree@[k] == table_of(
                    self.slots@,
                )[k].stroke.bounds by {
                    if k != key {
                        assert(old(self).key_tree@.dom().contains(k));
                    }
                }
            }
        }
        key
    }

    /// Moves the counter of promotion times one up.
    pub(crate) fn bump_chrono_counter(&mut self)
        requires
            old(self).wf(),
            old(self)@.chrono_counter < u32::MAX,
        ensures
            final(self).wf(),
            final(self)@ == (StoreView {
                chrono_counter: (old(self)@.chrono_counter + 1) as u32,
                ..old(self)@
            }),
    {
        self.chrono_counter = self.chrono_counter + 1;
        proof {
            let before = old(self)@;
            let after = self@;
            lemma_stack_stays_valid(
                before.undo_stack,
                before.issued,
                before.chrono_counter,
                after.issued,
                after.chrono_counter,
            );
            lemma_stack_stays_valid(
                before.redo_stack,
                before.issued,
                before.chrono_counter,
                after.issued,
                after.chrono_counter,
            );
            assert(entries_valid(after.entries, after.issued, after.chrono_counter)) by {
                assert forall|k: StrokeKey| #[trigger] after.entries.dom().contains(k) implies
                    k.ordinal()
                    < after.issued && after.entries[k].chrono.t <= after.chrono_counter by {
                    assert(before.entries.dom().contains(k));
                }
            }
        }
    }

    /// Puts `entry` in the place of what `key` stands for. The stroke keeps its bounds.
    pub(crate) fn put_entry(&mut self, key: StrokeKey, entry: StrokeEntry)
        requires
            old(self).wf(),
            old(self)@.entries.dom().contains(key),
            entry@.stroke.bounds == old(self)@.entries[key].stroke.bounds,
            entry@.chrono.t <= old(self)@.chrono_counter,
        ensures
            final(self).wf(),
            final(self)@ == old(self)@.with_entry(key, entry@),
    {
        self.slots.set(key.index, Some(entry));
        proof {
            let before = old(self)@;
            let after = self@;
            assert(after.entries =~= before.entries.insert(key, entry@));
            assert(entries_valid(after.entries, after.issued, after.chrono_counter)) by {
                assert forall|k: StrokeKey| #[trigger] after.entries.dom().contains(k) implies
                    k.ordinal()
                    < after.issued && after.entries[k].chrono.t <= after.chrono_counter by {
                    assert(before.entries.dom().contains(k));
                }
            }
            lemma_stack_stays_valid(
                before.undo_stack,
                before.issued,
                before.chrono_counter,
                after.issued,
                after.chrono_counter,
            );
            lemma_stack_stays_valid(
                before.redo_stack,
                before.issued,
                before.chrono_counter,
                after.issued,
                after.chrono_counter,
            );
            assert(self.indexed()) by {
                assert forall|k: StrokeKey|
                    self.key_tree@.dom().contains(k) <==> #[trigger] table_of(
                        self.slots@,
                    ).dom().contains(k) by {
                    assert(old(self).key_tree@.dom().contains(k) <==> table_of(
                        old(self).slots@,
                    ).dom().contains(k));
                }
                assert forall|k: StrokeKey| #[trigger]
                    self.key_tree@.dom().contains(k) implies self.key_tree@[k] == table_of(
                    self.slots@,
                )[k].stroke.bounds by {
                    assert(old(self).key_tree@.dom().contains(k));
                }
            }
        }
    }

    /// The entry of `key`, or `None` for a stale key.
    pub fn entry(&self, key: StrokeKey) -> (r: Option<&StrokeEntry>)
        ensures
            r.is_some() == self@.entries.dom().contains(key),
            r matches Some(entry) ==> entry@ == self@.entries[key],
    {
        if key.index < self.slots.len() {
            self.slots[key.index].as_ref()
        } else {
            None
        }
    }

    /// The stroke of `key`, or `None` for a stale key.
    pub fn get_stroke_ref(&self, key: StrokeKey) -> (r: Option<&Stroke>)
        ensures
            r.is_some() == self@.entries.dom().contains(key),
            r matches Some(stroke) ==> stroke@ == self@.entries[key].stroke,
    {
        match self.entry(key) {
            Some(entry) => Some(&*entry.stroke),
            None => None,
        }
    }

    /// Removes `key` from every table and from the spatial index, and hands back
    /// its stroke. A stale key changes nothing.
    pub fn remove_stroke(&mut self, key: StrokeKey) -> (r: Option<Arc<Stroke>>)
        requires
            old(self).wf(),
        ensures
            final(self).wf(),
            final(self)@ == old(self)@.remove_stroke(key),
            r.is_some() == old(self)@.entries.dom().contains(key),
            r matches Some(stroke) ==> (*stroke)@ == old(self)@.entries[key].stroke,
    {
        let stroke = match self.entry(key) {
            Some(entry) => render_comp::share(&entry.stroke),
            None => {
                assert(self@.entries.remove(key) =~= self@.entries);
                return None;
            },
        };
        self.slots.set(key.index, None);
        self.key_tree.remove(key);
        proof {
            let before = old(self)@;
            let after = self@;
            assert(after.entries =~= before.entries.remove(key));
            lemma_stack_stays_valid(
                before.undo_stack,
                before.issued,
                before.chrono_counter,
                after.issued,
                after.chrono_counter,
            );
            lemma_stack_stays_valid(
                before.redo_stack,
                before.issued,
                before.chrono_counter,
                after.issued,
                after.chrono_counter,
            );
            assert(entries_valid(after.entries, after.issued, after.chrono_counter)) by {
                assert forall|k: StrokeKey| #[trigger] after.entries.dom().contains(k) implies
                    k.ordinal()
                    < after.issued && after.entries[k].chrono.t <= after.chrono_counter by {
                    assert(before.entries.dom().contains(k));
                }
            }
            assert(self.indexed()) by {
                assert forall|k: StrokeKey|
                    self.key_tree@.dom().contains(k) <==> #[trigger] table_of(
                        self.slots@,
                    ).dom().contains(k) by {
                    assert(old(self).key_tree@.dom().contains(k) <==> table_of(
                        old(self).slots@,
                    ).dom().contains(k));
                }
                assert forall|k: StrokeKey| #[trigger]
                    self.key_tree@.dom().contains(k) implies self.key_tree@[k] == table_of(
                    self.slots@,
                )[k].stroke.bounds by {
                    assert(old(self).key_tree@.dom().contains(k));
                }
            }
        }
        Some(stroke)
    }

    /// Whether `key` is selected, or `None` for a stale key.
    pub fn selected(&self, key: StrokeKey) -> (r: Option<bool>)
        ensures
            r == (if self@.entries.dom().contains(key) {
                Some(self@.entries[key].selected)
            } else {
                None
            }),
    {
        match self.entry(key) {
            Some(entry) => Some(entry.selected),
            None => None,
        }
    }

    /// Sets the selection flag of `key`. A stale key changes nothing.
    pub fn set_selected(&mut self, key: StrokeKey, selected: bool)
        requires
            old(self).wf(),
        ensures
            final(self).wf(),
            final(self)@ == old(self)@.set_selected(key, selected),
    {
        let entry = match self.entry(key) {
            Some(entry) => entry.duplicate(),
            None => { return ; },
        };
        proof {
            self.lemma_valid();
        }
        self.put_entry(key, StrokeEntry { selected, ..entry });
    }

    /// Whether `key` is trashed, or `None` for a stale key.
    pub fn trashed(&self, key: StrokeKey) -> (r: Option<bool>)
        ensures
            r == (if self@.entries.dom().contains(key) {
                Some(self@.entries[key].trashed)
            } else {
                None
            }),
    {
        match self.entry(key) {
            Some(entry) => Some(entry.trashed),
            None => None,
        }
    }

    /// Sets the trash flag of `key`. A stale key changes nothing.
    pub fn set_trashed(&mut self, key: StrokeKey, trashed: bool)
        requires
            old(self).wf(),
        ensures
            final(self).wf(),
            final(self)@ == old(self)@.set_trashed(key, trashed),
    {
        let entry = match self.entry(key) {
            Some(entry) => entry.duplicate(),
            None => { return ; },
        };
        proof {
            self.lemma_valid();
        }
        self.put_entry(key, StrokeEntry { trashed, ..entry });
    }
}

} // verus!
