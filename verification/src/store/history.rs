//! Snapshots of the component tables, and the undo and redo stacks made of them.

use std::sync::Arc;

use vstd::prelude::*;

use super::{
    entries_valid, settled_entries, stack_view, table_of, StoreView, StrokeEntry, StrokeEntryView,
    StrokeKey, StrokeStore,
};
use crate::store::keytree::KeyTree;
use crate::widgetflags::WidgetFlags;

verus! {

/// The component tables as they were at one moment. A snapshot has its own table
/// of handles; the strokes and images behind them are shared with the store and
/// with other snapshots, not copied.
pub struct StoreSnapshot {
    pub(crate) slots: Vec<Option<StrokeEntry>>,
}

impl View for StoreSnapshot {
    type V = Map<StrokeKey, StrokeEntryView>;

    closed spec fn view(&self) -> Map<StrokeKey, StrokeEntryView> {
        table_of(self.slots@)
    }
}

/// The latest promotion time among the first `n` slots.
pub closed spec fn latest_of(slots: Seq<Option<StrokeEntry>>, n: nat) -> u32
    decreases n,
{
    if n == 0 {
        0
    } else {
        let before = latest_of(slots, (n - 1) as nat);
        match slots[n - 1] {
            Some(entry) => if entry.chrono.t > before {
                entry.chrono.t
            } else {
                before
            },
            None => before,
        }
    }
}

proof fn lemma_latest_of(slots: Seq<Option<StrokeEntry>>, n: nat, i: int)
    requires
        0 <= i < n <= slots.len(),
        slots[i].is_some(),
    ensures
        slots[i].unwrap().chrono.t <= latest_of(slots, n),
    decreases n,
{
    if i < n - 1 {
        lemma_latest_of(slots, (n - 1) as nat, i);
    }
}

impl StoreSnapshot {
    /// The number of keys that the snapshot has room for: every key of it has an
    /// ordinal below.
    pub closed spec fn span(&self) -> nat {
        self.slots@.len()
    }

    /// The latest promotion time in the snapshot, 0 where it is empty.
    pub closed spec fn latest(&self) -> u32 {
        latest_of(self.slots@, self.slots@.len())
    }

    /// Every key of a snapshot is below its span, and no promotion time in it is
    /// after its latest.
    pub proof fn lemma_span_and_latest(&self, key: StrokeKey)
        requires
            self@.dom().contains(key),
        ensures
            key.ordinal() < self.span(),
            self@[key].chrono.t <= self.latest(),
    {
        lemma_latest_of(self.slots@, self.slots@.len(), key.index as int);
    }

    /// The snapshot in which the key with ordinal `i` stands for `entries[i]`, where
    /// there is one.
    pub fn from_entries(entries: Vec<Option<StrokeEntry>>) -> (r: StoreSnapshot)
        ensures
            r.span() == entries@.len(),
            forall|k: StrokeKey|
                r@.dom().contains(k) <==> k.ordinal() < entries@.len() && (
                #[trigger] entries@[k.ordinal() as int]).is_some(),
            forall|k: StrokeKey| #[trigger]
                r@.dom().contains(k) ==> r@[k] == entries@[k.ordinal() as int].unwrap()@,
    {
        StoreSnapshot { slots: entries }
    }

    /// The keys of the snapshot, the oldest first.
    pub fn keys(&self) -> (r: Vec<StrokeKey>)
        ensures
            r@.no_duplicates(),
            forall|k: StrokeKey| r@.contains(k) <==> self@.dom().contains(k),
            forall|i: int, j: int|
                0 <= i < j < r@.len() ==> r@[i].ordinal() < r@[j].ordinal(),
    {
        let mut out: Vec<StrokeKey> = Vec::new();
        let mut i: usize = 0;
        while i < self.slots.len()
            invariant
                i <= self.slots.len(),
                forall|a: int| 0 <= a < out@.len() ==> (#[trigger] out@[a]).index < i,
                forall|a: int, b: int| 0 <= a < b < out@.len() ==> out@[a].index < out@[b].index,
                forall|k: StrokeKey| out@.contains(k) <==> k.index < i && self@.dom().contains(k),
            decreases self.slots.len() - i,
        {
            if self.slots[i].is_some() {
                let key = StrokeKey { index: i };
                let ghost before = out@;
                out.push(key);
                proof {
                    assert forall|k: StrokeKey|
                        out@.contains(k) <==> k.index < i + 1 && self@.dom().contains(k) by {
                        if out@.contains(k) {
                            let a = choose|a: int| 0 <= a < out@.len() && out@[a] == k;
                            if a < before.len() {
                                assert(before[a] == k);
                                assert(before.contains(k));
                            }
                        }
                        if k.index < i + 1 && self@.dom().contains(k) {
                            if k.index < i {
                                assert(before.contains(k));
                                let a = choose|a: int| 0 <= a < before.len() && before[a] == k;
                                assert(out@[a] == k);
                            } else {
                                assert(out@[before.len() as int] == k);
                            }
                        }
                    }
                }
            }
            i += 1;
        }
        out
    }

    /// Whether the snapshot holds `key`.
    pub fn contains(&self, key: StrokeKey) -> (r: bool)
        ensures
            r == self@.dom().contains(key),
    {
        key.index < self.slots.len() && self.slots[key.index].is_some()
    }

    /// What the snapshot holds for `key`.
    pub fn entry(&self, key: StrokeKey) -> (r: Option<&StrokeEntry>)
        ensures
            r.is_some() == self@.dom().contains(key),
            r matches Some(entry) ==> entry@ == self@[key],
    {
        if key.index < self.slots.len() {
            self.slots[key.index].as_ref()
        } else {
            None
        }
    }
}

impl StoreView {
    /// The store after its tables were put on the undo stack. Nothing is left to redo.
    pub open spec fn record(self) -> StoreView {
        StoreView {
            undo_stack: self.undo_stack.push(settled_entries(self.entries)),
            redo_stack: Seq::empty(),
            ..self
        }
    }

    /// The store after it went back to the latest snapshot of the undo stack, its
    /// own tables now on the redo stack; unchanged where there is nothing to undo.
    pub open spec fn undo(self) -> StoreView {
        if self.undo_stack.len() == 0 {
            self
        } else {
            StoreView {
                entries: self.undo_stack.last(),
                undo_stack: self.undo_stack.drop_last(),
                redo_stack: self.redo_stack.push(settled_entries(self.entries)),
                ..self
            }
        }
    }

    /// The store after it went forward to the latest snapshot of the redo stack, its
    /// own tables now on the undo stack; unchanged where there is nothing to redo.
    pub open spec fn redo(self) -> StoreView {
        if self.redo_stack.len() == 0 {
            self
        } else {
            StoreView {
                entries: self.redo_stack.last(),
                undo_stack: self.undo_stack.push(settled_entries(self.entries)),
                redo_stack: self.redo_stack.drop_last(),
                ..self
            }
        }
    }

    /// The store after the tables `entries` of a snapshot took the place of its own.
    /// `span` and `latest` are the snapshot's: the store has handed out at least
    /// `span` keys then, and its counter is at `latest` or after.
    pub open spec fn import(
        self,
        entries: Map<StrokeKey, StrokeEntryView>,
        span: nat,
        latest: u32,
    ) -> StoreView {
        let issued = if span > self.issued {
            span
        } else {
            self.issued
        };
        let later = if latest > self.chrono_counter {
            latest
        } else {
            self.chrono_counter
        };
        StoreView {
            entries: settled_entries(entries),
            chrono_counter: if issued > later {
                issued as u32
            } else {
                later
            },
            issued,
            undo_stack: Seq::empty(),
            redo_stack: Seq::empty(),
        }
    }

    /// The store without strokes and without history. Keys that were handed out
    /// stay handed out.
    pub open spec fn clear(self) -> StoreView {
        StoreView {
            entries: Map::empty(),
            undo_stack: Seq::empty(),
            redo_stack: Seq::empty(),
            ..self
        }
    }
}

/// Record, edit, undo: the tables are those from before the edit, so every key
/// stands for the stroke it stood for, on the layer and with the promotion time it
/// had, and is painted where it was painted. Redo after that brings the tables
/// of the edited store back. Only strokes that were busy come back dirty.
///
/// `edited` is the store after any edit of the recorded store that leaves the
/// history alone.
pub proof fn lemma_record_undo_redo(start: StoreView, edited: StoreView)
    requires
        edited.undo_stack == start.record().undo_stack,
        edited.redo_stack == start.record().redo_stack,
    ensures
        edited.undo().entries == settled_entries(start.entries),
        edited.undo().entries.dom() == start.entries.dom(),
        forall|k: StrokeKey| #[trigger]
            start.entries.dom().contains(k) ==> {
                &&& edited.undo().entries[k].stroke == start.entries[k].stroke
                &&& edited.undo().entries[k].chrono == start.entries[k].chrono
                &&& edited.undo().entries[k].selected == start.entries[k].selected
                &&& edited.undo().entries[k].trashed == start.entries[k].trashed
                &&& edited.undo().entries[k].render == start.entries[k].render.settled()
            },
        forall|keys: Seq<StrokeKey>|
            (forall|i: int| 0 <= i < keys.len() ==> start.entries.dom().contains(keys[i]))
                ==> #[trigger] edited.undo().in_paint_order(keys) == start.in_paint_order(keys),
        edited.undo().undo_stack == start.undo_stack,
        edited.undo().redo().entries == settled_entries(edited.entries),
        edited.undo().redo().undo_stack == edited.undo_stack,
        edited.undo().redo().redo_stack == edited.redo_stack,
{
    let recorded = start.record();
    let undone = edited.undo();
    assert(recorded.undo_stack.last() == settled_entries(start.entries));
    assert(recorded.undo_stack.drop_last() =~= start.undo_stack);
    assert(undone.entries.dom() =~= start.entries.dom());
    assert forall|keys: Seq<StrokeKey>|
        (forall|i: int| 0 <= i < keys.len() ==> start.entries.dom().contains(keys[i]))
        implies #[trigger] undone.in_paint_order(keys) == start.in_paint_order(keys) by {
        assert forall|i: int| 0 <= i < keys.len() implies undone.rank(keys[i]) == start.rank(
            keys[i],
        ) by {
            assert(start.entries.dom().contains(keys[i]));
        }
        if start.in_paint_order(keys) {
            assert forall|i: int, j: int| 0 <= i < j < keys.len() implies #[trigger] undone.rank(
                keys[i],
            ).before(#[trigger] undone.rank(keys[j])) by {
                assert(start.rank(keys[i]).before(start.rank(keys[j])));
            }
        }
        if undone.in_paint_order(keys) {
            assert forall|i: int, j: int| 0 <= i < j < keys.len() implies #[trigger] start.rank(
                keys[i],
            ).before(#[trigger] start.rank(keys[j])) by {
                assert(undone.rank(keys[i]).before(undone.rank(keys[j])));
            }
        }
    }
    let redone = undone.redo();
    assert(settled_entries(undone.entries) =~= undone.entries);
    assert(undone.redo_stack.last() == settled_entries(edited.entries));
    assert(redone.redo_stack =~= edited.redo_stack);
    assert(redone.undo_stack =~= edited.undo_stack);
}

/// Undo and redo with nothing on their stack change nothing.
pub proof fn lemma_history_underflow(view: StoreView)
    ensures
        view.undo_stack.len() == 0 ==> view.undo() == view,
        view.redo_stack.len() == 0 ==> view.redo() == view,
{
}

/// What a restore asks of the caller: everything on screen may have changed.
pub open spec fn restored_flags() -> WidgetFlags {
    WidgetFlags {
        quit: false,
        redraw: true,
        resize: true,
        refresh_ui: true,
        indicate_changed_store: true,
    }
}

/// The tables that a snapshot keeps are valid where the tables were.
proof fn lemma_settled_valid(
    entries: Map<StrokeKey, StrokeEntryView>,
    issued: nat,
    chrono_counter: u32,
)
    requires
        entries_valid(entries, issued, chrono_counter),
    ensures
        entries_valid(settled_entries(entries), issued, chrono_counter),
{
    let settled = settled_entries(entries);
    assert forall|k: StrokeKey| #[trigger] settled.dom().contains(k) implies k.ordinal() < issued
        && settled[k].chrono.t <= chrono_counter by {
        assert(entries.dom().contains(k));
    }
}

impl StrokeStore {
    /// The tables as a snapshot keeps them.
    fn capture(&self) -> (r: StoreSnapshot)
        ensures
            r@ == settled_entries(self@.entries),
            r.slots@.len() == self.slots@.len(),
    {
        let mut slots: Vec<Option<StrokeEntry>> = Vec::new();
        let mut i: usize = 0;
        while i < self.slots.len()
            invariant
                i <= self.slots.len(),
                slots@.len() == i,
                forall|j: int|
                    0 <= j < i ==> (#[trigger] slots@[j]).is_some() == self.slots@[j].is_some(),
                forall|j: int|
                    0 <= j < i && self.slots@[j].is_some() ==> (#[trigger] slots@[j]).unwrap()@
                        == self.slots@[j].unwrap()@.settled(),
            decreases self.slots.len() - i,
        {
            let slot = match &self.slots[i] {
                Some(entry) => Some(entry.settled()),
                None => None,
            };
            slots.push(slot);
            i += 1;
        }
        let r = StoreSnapshot { slots };
        assert(r@ =~= settled_entries(self@.entries));
        r
    }

    /// A snapshot of the tables as they are, for work that goes on while the store
    /// is edited further: nothing that happens to the store later shows in it.
    pub fn take_store_snapshot(&self) -> (r: Arc<StoreSnapshot>)
        ensures
            (*r)@ == settled_entries(self@.entries),
    {
        Arc::new(self.capture())
    }

    /// Puts the tables of `snapshot` in the place of the store's own and files their
    /// strokes in a fresh spatial index. With `settle`, strokes that are busy in the
    /// snapshot come in dirty.
    fn install(&mut self, snapshot: &StoreSnapshot, settle: bool)
        requires
            old(self).slots@.len() <= u32::MAX,
            snapshot.slots@.len() <= u32::MAX,
        ensures
            final(self).key_tree.wf(),
            final(self).indexed(),
            final(self).slots@.len() == (if snapshot.slots@.len() > old(self).slots@.len() {
                snapshot.slots@.len()
            } else {
                old(self).slots@.len()
            }),
            table_of(final(self).slots@) == (if settle {
                settled_entries(snapshot@)
            } else {
                snapshot@
            }),
            final(self).chrono_counter == old(self).chrono_counter,
            final(self).history == old(self).history,
            final(self).future == old(self).future,
    {
        let len = if snapshot.slots.len() > self.slots.len() {
            snapshot.slots.len()
        } else {
            self.slots.len()
        };
        let mut slots: Vec<Option<StrokeEntry>> = Vec::new();
        let mut key_tree = KeyTree::new();
        let mut i: usize = 0;
        while i < len
            invariant
                i <= len,
                len <= u32::MAX,
                snapshot.slots@.len() <= len,
                slots@.len() == i,
                key_tree.wf(),
                forall|j: int|
                    0 <= j < i ==> (#[trigger] slots@[j]).is_some() == (j < snapshot.slots@.len()
                        && snapshot.slots@[j].is_some()),
                forall|j: int|
                    0 <= j < i && (#[trigger] slots@[j]).is_some() ==> slots@[j].unwrap()@ == (
                    if settle {
                        snapshot.slots@[j].unwrap()@.settled()
                    } else {
                        snapshot.slots@[j].unwrap()@
                    }),
                forall|k: StrokeKey|
                    key_tree@.dom().contains(k) <==> #[trigger] table_of(slots@).dom().contains(k),
                forall|k: StrokeKey| #[trigger]
                    key_tree@.dom().contains(k) ==> key_tree@[k] == table_of(
                        slots@,
                    )[k].stroke.bounds,
            decreases len - i,
        {
            let ghost slots_before = slots@;
            let ghost tree_before = key_tree@;
            if i < snapshot.slots.len() {
                match &snapshot.slots[i] {
                    Some(entry) => {
                        let copy = if settle {
                            entry.settled()
                        } else {
                            entry.duplicate()
                        };
                        key_tree.insert(StrokeKey { index: i }, copy.stroke.bounds());
                        slots.push(Some(copy));
                    },
                    None => {
                        slots.push(None);
                    },
                }
            } else {
                slots.push(None);
            }
            proof {
                let key = StrokeKey { index: i };
                assert(slots@.len() == i + 1);
                assert(forall|j: int| 0 <= j < i ==> slots@[j] == slots_before[j]);
                assert forall|k: StrokeKey|
                    key_tree@.dom().contains(k) <==> #[trigger] table_of(slots@).dom().contains(
                        k,
                    ) by {
                    if k.index != i {
                        assert(tree_before.dom().contains(k) <==> table_of(
                            slots_before,
                        ).dom().contains(k));
                        if k.index < i {
                            assert(slots@[k.index as int] == slots_before[k.index as int]);
                        }
                    } else {
                        assert(k == key);
                        assert(!table_of(slots_before).dom().contains(key));
                        assert(!tree_before.dom().contains(key));
                        assert(slots@[i as int].is_some() == key_tree@.dom().contains(key));
                        assert(table_of(slots@).dom().contains(key) == slots@[i as int].is_some());
                    }
                }
                assert forall|k: StrokeKey| #[trigger]
                    key_tree@.dom().contains(k) implies key_tree@[k] == table_of(
                    slots@,
                )[k].stroke.bounds by {
                    if k.index != i {
                        assert(tree_before.dom().contains(k));
                        assert(table_of(slots_before).dom().contains(k));
                        assert(slots@[k.index as int] == slots_before[k.index as int]);
                        assert(table_of(slots@)[k] == table_of(slots_before)[k]);
                        assert(key_tree@[k] == tree_before[k]);
                    } else {
                        assert(k == key);
                        assert(!table_of(slots_before).dom().contains(key));
                        assert(!tree_before.dom().contains(key));
                        assert(slots@[i as int].is_some());
                        assert(table_of(slots@)[key] == slots@[i as int].unwrap()@);
                    }
                }
            }
            i += 1;
        }
        self.slots = slots;
        self.key_tree = key_tree;
        proof {
            if settle {
                assert(table_of(self.slots@) =~= settled_entries(snapshot@));
            } else {
                assert(table_of(self.slots@) =~= snapshot@);
            }
        }
    }

    /// The latest promotion time in `snapshot`.
    fn latest_in(snapshot: &StoreSnapshot) -> (r: u32)
        ensures
            r == snapshot.latest(),
    {
        let mut latest: u32 = 0;
        let mut i: usize = 0;
        while i < snapshot.slots.len()
            invariant
                i <= snapshot.slots.len(),
                latest == latest_of(snapshot.slots@, i as nat),
            decreases snapshot.slots.len() - i,
        {
            match &snapshot.slots[i] {
                Some(entry) => {
                    if entry.chrono.t > latest {
                        latest = entry.chrono.t;
                    }
                },
                None => {},
            }
            i += 1;
        }
        latest
    }

    /// Puts the tables of `snapshot` in the place of the store's own and forgets the
    /// history: the store then holds what the snapshot holds, under the same keys.
    /// Strokes that are busy in the snapshot come in dirty. Returns `false`, and
    /// changes nothing, where the snapshot spans more than `u32::MAX` keys.
    pub fn import_store_snapshot(&mut self, snapshot: &StoreSnapshot) -> (imported: bool)
        requires
            old(self).wf(),
        ensures
            final(self).wf(),
            imported == (snapshot.span() <= u32::MAX),
            imported ==> final(self)@ == old(self)@.import(
                snapshot@,
                snapshot.span(),
                snapshot.latest(),
            ),
            !imported ==> final(self)@ == old(self)@,
    {
        if snapshot.slots.len() > u32::MAX as usize {
            return false;
        }
        let latest = Self::latest_in(snapshot);
        self.history = Vec::new();
        self.future = Vec::new();
        self.install(snapshot, true);
        if latest > self.chrono_counter {
            self.chrono_counter = latest;
        }
        if self.slots.len() > self.chrono_counter as usize {
            self.chrono_counter = self.slots.len() as u32;
        }
        proof {
            let after = self@;
            assert(after.undo_stack =~= Seq::empty());
            assert(after.redo_stack =~= Seq::empty());
            assert(entries_valid(after.entries, after.issued, after.chrono_counter)) by {
                assert forall|k: StrokeKey| #[trigger] after.entries.dom().contains(k) implies
                    k.ordinal()
                    < after.issued && after.entries[k].chrono.t <= after.chrono_counter by {
                    assert(snapshot@.dom().contains(k));
                    snapshot.lemma_span_and_latest(k);
                }
            }
        }
        true
    }

    /// Records the tables as they are as the latest point to undo to. What was
    /// undone before can no longer be redone.
    pub fn record(&mut self) -> (flags: WidgetFlags)
        requires
            old(self).wf(),
        ensures
            final(self).wf(),
            final(self)@ == old(self)@.record(),
            flags == (WidgetFlags { refresh_ui: true, ..WidgetFlags::none() }),
    {
        let snapshot = Arc::new(self.capture());
        self.history.push(snapshot);
        self.future = Vec::new();
        proof {
            let before = old(self)@;
            let after = self@;
            lemma_settled_valid(before.entries, before.issued, before.chrono_counter);
            assert(after.undo_stack =~= before.undo_stack.push(settled_entries(before.entries)));
            assert(after.redo_stack =~= Seq::empty());
            assert(self.snapshots_fit()) by {
                assert forall|i: int| 0 <= i < self.history@.len() implies
                    (#[trigger] self.history@[i]).slots@.len() <= self.slots@.len() by {
                    if i < old(self).history@.len() {
                        assert(self.history@[i] == old(self).history@[i]);
                    }
                }
            }
        }
        let mut flags = WidgetFlags::default();
        flags.refresh_ui = true;
        flags
    }

    /// Goes back to the tables that were recorded last. Where nothing was recorded,
    /// nothing happens and no flag is set.
    pub fn undo(&mut self) -> (flags: WidgetFlags)
        requires
            old(self).wf(),
        ensures
            final(self).wf(),
            final(self)@ == old(self)@.undo(),
            flags == (if old(self)@.undo_stack.len() == 0 {
                WidgetFlags::none()
            } else {
                restored_flags()
            }),
    {
        let target = match self.history.pop() {
            Some(target) => target,
            None => {
                assert(stack_view(self.history@).len() == 0);
                return WidgetFlags::default();
            },
        };
        let current = Arc::new(self.capture());
        self.future.push(current);
        proof {
            assert(old(self).history@.last() == target);
            assert(target.slots@.len() <= self.slots@.len());
        }
        self.install(&target, false);
        proof {
            let before = old(self)@;
            let after = self@;
            lemma_settled_valid(before.entries, before.issued, before.chrono_counter);
            assert(after.entries == before.undo_stack.last());
            assert(after.undo_stack =~= before.undo_stack.drop_last());
            assert(after.redo_stack =~= before.redo_stack.push(settled_entries(before.entries)));
            assert(entries_valid(before.undo_stack[before.undo_stack.len() - 1], before.issued,
                before.chrono_counter));
            assert(self.snapshots_fit()) by {
                assert forall|i: int| 0 <= i < self.history@.len() implies
                    (#[trigger] self.history@[i]).slots@.len() <= self.slots@.len() by {
                    assert(self.history@[i] == old(self).history@[i]);
                }
                assert forall|i: int| 0 <= i < self.future@.len() implies
                    (#[trigger] self.future@[i]).slots@.len() <= self.slots@.len() by {
                    if i < old(self).future@.len() {
                        assert(self.future@[i] == old(self).future@[i]);
                    }
                }
            }
        }
        WidgetFlags {
            quit: false,
            redraw: true,
            resize: true,
            refresh_ui: true,
            indicate_changed_store: true,
        }
    }

    /// Goes forward again to the tables that the last undo left. Where nothing was
    /// undone, nothing happens and no flag is set.
    pub fn redo(&mut self) -> (flags: WidgetFlags)
        requires
            old(self).wf(),
        ensures
            final(self).wf(),
            final(self)@ == old(self)@.redo(),
            flags == (if old(self)@.redo_stack.len() == 0 {
                WidgetFlags::none()
            } else {
                restored_flags()
            }),
    {
        let target = match self.future.pop() {
            Some(target) => target,
            None => {
                assert(stack_view(self.future@).len() == 0);
                return WidgetFlags::default();
            },
        };
        let current = Arc::new(self.capture());
        self.history.push(current);
        proof {
            assert(old(self).future@.last() == target);
            assert(target.slots@.len() <= self.slots@.len());
        }
        self.install(&target, false);
        proof {
            let before = old(self)@;
            let after = self@;
            lemma_settled_valid(before.entries, before.issued, before.chrono_counter);
            assert(after.entries == before.redo_stack.last());
            assert(after.redo_stack =~= before.redo_stack.drop_last());
            assert(after.undo_stack =~= before.undo_stack.push(settled_entries(before.entries)));
            assert(entries_valid(before.redo_stack[before.redo_stack.len() - 1], before.issued,
                before.chrono_counter));
            assert(self.snapshots_fit()) by {
                assert forall|i: int| 0 <= i < self.future@.len() implies
                    (#[trigger] self.future@[i]).slots@.len() <= self.slots@.len() by {
                    assert(self.future@[i] == old(self).future@[i]);
                }
                assert forall|i: int| 0 <= i < self.history@.len() implies
                    (#[trigger] self.history@[i]).slots@.len() <= self.slots@.len() by {
                    if i < old(self).history@.len() {
                        assert(self.history@[i] == old(self).history@[i]);
                    }
                }
            }
        }
        WidgetFlags {
            quit: false,
            redraw: true,
            resize: true,
            refresh_ui: true,
            indicate_changed_store: true,
        }
    }

    /// Removes every stroke and forgets the history.
    pub fn clear(&mut self)
        requires
            old(self).wf(),
        ensures
            final(self).wf(),
            final(self)@ == old(self)@.clear(),
    {
        let empty = StoreSnapshot { slots: Vec::new() };
        assert(empty@ =~= Map::empty());
        self.history = Vec::new();
        self.future = Vec::new();
        self.install(&empty, false);
        proof {
            assert(self@.undo_stack =~= Seq::empty());
            assert(self@.redo_stack =~= Seq::empty());
        }
    }
}

} // verus!
