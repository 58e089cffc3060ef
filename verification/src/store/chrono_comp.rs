//! Layers, promotion times and the paint order that they give.

use std::cmp::Ordering;

use rayon::slice::ParallelSliceMut;
use vstd::prelude::*;
use vstd::relations::{sorted_by, total_ordering};

use crate::geometry::Aabb;

use super::{lemma_ordinal_injective, StoreView, StrokeEntry, StrokeEntryView, StrokeKey,
    StrokeStore};

verus! {

/// The layer of a stroke. Lower layers are painted first:
/// `Document < Image < Highlighter < UserLayer(0) < UserLayer(1) < ..`.
#[derive(Debug, Clone, Copy, PartialEq, Eq, Structural, Ord)]
pub enum StrokeLayer {
    Document,
    Image,
    Highlighter,
    UserLayer(u32),
}

impl StrokeLayer {
    /// The place of the layer from the bottom.
    pub open spec fn rank(self) -> int {
        match self {
            StrokeLayer::Document => 0,
            StrokeLayer::Image => 1,
            StrokeLayer::Highlighter => 2,
            StrokeLayer::UserLayer(n) => 3 + n,
        }
    }

    /// How two layers stand to each other, by [`StrokeLayer::rank`].
    pub open spec fn order_spec(self, other: StrokeLayer) -> Ordering {
        if self.rank() < other.rank() {
            Ordering::Less
        } else if self.rank() == other.rank() {
            Ordering::Equal
        } else {
            Ordering::Greater
        }
    }

    /// How two layers stand to each other, bottom layer first.
    pub fn order(&self, other: &StrokeLayer) -> (r: Ordering)
        ensures
            r == self.order_spec(*other),
    {
        match (self, other) {
            (StrokeLayer::UserLayer(this_ul), StrokeLayer::UserLayer(other_ul)) => {
                if *this_ul < *other_ul {
                    Ordering::Less
                } else if *this_ul == *other_ul {
                    Ordering::Equal
                } else {
                    Ordering::Greater
                }
            },
            (StrokeLayer::UserLayer(_), _) => Ordering::Greater,
            (StrokeLayer::Highlighter, StrokeLayer::UserLayer(_)) => Ordering::Less,
            (StrokeLayer::Highlighter, StrokeLayer::Highlighter) => Ordering::Equal,
            (StrokeLayer::Highlighter, _) => Ordering::Greater,
            (StrokeLayer::Image, StrokeLayer::UserLayer(_) | StrokeLayer::Highlighter) => {
                Ordering::Less
            },
            (StrokeLayer::Image, StrokeLayer::Image) => Ordering::Equal,
            (StrokeLayer::Image, StrokeLayer::Document) => Ordering::Greater,
            (StrokeLayer::Document, StrokeLayer::Document) => Ordering::Equal,
            (StrokeLayer::Document, _) => Ordering::Less,
        }
    }
}

impl Default for StrokeLayer {
    fn default() -> (r: Self)
        ensures
            r == StrokeLayer::UserLayer(0),
    {
        StrokeLayer::UserLayer(0)
    }
}

impl PartialOrd for StrokeLayer {
    fn partial_cmp(&self, other: &Self) -> (r: Option<Ordering>) {
        Some(self.order(other))
    }
}

impl vstd::std_specs::cmp::PartialOrdSpecImpl for StrokeLayer {
    open spec fn obeys_partial_cmp_spec() -> bool {
        true
    }

    open spec fn partial_cmp_spec(&self, other: &Self) -> Option<Ordering> {
        Some(self.order_spec(*other))
    }
}

/// Two layers of one rank are one layer.
pub proof fn lemma_rank_injective(a: StrokeLayer, b: StrokeLayer)
    requires
        a.rank() == b.rank(),
    ensures
        a == b,
{
}

/// Where a stroke stands in the paint order: its layer, and within the layer the
/// time `t` at which it was last brought to the front.
#[derive(Debug, Clone, Copy, PartialEq, Eq, Structural, PartialOrd, Ord)]
pub struct ChronoComponent {
    pub t: u32,
    pub layer: StrokeLayer,
}

impl Default for ChronoComponent {
    fn default() -> (r: Self)
        ensures
            r == (ChronoComponent { t: 0, layer: StrokeLayer::UserLayer(0) }),
    {
        Self { t: 0, layer: StrokeLayer::default() }
    }
}

impl ChronoComponent {
    /// The component with the given promotion time and layer.
    pub fn new(t: u32, layer: StrokeLayer) -> (r: Self)
        ensures
            r == (ChronoComponent { t, layer }),
    {
        Self { t, layer }
    }
}

/// A key with what places it in the paint order.
#[derive(Debug, Clone, Copy, PartialEq, Eq, Structural)]
pub struct ChronoRank {
    pub layer: StrokeLayer,
    pub t: u32,
    pub key: StrokeKey,
}

impl ChronoRank {
    /// `self` is painted before `other`: it lies on a lower layer; or on the same
    /// layer and was brought to the front earlier; or, where even the times agree,
    /// it has the older key.
    pub open spec fn before(self, other: ChronoRank) -> bool {
        ||| self.layer.rank() < other.layer.rank()
        ||| self.layer.rank() == other.layer.rank() && self.t < other.t
        ||| self.layer.rank() == other.layer.rank() && self.t == other.t && self.key.ordinal()
            < other.key.ordinal()
    }

    /// `self` is painted before `other` or is `other`.
    pub open spec fn before_or_same(self, other: ChronoRank) -> bool {
        self.before(other) || self == other
    }

    /// How two ranks stand to each other in the paint order.
    pub fn order(&self, other: &ChronoRank) -> (r: Ordering)
        ensures
            (r == Ordering::Less) == self.before(*other),
            (r == Ordering::Greater) == other.before(*self),
            (r == Ordering::Equal) == (*self == *other),
    {
        let layer_order = self.layer.order(&other.layer);
        proof {
            if self.layer.rank() == other.layer.rank() {
                lemma_rank_injective(self.layer, other.layer);
            }
        }
        match layer_order {
            Ordering::Less => Ordering::Less,
            Ordering::Greater => Ordering::Greater,
            Ordering::Equal => {
                if self.t < other.t {
                    Ordering::Less
                } else if self.t > other.t {
                    Ordering::Greater
                } else if self.key.index < other.key.index {
                    Ordering::Less
                } else if self.key.index > other.key.index {
                    Ordering::Greater
                } else {
                    Ordering::Equal
                }
            },
        }
    }
}

/// The paint order as a relation on ranks.
pub open spec fn paint_order() -> spec_fn(ChronoRank, ChronoRank) -> bool {
    |a: ChronoRank, b: ChronoRank| a.before_or_same(b)
}

/// The paint order is a total order: any two ranks are comparable, and two
/// different ranks are never each before the other.
pub proof fn lemma_paint_order_total()
    ensures
        total_ordering(paint_order()),
{
    let r = paint_order();
    assert forall|a: ChronoRank, b: ChronoRank| #[trigger] r(a, b) || #[trigger] r(b, a) by {
        if a.layer.rank() == b.layer.rank() {
            lemma_rank_injective(a.layer, b.layer);
        }
        if a.key.ordinal() == b.key.ordinal() {
            lemma_ordinal_injective(a.key, b.key);
        }
    }
    assert forall|a: ChronoRank, b: ChronoRank| #[trigger] r(a, b) && #[trigger] r(b, a) implies a
        == b by {}
    assert forall|a: ChronoRank, b: ChronoRank, c: ChronoRank| #[trigger]
        r(a, b) && #[trigger] r(b, c) implies r(a, c) by {}
}

/// Sorts `ranks` into the paint order with rayon's `par_sort_unstable_by`, comparing
/// two ranks with [`ChronoRank::order`]. That comparison is a total order in which only
/// identical ranks compare equal, so the outcome is the one arrangement of the same
/// ranks, each as often as before, in which none stands before an earlier one.
#[verifier::external_body]
fn par_sort_ranks(ranks: &mut Vec<ChronoRank>)
    ensures
        final(ranks)@.to_multiset() == old(ranks)@.to_multiset(),
        sorted_by(final(ranks)@, paint_order()),
{
    ranks.par_sort_unstable_by(|first, second| first.order(second));
}

impl StoreView {
    /// What places `key` in the paint order.
    pub open spec fn rank(self, key: StrokeKey) -> ChronoRank {
        ChronoRank { layer: self.entries[key].chrono.layer, t: self.entries[key].chrono.t, key }
    }

    /// Each key of `keys` is painted before all that follow it. No key occurs twice then.
    pub open spec fn in_paint_order(self, keys: Seq<StrokeKey>) -> bool {
        forall|i: int, j: int|
            0 <= i < j < keys.len() ==> #[trigger] self.rank(keys[i]).before(
                #[trigger] self.rank(keys[j]),
            )
    }

    /// The store after `key` was brought to the front of its layer; unchanged for a
    /// stale key.
    pub open spec fn promote(self, key: StrokeKey) -> StoreView {
        if self.entries.dom().contains(key) {
            StoreView {
                entries: self.entries.insert(
                    key,
                    StrokeEntryView {
                        chrono: ChronoComponent {
                            t: (self.chrono_counter + 1) as u32,
                            layer: self.entries[key].chrono.layer,
                        },
                        ..self.entries[key]
                    },
                ),
                chrono_counter: (self.chrono_counter + 1) as u32,
                ..self
            }
        } else {
            self
        }
    }
}

/// The ranks of `keys` in the store `view`, key by key.
pub open spec fn ranks_of(view: StoreView, keys: Seq<StrokeKey>) -> Seq<ChronoRank> {
    keys.map_values(|k: StrokeKey| view.rank(k))
}

/// Sorted ranks of distinct keys give the keys in paint order: each once, and the
/// same keys as before.
proof fn lemma_sorted_ranks(view: StoreView, keys: Seq<StrokeKey>, sorted: Seq<ChronoRank>)
    requires
        keys.no_duplicates(),
        sorted.to_multiset() == ranks_of(view, keys).to_multiset(),
        sorted_by(sorted, paint_order()),
    ensures
        sorted.map_values(|r: ChronoRank| r.key).no_duplicates(),
        forall|k: StrokeKey|
            sorted.map_values(|r: ChronoRank| r.key).contains(k) <==> keys.contains(k),
        view.in_paint_order(sorted.map_values(|r: ChronoRank| r.key)),
{
    broadcast use vstd::seq_lib::group_to_multiset_ensures;

    let ranks = ranks_of(view, keys);
    let out = sorted.map_values(|r: ChronoRank| r.key);
    assert(ranks.no_duplicates()) by {
        assert forall|i: int, j: int| 0 <= i < ranks.len() && 0 <= j < ranks.len()
            && i != j implies ranks[i] != ranks[j] by {
            assert(ranks[i].key == keys[i]);
            assert(ranks[j].key == keys[j]);
        }
    }
    ranks.lemma_multiset_has_no_duplicates();
    sorted.lemma_multiset_has_no_duplicates_conv();
    // every sorted rank is the rank of its own key, and that key is one of `keys`
    assert forall|i: int| 0 <= i < sorted.len() implies sorted[i] == view.rank(
        #[trigger] sorted[i].key,
    ) && keys.contains(sorted[i].key) by {
        assert(sorted.contains(sorted[i]));
        assert(sorted.to_multiset().count(sorted[i]) > 0);
        assert(ranks.contains(sorted[i]));
        let j = choose|j: int| 0 <= j < ranks.len() && ranks[j] == sorted[i];
        assert(ranks[j].key == keys[j]);
    }
    assert forall|i: int, j: int| 0 <= i < out.len() && 0 <= j < out.len() && i != j implies
        out[i] != out[j] by {
        assert(sorted[i] == view.rank(sorted[i].key));
        assert(sorted[j] == view.rank(sorted[j].key));
    }
    assert forall|k: StrokeKey| out.contains(k) <==> keys.contains(k) by {
        if out.contains(k) {
            let i = choose|i: int| 0 <= i < out.len() && out[i] == k;
            assert(keys.contains(sorted[i].key));
        }
        if keys.contains(k) {
            let j = choose|j: int| 0 <= j < keys.len() && keys[j] == k;
            assert(ranks[j] == view.rank(k));
            assert(ranks.contains(view.rank(k)));
            assert(ranks.to_multiset().count(view.rank(k)) > 0);
            assert(sorted.contains(view.rank(k)));
            let i = choose|i: int| 0 <= i < sorted.len() && sorted[i] == view.rank(k);
            assert(out[i] == k);
        }
    }
    assert forall|i: int, j: int| 0 <= i < j < out.len() implies
        #[trigger] view.rank(out[i]).before(
        #[trigger] view.rank(out[j]),
    ) by {
        assert(sorted[i] == view.rank(sorted[i].key));
        assert(sorted[j] == view.rank(sorted[j].key));
        assert(paint_order()(sorted[i], sorted[j]));
        assert(out[i] != out[j]);
    }
}

/// In a sequence in paint order the layers come bottom to top: a key of the
/// document layer stands before every key of the image layer, that before every
/// key of the highlighter layer, and that before every key of a user layer. Two
/// keys of user layers stand by layer number, and on one layer by promotion time.
pub proof fn lemma_paint_order_by_layer(view: StoreView, keys: Seq<StrokeKey>, i: int, j: int)
    requires
        view.in_paint_order(keys),
        0 <= i < keys.len(),
        0 <= j < keys.len(),
    ensures
        ({
            let a = view.entries[keys[i]].chrono;
            let b = view.entries[keys[j]].chrono;
            &&& a.layer is Document && b.layer is Image ==> i < j
            &&& a.layer is Image && b.layer is Highlighter ==> i < j
            &&& a.layer is Highlighter && b.layer is UserLayer ==> i < j
            &&& a.layer is Document && !(b.layer is Document) ==> i < j
            &&& !(a.layer is UserLayer) && b.layer is UserLayer ==> i < j
            &&& a.layer.rank() < b.layer.rank() ==> i < j
            &&& (a.layer matches StrokeLayer::UserLayer(m)
                && b.layer matches StrokeLayer::UserLayer(
                n,
            ) && m < n) ==> i < j
            &&& a.layer == b.layer && a.t < b.t ==> i < j
        }),
{
    let a = view.rank(keys[i]);
    let b = view.rank(keys[j]);
    if j < i {
        assert(view.rank(keys[j]).before(view.rank(keys[i])));
        assert(b.before(a));
        assert(b.layer.rank() <= a.layer.rank());
    }
}

/// Two sequences in paint order that hold the same keys are the same sequence:
/// the paint order of a set of keys is unique.
pub proof fn lemma_paint_order_unique(view: StoreView, first: Seq<StrokeKey>,
    second: Seq<StrokeKey>)
    requires
        view.in_paint_order(first),
        view.in_paint_order(second),
        forall|k: StrokeKey| first.contains(k) <==> second.contains(k),
    ensures
        first == second,
    decreases first.len(),
{
    assert(first.no_duplicates()) by {
        assert forall|i: int, j: int| 0 <= i < first.len() && 0 <= j < first.len()
            && i != j implies first[i] != first[j] by {
            if i < j {
                assert(view.rank(first[i]).before(view.rank(first[j])));
            } else {
                assert(view.rank(first[j]).before(view.rank(first[i])));
            }
        }
    }
    assert(second.no_duplicates()) by {
        assert forall|i: int, j: int| 0 <= i < second.len() && 0 <= j < second.len()
            && i != j implies second[i] != second[j] by {
            if i < j {
                assert(view.rank(second[i]).before(view.rank(second[j])));
            } else {
                assert(view.rank(second[j]).before(view.rank(second[i])));
            }
        }
    }
    if first.len() == 0 {
        if second.len() > 0 {
            assert(second.contains(second[0]));
            assert(first.contains(second[0]));
        }
        assert(first =~= second);
    } else if second.len() == 0 {
        assert(first.contains(first[0]));
        assert(second.contains(first[0]));
    } else {
        // the last key of each is the one that no other key of the set is painted after
        let a = first.last();
        let b = second.last();
        assert(first.contains(a));
        assert(second.contains(b));
        let ia = choose|i: int| 0 <= i < second.len() && second[i] == a;
        let ib = choose|i: int| 0 <= i < first.len() && first[i] == b;
        if a != b {
            assert(view.rank(second[ia]).before(view.rank(second[second.len() - 1])));
            assert(view.rank(first[ib]).before(view.rank(first[first.len() - 1])));
        }
        let f = first.drop_last();
        let s = second.drop_last();
        assert forall|k: StrokeKey| f.contains(k) <==> s.contains(k) by {
            if f.contains(k) {
                let i = choose|i: int| 0 <= i < f.len() && f[i] == k;
                assert(first[i] == k);
                assert(first.contains(k));
                let m = choose|m: int| 0 <= m < second.len() && second[m] == k;
                assert(k != a);
                assert(s[m] == k);
            }
            if s.contains(k) {
                let i = choose|i: int| 0 <= i < s.len() && s[i] == k;
                assert(second[i] == k);
                assert(second.contains(k));
                let m = choose|m: int| 0 <= m < first.len() && first[m] == k;
                assert(k != b);
                assert(f[m] == k);
            }
        }
        assert(view.in_paint_order(f)) by {
            assert forall|i: int, j: int| 0 <= i < j < f.len() implies
                #[trigger] view.rank(f[i]).before(#[trigger] view.rank(f[j])) by {
                assert(view.rank(first[i]).before(view.rank(first[j])));
            }
        }
        assert(view.in_paint_order(s)) by {
            assert forall|i: int, j: int| 0 <= i < j < s.len() implies
                #[trigger] view.rank(s[i]).before(#[trigger] view.rank(s[j])) by {
                assert(view.rank(second[i]).before(view.rank(second[j])));
            }
        }
        lemma_paint_order_unique(view, f, s);
        assert(first =~= f.push(a));
        assert(second =~= s.push(b));
    }
}

/// What is left of a sequence in paint order when some keys are taken out is in
/// paint order, and holds the keys that were not taken out.
pub proof fn lemma_filter_keeps_paint_order(
    view: StoreView,
    keys: Seq<StrokeKey>,
    keep: spec_fn(StrokeKey) -> bool,
)
    requires
        view.in_paint_order(keys),
    ensures
        view.in_paint_order(keys.filter(keep)),
        forall|k: StrokeKey|
            #![trigger keys.filter(keep).contains(k)]
            #![trigger keys.contains(k)]
            keys.filter(keep).contains(k) <==> keys.contains(k) && keep(k),
    decreases keys.len(),
{
    reveal(Seq::filter);
    if keys.len() > 0 {
        let front = keys.drop_last();
        let last = keys.last();
        assert(view.in_paint_order(front)) by {
            assert forall|i: int, j: int| 0 <= i < j < front.len() implies #[trigger] view.rank(
                front[i],
            ).before(#[trigger] view.rank(front[j])) by {
                assert(view.rank(keys[i]).before(view.rank(keys[j])));
            }
        }
        lemma_filter_keeps_paint_order(view, front, keep);
        let kept = front.filter(keep);
        let all = keys.filter(keep);
        assert forall|k: StrokeKey| all.contains(k) <==> keys.contains(k) && keep(k) by {
            if all.contains(k) {
                let i = choose|i: int| 0 <= i < all.len() && all[i] == k;
                if i < kept.len() {
                    assert(kept[i] == k);
                    assert(kept.contains(k));
                    let m = choose|m: int| 0 <= m < front.len() && front[m] == k;
                    assert(keys[m] == k);
                } else {
                    assert(keys[keys.len() - 1] == k);
                }
            }
            if keys.contains(k) && keep(k) {
                let m = choose|m: int| 0 <= m < keys.len() && keys[m] == k;
                if m < front.len() {
                    assert(front[m] == k);
                    assert(front.contains(k));
                    assert(kept.contains(k));
                    let i = choose|i: int| 0 <= i < kept.len() && kept[i] == k;
                    assert(all[i] == k);
                } else {
                    assert(all[kept.len() as int] == k);
                }
            }
        }
        assert forall|i: int, j: int| 0 <= i < j < all.len() implies #[trigger] view.rank(
            all[i],
        ).before(#[trigger] view.rank(all[j])) by {
            if j < kept.len() {
                assert(view.rank(kept[i]).before(view.rank(kept[j])));
            } else {
                assert(kept[i] == all[i]);
                assert(kept.contains(kept[i]));
                let m = choose|m: int| 0 <= m < front.len() && front[m] == kept[i];
                assert(view.rank(keys[m]).before(view.rank(keys[keys.len() - 1])));
            }
        }
    }
}

/// The order of a query over a viewport agrees with the order of all keys: the
/// keys that meet `bounds`, in paint order, are the keys of the whole document in
/// paint order with those left out that do not meet `bounds`.
pub proof fn lemma_viewport_order_consistent(
    view: StoreView,
    all: Seq<StrokeKey>,
    hits: Seq<StrokeKey>,
    bounds: Aabb,
)
    requires
        view.in_paint_order(all),
        view.in_paint_order(hits),
        forall|k: StrokeKey| all.contains(k) <==> view.entries.dom().contains(k),
        forall|k: StrokeKey|
            hits.contains(k) <==> view.entries.dom().contains(k)
                && view.entries[k].stroke.bounds.intersects_spec(bounds),
    ensures
        hits == all.filter(|k: StrokeKey| view.entries[k].stroke.bounds.intersects_spec(bounds)),
{
    let keep = |k: StrokeKey| view.entries[k].stroke.bounds.intersects_spec(bounds);
    lemma_filter_keeps_paint_order(view, all, keep);
    assert forall|k: StrokeKey| hits.contains(k) <==> all.filter(keep).contains(k) by {
        assert(all.filter(keep).contains(k) <==> all.contains(k) && keep(k));
    }
    lemma_paint_order_unique(view, hits, all.filter(keep));
}

/// Bringing a live key to the front gives it a later promotion time than it had
/// and than any key has, so that it is painted after every other key of its layer.
/// No other key changes its place: two keys that were not promoted stand to each
/// other as before.
pub proof fn lemma_promote_to_front(view: StoreView, key: StrokeKey, other: StrokeKey,
    third: StrokeKey)
    requires
        view.valid(),
        view.chrono_counter < u32::MAX,
        view.entries.dom().contains(key),
        view.entries.dom().contains(other),
        view.entries.dom().contains(third),
        other != key,
        third != key,
    ensures
        view.promote(key).entries[key].chrono.t > view.entries[key].chrono.t,
        view.promote(key).entries[key].chrono.layer == view.entries[key].chrono.layer,
        view.promote(key).entries[key].chrono.t > view.entries[other].chrono.t,
        view.entries[other].chrono.layer == view.entries[key].chrono.layer ==> view.promote(
            key,
        ).rank(other).before(view.promote(key).rank(key)),
        view.promote(key).rank(other) == view.rank(other),
        view.promote(key).rank(other).before(view.promote(key).rank(third)) == view.rank(
            other,
        ).before(view.rank(third)),
        view.promote(key).entries.dom() == view.entries.dom(),
{
    assert(view.promote(key).entries.dom() =~= view.entries.dom());
}

/// Systems that are related to the chronological ordering.
impl StrokeStore {
    /// Brings `key` to the front of its layer: it gets the next promotion time.
    /// A stale key changes nothing. For a live key the counter of promotion times
    /// must not be at its end.
    pub fn update_chrono_to_last(&mut self, key: StrokeKey)
        requires
            old(self).wf(),
            old(self)@.entries.dom().contains(key) ==> old(self)@.chrono_counter < u32::MAX,
        ensures
            final(self).wf(),
            final(self)@ == old(self)@.promote(key),
    {
        let entry = match self.entry(key) {
            Some(entry) => entry.duplicate(),
            None => { return ; },
        };
        self.bump_chrono_counter();
        let chrono = ChronoComponent::new(self.chrono_counter, entry.chrono.layer);
        self.put_entry(key, StrokeEntry { chrono, ..entry });
    }

    /// The given keys in paint order, the first painted first.
    pub(crate) fn sort_chrono(&self, keys: &Vec<StrokeKey>) -> (r: Vec<StrokeKey>)
        requires
            self.wf(),
            keys@.no_duplicates(),
            forall|i: int| 0 <= i < keys@.len() ==> self@.entries.dom().contains(keys@[i]),
        ensures
            r@.no_duplicates(),
            forall|k: StrokeKey| r@.contains(k) <==> keys@.contains(k),
            self@.in_paint_order(r@),
    {
        let mut ranks: Vec<ChronoRank> = Vec::new();
        let mut i: usize = 0;
        while i < keys.len()
            invariant
                i <= keys.len(),
                forall|i: int| 0 <= i < keys@.len() ==> self@.entries.dom().contains(keys@[i]),
                ranks@ == ranks_of(self@, keys@.take(i as int)),
            decreases keys.len() - i,
        {
            let key = keys[i];
            match self.entry(key) {
                Some(entry) => {
                    ranks.push(ChronoRank { layer: entry.chrono.layer, t: entry.chrono.t, key });
                },
                None => {},
            }
            proof {
                assert(keys@.take(i + 1) =~= keys@.take(i as int).push(key));
                assert(ranks@ =~= ranks_of(self@, keys@.take(i + 1)));
            }
            i += 1;
        }
        assert(keys@.take(keys@.len() as int) =~= keys@);
        par_sort_ranks(&mut ranks);
        let mut out: Vec<StrokeKey> = Vec::new();
        let mut j: usize = 0;
        while j < ranks.len()
            invariant
                j <= ranks.len(),
                out@ == ranks@.take(j as int).map_values(|r: ChronoRank| r.key),
            decreases ranks.len() - j,
        {
            out.push(ranks[j].key);
            proof {
                assert(ranks@.take(j + 1) =~= ranks@.take(j as int).push(ranks@[j as int]));
                assert(out@ =~= ranks@.take(j + 1).map_values(|r: ChronoRank| r.key));
            }
            j += 1;
        }
        proof {
            assert(ranks@.take(ranks@.len() as int) =~= ranks@);
            lemma_sorted_ranks(self@, keys@, ranks@);
        }
        out
    }

    /// Every key, in no particular order.
    pub fn keys_unordered(&self) -> (r: Vec<StrokeKey>)
        ensures
            r@.no_duplicates(),
            forall|k: StrokeKey| r@.contains(k) <==> self@.entries.dom().contains(k),
    {
        let mut out: Vec<StrokeKey> = Vec::new();
        let mut i: usize = 0;
        while i < self.slots.len()
            invariant
                i <= self.slots.len(),
                forall|a: int| 0 <= a < out@.len() ==> (#[trigger] out@[a]).index < i,
                forall|a: int, b: int| 0 <= a < b < out@.len() ==> out@[a] != out@[b],
                forall|k: StrokeKey|
                    out@.contains(k) <==> k.index < i && self@.entries.dom().contains(k),
            decreases self.slots.len() - i,
        {
            if self.slots[i].is_some() {
                let key = StrokeKey { index: i };
                let ghost before = out@;
                out.push(key);
                proof {
                    assert forall|k: StrokeKey|
                        out@.contains(k) <==> k.index < i + 1 && self@.entries.dom().contains(
                            k,
                        ) by {
                        if out@.contains(k) {
                            let a = choose|a: int| 0 <= a < out@.len() && out@[a] == k;
                            if a < before.len() {
                                assert(before[a] == k);
                                assert(before.contains(k));
                            }
                        }
                        if k.index < i + 1 && self@.entries.dom().contains(k) {
                            if k.index < i {
                                assert(before.contains(k));
                                let a = choose|a: int| 0 <= a < before.len() && before[a] == k;
                                assert(out@[a] == k);
                            } else {
                                assert(out@[before.len() as int] == k);
                            }
                        }
                    }
                }
            }
            i += 1;
        }
        out
    }

    /// Returns the keys in chronological order, as in first: gets drawn first,
    /// last: gets drawn last.
    pub fn keys_sorted_chrono(&self) -> (r: Vec<StrokeKey>)
        requires
            self.wf(),
        ensures
            r@.no_duplicates(),
            forall|k: StrokeKey| r@.contains(k) <==> self@.entries.dom().contains(k),
            self@.in_paint_order(r@),
    {
        let keys = self.keys_unordered();
        proof {
            assert forall|i: int| 0 <= i < keys@.len() implies self@.entries.dom().contains(
                keys@[i],
            ) by {
                assert(keys@.contains(keys@[i]));
            }
        }
        self.sort_chrono(&keys)
    }

    /// Every key whose stroke meets `bounds`, in no particular order.
    pub fn keys_unordered_intersecting_bounds(&self, bounds: Aabb) -> (r: Vec<StrokeKey>)
        requires
            self.wf(),
        ensures
            r@.no_duplicates(),
            forall|k: StrokeKey|
                r@.contains(k) <==> self@.entries.dom().contains(k)
                    && self@.entries[k].stroke.bounds.intersects_spec(bounds),
    {
        self.key_tree.keys_intersecting_bounds(bounds)
    }

    /// The keys whose stroke meets `bounds`, in the order of [`Self::keys_sorted_chrono`].
    pub fn keys_sorted_chrono_intersecting_bounds(&self, bounds: Aabb) -> (r: Vec<StrokeKey>)
        requires
            self.wf(),
        ensures
            r@.no_duplicates(),
            forall|k: StrokeKey|
                r@.contains(k) <==> self@.entries.dom().contains(k)
                    && self@.entries[k].stroke.bounds.intersects_spec(bounds),
            self@.in_paint_order(r@),
    {
        let keys = self.keys_unordered_intersecting_bounds(bounds);
        proof {
            assert forall|i: int| 0 <= i < keys@.len() implies self@.entries.dom().contains(
                keys@[i],
            ) by {
                assert(keys@.contains(keys@[i]));
            }
        }
        self.sort_chrono(&keys)
    }
}

} // verus!
