//! The spatial index: a tree of bounding boxes over the keys of the store.

use vstd::prelude::*;

use super::StrokeKey;
use crate::geometry::Aabb;

verus! {

/// The most entries that a leaf of the tree holds before it is split.
pub const LEAF_CAPACITY: usize = 8;

/// A key with the bounds under which the tree files it.
#[derive(Clone, Copy, Debug, PartialEq, Eq, Structural)]
pub struct TreeEntry {
    pub key: StrokeKey,
    pub bounds: Aabb,
}

/// A node covers every entry below it: a query that misses `cover` misses them all.
enum Node {
    Leaf { cover: Aabb, entries: Vec<TreeEntry> },
    Branch { cover: Aabb, left: Box<Node>, right: Box<Node> },
}

/// The keys of the first `n` entries of a leaf that meet `query`, in the leaf's order.
spec fn leaf_hits(entries: Seq<TreeEntry>, query: Aabb, n: nat) -> Seq<StrokeKey>
    decreases n,
{
    if n == 0 {
        Seq::empty()
    } else {
        let before = leaf_hits(entries, query, (n - 1) as nat);
        if entries[n - 1].bounds.intersects_spec(query) {
            before.push(entries[n - 1].key)
        } else {
            before
        }
    }
}

/// Width and height of a box together.
spec fn half_perimeter(bounds: Aabb) -> int {
    (bounds.max_x - bounds.min_x) + (bounds.max_y - bounds.min_y)
}

/// No two entries of a leaf have the same key.
spec fn distinct_keys(entries: Seq<TreeEntry>) -> bool {
    forall|i: int, j: int| 0 <= i < j < entries.len() ==> entries[i].key != entries[j].key
}

proof fn lemma_leaf_hits(entries: Seq<TreeEntry>, query: Aabb, n: nat)
    requires
        n <= entries.len(),
        distinct_keys(entries),
    ensures
        leaf_hits(entries, query, n).no_duplicates(),
        forall|k: StrokeKey| #[trigger]
            leaf_hits(entries, query, n).contains(k) ==> exists|i: int|
                0 <= i < n && entries[i].key == k && entries[i].bounds.intersects_spec(query),
        forall|i: int|
            0 <= i < n && entries[i].bounds.intersects_spec(query) ==> leaf_hits(
                entries,
                query,
                n,
            ).contains(#[trigger] entries[i].key),
    decreases n,
{
    if n > 0 {
        let before = leaf_hits(entries, query, (n - 1) as nat);
        lemma_leaf_hits(entries, query, (n - 1) as nat);
        let last = entries[n - 1];
        if last.bounds.intersects_spec(query) {
            let all = before.push(last.key);
            assert(!before.contains(last.key));
            assert forall|k: StrokeKey| #[trigger] all.contains(k) implies exists|i: int|
                0 <= i < n && entries[i].key == k && entries[i].bounds.intersects_spec(query) by {
                let at = choose|at: int| 0 <= at < all.len() && all[at] == k;
                if at == before.len() {
                    assert(entries[n - 1].key == k);
                } else {
                    assert(before[at] == k);
                    assert(before.contains(k));
                }
            }
            assert forall|i: int|
                0 <= i < n && entries[i].bounds.intersects_spec(query) implies all.contains(
                #[trigger] entries[i].key,
            ) by {
                if i == n - 1 {
                    assert(all[before.len() as int] == entries[i].key);
                } else {
                    let at = choose|at: int|
                        0 <= at < before.len() && before[at] == entries[i].key;
                    assert(all[at] == entries[i].key);
                }
            }
        }
    }
}

impl Node {
    spec fn cover(self) -> Aabb {
        match self {
            Node::Leaf { cover, .. } => cover,
            Node::Branch { cover, .. } => cover,
        }
    }

    /// The node without a child that is an empty leaf: a branch with such a child
    /// is its other child, the right one where both are empty.
    spec fn collapsed(self) -> Node {
        match self {
            Node::Branch { left, right, .. } => {
                if left.leaf_len() == 0 {
                    *right
                } else if right.leaf_len() == 0 {
                    *left
                } else {
                    self
                }
            },
            Node::Leaf { .. } => self,
        }
    }

    /// The number of entries of a leaf; -1 for a branch.
    spec fn leaf_len(self) -> int {
        match self {
            Node::Leaf { entries, .. } => entries@.len() as int,
            Node::Branch { .. } => -1,
        }
    }

    /// The entries below the node.
    spec fn pairs(self) -> Set<TreeEntry>
        decreases self,
    {
        match self {
            Node::Leaf { entries, .. } => entries@.to_set(),
            Node::Branch { left, right, .. } => left.pairs().union(right.pairs()),
        }
    }

    spec fn wf(self) -> bool
        decreases self,
    {
        &&& forall|e: TreeEntry| #[trigger]
            self.pairs().contains(e) ==> self.cover().contains_spec(e.bounds)
        &&& match self {
            Node::Leaf { entries, .. } => {
                &&& entries@.len() <= LEAF_CAPACITY
                &&& distinct_keys(entries@)
            },
            Node::Branch { left, right, .. } => {
                &&& left.wf()
                &&& right.wf()
                &&& forall|a: TreeEntry, b: TreeEntry|
                    #[trigger] left.pairs().contains(a) && #[trigger] right.pairs().contains(b)
                        ==> a.key != b.key
            },
        }
    }

    /// The keys below the node whose bounds meet `query`, left to right.
    spec fn hits(self, query: Aabb) -> Seq<StrokeKey>
        decreases self,
    {
        if !self.cover().intersects_spec(query) {
            Seq::empty()
        } else {
            match self {
                Node::Leaf { entries, .. } => leaf_hits(entries@, query, entries@.len()),
                Node::Branch { left, right, .. } => left.hits(query) + right.hits(query),
            }
        }
    }

    /// `hits` names each entry that meets the query once, and nothing else.
    /// `filed` is any map that agrees with the entries below the node.
    proof fn lemma_hits(self, query: Aabb, filed: Map<StrokeKey, Aabb>)
        requires
            self.wf(),
            forall|e: TreeEntry| #[trigger]
                self.pairs().contains(e) ==> filed.contains_pair(e.key, e.bounds),
        ensures
            self.hits(query).no_duplicates(),
            forall|k: StrokeKey| #[trigger]
                self.hits(query).contains(k) ==> {
                    &&& filed.dom().contains(k)
                    &&& filed[k].intersects_spec(query)
                    &&& self.pairs().contains(TreeEntry { key: k, bounds: filed[k] })
                },
            forall|e: TreeEntry|
                self.pairs().contains(e) && e.bounds.intersects_spec(query) ==> self.hits(
                    query,
                ).contains(#[trigger] e.key),
        decreases self,
    {
        if !self.cover().intersects_spec(query) {
            assert forall|e: TreeEntry|
                self.pairs().contains(e) && e.bounds.intersects_spec(query) implies false by {
                crate::geometry::lemma_intersects_monotone(e.bounds, self.cover(), query);
            }
        } else {
            match self {
                Node::Leaf { entries, .. } => {
                    let s = entries@;
                    lemma_leaf_hits(s, query, s.len());
                    let h = leaf_hits(s, query, s.len());
                    assert forall|k: StrokeKey| #[trigger] h.contains(k) implies {
                        &&& filed.dom().contains(k)
                        &&& filed[k].intersects_spec(query)
                        &&& self.pairs().contains(TreeEntry { key: k, bounds: filed[k] })
                    } by {
                        let i = choose|i: int|
                            0 <= i < s.len() && s[i].key == k && s[i].bounds.intersects_spec(
                                query,
                            );
                        assert(s.to_set().contains(s[i]));
                        assert(self.pairs().contains(s[i]));
                        assert(s[i] == TreeEntry { key: k, bounds: filed[k] });
                    }
                    assert forall|e: TreeEntry|
                        self.pairs().contains(e) && e.bounds.intersects_spec(
                            query,
                        ) implies h.contains(#[trigger] e.key) by {
                        let i = choose|i: int| 0 <= i < s.len() && s[i] == e;
                        assert(h.contains(s[i].key));
                    }
                },
                Node::Branch { left, right, .. } => {
                    assert forall|e: TreeEntry| #[trigger]
                        left.pairs().contains(e) implies filed.contains_pair(e.key, e.bounds) by {
                        assert(self.pairs().contains(e));
                    }
                    assert forall|e: TreeEntry| #[trigger]
                        right.pairs().contains(e) implies filed.contains_pair(e.key, e.bounds) by {
                        assert(self.pairs().contains(e));
                    }
                    left.lemma_hits(query, filed);
                    right.lemma_hits(query, filed);
                    let l = left.hits(query);
                    let r = right.hits(query);
                    assert forall|i: int, j: int|
                        0 <= i < l.len() && 0 <= j < r.len() implies l[i] != r[j] by {
                        assert(l.contains(l[i]));
                        assert(r.contains(r[j]));
                    }
                    vstd::seq_lib::lemma_no_dup_in_concat(l, r);
                    assert forall|k: StrokeKey| #[trigger] (l + r).contains(k) implies {
                        &&& filed.dom().contains(k)
                        &&& filed[k].intersects_spec(query)
                        &&& self.pairs().contains(TreeEntry { key: k, bounds: filed[k] })
                    } by {
                        let at = choose|at: int| 0 <= at < (l + r).len() && (l + r)[at] == k;
                        if at < l.len() {
                            assert(l[at] == k);
                            assert(l.contains(k));
                        } else {
                            assert(r[at - l.len()] == k);
                            assert(r.contains(k));
                        }
                    }
                    assert forall|e: TreeEntry|
                        self.pairs().contains(e) && e.bounds.intersects_spec(
                            query,
                        ) implies (l + r).contains(#[trigger] e.key) by {
                        if left.pairs().contains(e) {
                            let at = choose|at: int| 0 <= at < l.len() && l[at] == e.key;
                            assert((l + r)[at] == e.key);
                        } else {
                            let at = choose|at: int| 0 <= at < r.len() && r[at] == e.key;
                            assert((l + r)[l.len() + at] == e.key);
                        }
                    }
                },
            }
        }
    }

    fn cover_of(&self) -> (r: Aabb)
        ensures
            r == self.cover(),
    {
        match self {
            Node::Leaf { cover, .. } => *cover,
            Node::Branch { cover, .. } => *cover,
        }
    }

    /// A leaf without entries. Its cover is the box at the origin, which counts for
    /// nothing while the leaf is empty.
    fn empty() -> (r: Node)
        ensures
            r.wf(),
            r.pairs() == Set::<TreeEntry>::empty(),
            r.leaf_len() == 0,
            r.cover() == (Aabb { min_x: 0, min_y: 0, max_x: 0, max_y: 0 }),
    {
        let r = Node::Leaf { cover: Aabb { min_x: 0, min_y: 0, max_x: 0, max_y: 0 },
            entries: Vec::new() };
        assert(r.pairs() =~= Set::<TreeEntry>::empty());
        r
    }

    /// How much the half-perimeter of `cover` grows when it is stretched over `bounds`.
    /// Only the choice between two children goes by it.
    fn growth(cover: &Aabb, bounds: &Aabb) -> (r: i128)
        ensures
            r == half_perimeter(cover.merged_spec(*bounds)) - half_perimeter(*cover),
    {
        let m = cover.merged(bounds);
        let stretched: i128 = (m.max_x as i128 - m.min_x as i128) + (m.max_y as i128
            - m.min_y as i128);
        let plain: i128 = (cover.max_x as i128 - cover.min_x as i128) + (cover.max_y as i128
            - cover.min_y as i128);
        stretched - plain
    }

    /// The smallest box around all of `entries`.
    fn cover_all(entries: &Vec<TreeEntry>) -> (r: Aabb)
        requires
            entries@.len() > 0,
        ensures
            forall|i: int| 0 <= i < entries@.len()
                ==> r.contains_spec(#[trigger] entries@[i].bounds),
    {
        let mut r = entries[0].bounds;
        let mut i: usize = 1;
        while i < entries.len()
            invariant
                1 <= i <= entries.len(),
                forall|j: int| 0 <= j < i ==> r.contains_spec(#[trigger] entries@[j].bounds),
            decreases entries.len() - i,
        {
            r = r.merged(&entries[i].bounds);
            i += 1;
        }
        r
    }

    fn is_full_leaf(&self) -> (r: bool)
        ensures
            r == (self.leaf_len() >= LEAF_CAPACITY as int),
    {
        match self {
            Node::Leaf { entries, .. } => entries.len() >= LEAF_CAPACITY,
            Node::Branch { .. } => false,
        }
    }

    fn is_empty_leaf(&self) -> (r: bool)
        ensures
            r == (self.leaf_len() == 0),
    {
        match self {
            Node::Leaf { entries, .. } => entries.len() == 0,
            Node::Branch { .. } => false,
        }
    }

    /// Turns a full leaf into a branch over its two halves and files `e` in the half
    /// whose cover it stretches less.
    fn split_with(&mut self, e: TreeEntry)
        requires
            old(self).wf(),
            old(self).leaf_len() >= LEAF_CAPACITY as int,
            forall|x: TreeEntry| #[trigger] old(self).pairs().contains(x) ==> x.key != e.key,
        ensures
            final(self).wf(),
            final(self).pairs() == old(self).pairs().insert(e),
    {
        let mut taken = Node::empty();
        core::mem::swap(self, &mut taken);
        match taken {
            Node::Leaf { cover, entries } => {
                let mut lower = entries;
                let ghost all = lower@;
                let mid = lower.len() / 2;
                let mut upper = lower.split_off(mid);
                let ghost low0 = lower@;
                let ghost up0 = upper@;
                proof {
                    assert(all =~= low0 + up0);
                    vstd::seq_lib::seq_to_set_distributes_over_add(low0, up0);
                    assert forall|i: int| 0 <= i < all.len() implies all[i].key != e.key by {
                        assert(all.to_set().contains(all[i]));
                        assert(old(self).pairs().contains(all[i]));
                    }
                    assert forall|i: int, j: int| 0 <= i < low0.len() && 0 <= j < up0.len() implies
                        low0[i].key != up0[j].key by {
                        assert(low0[i] == all[i]);
                        assert(up0[j] == all[mid + j]);
                    }
                    assert(distinct_keys(low0)) by {
                        assert forall|i: int, j: int| 0 <= i < j < low0.len() implies
                            low0[i].key != low0[j].key by {
                            assert(low0[i] == all[i]);
                            assert(low0[j] == all[j]);
                        }
                    }
                    assert(distinct_keys(up0)) by {
                        assert forall|i: int, j: int| 0 <= i < j < up0.len() implies
                            up0[i].key != up0[j].key by {
                            assert(up0[i] == all[mid + i]);
                            assert(up0[j] == all[mid + j]);
                        }
                    }
                }
                let to_lower = Node::growth(&Node::cover_all(&lower), &e.bounds) <= Node::growth(
                    &Node::cover_all(&upper),
                    &e.bounds,
                );
                if to_lower {
                    lower.push(e);
                    proof {
                        low0.lemma_push_to_set_commute(e);
                    }
                } else {
                    upper.push(e);
                    proof {
                        up0.lemma_push_to_set_commute(e);
                    }
                }
                let lower_cover = Node::cover_all(&lower);
                let upper_cover = Node::cover_all(&upper);
                let whole = lower_cover.merged(&upper_cover);
                let left = Node::Leaf { cover: lower_cover, entries: lower };
                let right = Node::Leaf { cover: upper_cover, entries: upper };
                proof {
                    crate::geometry::lemma_merged_contains(lower_cover, upper_cover);
                    assert forall|x: TreeEntry| #[trigger] left.pairs().contains(x) implies
                        lower_cover.contains_spec(x.bounds) by {
                        let i = choose|i: int| 0 <= i < lower@.len() && lower@[i] == x;
                    }
                    assert forall|x: TreeEntry| #[trigger] right.pairs().contains(x) implies
                        upper_cover.contains_spec(x.bounds) by {
                        let i = choose|i: int| 0 <= i < upper@.len() && upper@[i] == x;
                    }
                    assert forall|a: TreeEntry, b: TreeEntry|
                        #[trigger] left.pairs().contains(a)
                            && #[trigger] right.pairs().contains(b) implies a.key != b.key by {
                        let i = choose|i: int| 0 <= i < lower@.len() && lower@[i] == a;
                        let j = choose|j: int| 0 <= j < upper@.len() && upper@[j] == b;
                        if i < low0.len() {
                            assert(lower@[i] == low0[i]);
                        }
                        if j < up0.len() {
                            assert(upper@[j] == up0[j]);
                        }
                    }
                    assert(left.pairs().union(right.pairs()) =~= old(self).pairs().insert(e));
                    assert(all.len() <= LEAF_CAPACITY);
                    assert(distinct_keys(lower@));
                    assert(distinct_keys(upper@));
                    assert(left.wf());
                    assert(right.wf());
                    assert forall|x: TreeEntry|
                        left.pairs().union(right.pairs()).contains(x) implies
                        whole.contains_spec(x.bounds) by {
                        if left.pairs().contains(x) {
                            assert(lower_cover.contains_spec(x.bounds));
                        } else {
                            assert(upper_cover.contains_spec(x.bounds));
                        }
                    }
                }
                *self = Node::Branch { cover: whole, left: Box::new(left), right: Box::new(right) };
            },
            Node::Branch { cover, left, right } => {
                *self = Node::Branch { cover, left, right };
            },
        }
    }

    /// Appends `e` to a leaf that has room.
    fn leaf_push(&mut self, e: TreeEntry)
        requires
            old(self).wf(),
            0 <= old(self).leaf_len() < LEAF_CAPACITY as int,
            forall|x: TreeEntry| #[trigger] old(self).pairs().contains(x) ==> x.key != e.key,
        ensures
            final(self).wf(),
            final(self).pairs() == old(self).pairs().insert(e),
    {
        match self {
            Node::Leaf { cover, entries } => {
                let ghost before = entries@;
                proof {
                    assert forall|i: int| 0 <= i < before.len() implies before[i].key
                        != e.key by {
                        assert(before.to_set().contains(before[i]));
                        assert(old(self).pairs().contains(before[i]));
                    }
                    crate::geometry::lemma_merged_contains(*cover, e.bounds);
                    before.lemma_push_to_set_commute(e);
                }
                if entries.len() == 0 {
                    *cover = e.bounds;
                } else {
                    *cover = cover.merged(&e.bounds);
                }
                entries.push(e);
                proof {
                    assert forall|x: TreeEntry| entries@.to_set().contains(x) implies
                        cover.contains_spec(x.bounds) by {
                        if x != e {
                            assert(before.to_set().contains(x));
                            assert(old(self).pairs().contains(x));
                        }
                    }
                }
            },
            Node::Branch { .. } => {},
        }
    }

    /// Files `e` below the node. The way down goes to the child whose cover `e`
    /// stretches less; a full leaf at its end is split.
    fn insert(&mut self, e: TreeEntry)
        requires
            old(self).wf(),
            forall|x: TreeEntry| #[trigger] old(self).pairs().contains(x) ==> x.key != e.key,
        ensures
            final(self).wf(),
            final(self).pairs() == old(self).pairs().insert(e),
        decreases *old(self),
    {
        if self.is_full_leaf() {
            self.split_with(e);
            return ;
        }
        match self {
            Node::Leaf { .. } => {
                self.leaf_push(e);
            },
            Node::Branch { cover, left, right } => {
                proof {
                    crate::geometry::lemma_merged_contains(*cover, e.bounds);
                    assert forall|x: TreeEntry| #[trigger] left.pairs().contains(x) implies
                        x.key != e.key by {
                        assert(old(self).pairs().contains(x));
                    }
                    assert forall|x: TreeEntry| #[trigger] right.pairs().contains(x) implies
                        x.key != e.key by {
                        assert(old(self).pairs().contains(x));
                    }
                }
                let ghost l0 = left.pairs();
                let ghost r0 = right.pairs();
                *cover = cover.merged(&e.bounds);
                if Node::growth(&left.cover_of(), &e.bounds) <= Node::growth(
                    &right.cover_of(),
                    &e.bounds,
                ) {
                    left.insert(e);
                    assert(left.pairs().union(r0) =~= l0.union(r0).insert(e));
                } else {
                    right.insert(e);
                    assert(l0.union(right.pairs()) =~= l0.union(r0).insert(e));
                }
                proof {
                    assert forall|x: TreeEntry|
                        left.pairs().union(right.pairs()).contains(x) implies
                        cover.contains_spec(x.bounds) by {
                        if x != e {
                            assert(old(self).pairs().contains(x));
                        }
                    }
                }
            },
        }
    }

    /// Replaces a branch that has an empty leaf for a child by its other child: by
    /// the right child where the left one is empty, else by the left child where the
    /// right one is empty. Any other node stays as it is.
    fn collapse(&mut self)
        requires
            old(self).wf(),
        ensures
            *final(self) == old(self).collapsed(),
            final(self).wf(),
            final(self).pairs() == old(self).pairs(),
    {
        let (drop_left, drop_right) = match &*self {
            Node::Branch { left, right, .. } => (left.is_empty_leaf(), right.is_empty_leaf()),
            Node::Leaf { .. } => (false, false),
        };
        if drop_left || drop_right {
            let mut taken = Node::empty();
            core::mem::swap(self, &mut taken);
            match taken {
                Node::Branch { cover, left, right } => {
                    if drop_left {
                        assert(left.pairs() =~= Set::<TreeEntry>::empty());
                        assert(left.pairs().union(right.pairs()) =~= right.pairs());
                        *self = *right;
                    } else {
                        assert(right.pairs() =~= Set::<TreeEntry>::empty());
                        assert(left.pairs().union(right.pairs()) =~= left.pairs());
                        *self = *left;
                    }
                },
                Node::Leaf { cover, entries } => {
                    *self = Node::Leaf { cover, entries };
                },
            }
        }
    }

    /// The place of `e` in a leaf's entries, or their number where it is not among them.
    fn position(entries: &Vec<TreeEntry>, e: &TreeEntry) -> (at: usize)
        ensures
            at <= entries@.len(),
            at < entries@.len() ==> entries@[at as int] == *e,
            at == entries@.len() ==> !entries@.contains(*e),
    {
        let mut i: usize = 0;
        while i < entries.len()
            invariant
                i <= entries.len(),
                forall|j: int| 0 <= j < i ==> entries@[j] != *e,
            decreases entries.len() - i,
        {
            if entries[i] == *e {
                return i;
            }
            i += 1;
        }
        i
    }

    /// Takes `e` out from below the node, if it is there. Only children whose cover
    /// holds the bounds of `e` are searched.
    fn remove(&mut self, e: TreeEntry) -> (found: bool)
        requires
            old(self).wf(),
        ensures
            final(self).wf(),
            final(self).pairs() == old(self).pairs().remove(e),
            found == old(self).pairs().contains(e),
        decreases *old(self),
    {
        let found = match self {
            Node::Leaf { cover, entries } => {
                let ghost before = entries@;
                let at = Node::position(entries, &e);
                if at < entries.len() {
                    entries.remove(at);
                    proof {
                        assert(before.to_set().contains(before[at as int]));
                        assert forall|x: TreeEntry|
                            entries@.to_set().contains(x) <==> before.to_set().remove(
                                e,
                            ).contains(x) by {
                            if entries@.to_set().contains(x) {
                                let i = choose|i: int| 0 <= i < entries@.len() && entries@[i] == x;
                                if i < at {
                                    assert(before[i] == x);
                                } else {
                                    assert(before[i + 1] == x);
                                }
                            }
                            if before.to_set().contains(x) && x != e {
                                let i = choose|i: int| 0 <= i < before.len() && before[i] == x;
                                if i < at {
                                    assert(entries@[i] == x);
                                } else {
                                    assert(entries@[i - 1] == x);
                                }
                            }
                        }
                        assert(entries@.to_set() =~= before.to_set().remove(e));
                        assert forall|x: TreeEntry| entries@.to_set().contains(x) implies
                            cover.contains_spec(x.bounds) by {
                            assert(old(self).pairs().contains(x));
                        }
                        assert(distinct_keys(entries@)) by {
                            assert forall|i: int, j: int| 0 <= i < j < entries@.len() implies
                                entries@[i].key != entries@[j].key by {
                                let i0 = if i < at { i } else { i + 1 };
                                let j0 = if j < at { j } else { j + 1 };
                                assert(entries@[i] == before[i0]);
                                assert(entries@[j] == before[j0]);
                            }
                        }
                    }
                    true
                } else {
                    assert(before.to_set().remove(e) =~= before.to_set());
                    false
                }
            },
            Node::Branch { cover, left, right } => {
                let ghost left0 = **left;
                let ghost right0 = **right;
                let ghost l0 = left0.pairs();
                let ghost r0 = right0.pairs();
                proof {
                    reveal_with_fuel(Node::wf, 2);
                    assert(old(self).pairs() == l0.union(r0));
                    if l0.contains(e) {
                        assert(left0.cover().contains_spec(e.bounds));
                        assert(!r0.contains(e));
                    }
                    if r0.contains(e) {
                        assert(right0.cover().contains_spec(e.bounds));
                    }
                }
                let mut found = false;
                if left.cover_of().contains(&e.bounds) {
                    found = left.remove(e);
                }
                if !found && right.cover_of().contains(&e.bounds) {
                    found = right.remove(e);
                }
                proof {
                    assert(left.pairs() =~= l0.remove(e));
                    assert(right.pairs() =~= r0.remove(e));
                    assert(left.pairs().union(right.pairs()) =~= l0.union(r0).remove(e));
                    assert forall|x: TreeEntry|
                        left.pairs().union(right.pairs()).contains(x) implies
                        cover.contains_spec(x.bounds) by {
                        assert(old(self).pairs().contains(x));
                    }
                    assert forall|a: TreeEntry, b: TreeEntry|
                        #[trigger] left.pairs().contains(a)
                            && #[trigger] right.pairs().contains(b) implies a.key != b.key by {
                        assert(l0.contains(a) && r0.contains(b));
                    }
                }
                found
            },
        };
        if found {
            self.collapse();
        }
        found
    }

    /// Appends to `out` the keys below the node whose bounds meet `query`.
    fn collect(&self, query: &Aabb, out: &mut Vec<StrokeKey>)
        ensures
            final(out)@ == old(out)@ + self.hits(*query),
        decreases self,
    {
        if !self.cover_of().intersects(query) {
            return ;
        }
        match self {
            Node::Leaf { entries, .. } => {
                let mut i: usize = 0;
                while i < entries.len()
                    invariant
                        i <= entries.len(),
                        out@ == old(out)@ + leaf_hits(entries@, *query, i as nat),
                    decreases entries.len() - i,
                {
                    if entries[i].bounds.intersects(query) {
                        out.push(entries[i].key);
                    }
                    i += 1;
                }
            },
            Node::Branch { left, right, .. } => {
                left.collect(query, out);
                right.collect(query, out);
            },
        }
    }
}

/// The spatial index of the store: which key lies where.
///
/// As a value it is a map from keys to bounds. The tree beside it finds the keys that
/// meet a query without looking at every entry.
pub struct KeyTree {
    root: Node,
    /// The bounds of each filed key, at the key's ordinal.
    filed: Vec<Option<Aabb>>,
}

impl View for KeyTree {
    type V = Map<StrokeKey, Aabb>;

    open spec fn view(&self) -> Map<StrokeKey, Aabb> {
        self.as_map()
    }
}

impl KeyTree {
    /// The bounds under which each key is filed.
    pub closed spec fn as_map(self) -> Map<StrokeKey, Aabb> {
        Map::new(
            |k: StrokeKey| k.index < self.filed@.len() && self.filed@[k.index as int].is_some(),
            |k: StrokeKey| self.filed@[k.index as int].unwrap(),
        )
    }

    /// The tree holds exactly the entries of the map.
    pub closed spec fn wf(self) -> bool {
        &&& self.root.wf()
        &&& forall|e: TreeEntry| #[trigger]
            self.root.pairs().contains(e) <==> self.as_map().contains_pair(e.key, e.bounds)
    }

    /// A tree that holds nothing.
    pub fn new() -> (r: KeyTree)
        ensures
            r.wf(),
            r@ == Map::<StrokeKey, Aabb>::empty(),
    {
        let r = KeyTree { root: Node::empty(), filed: Vec::new() };
        assert(r.as_map() =~= Map::<StrokeKey, Aabb>::empty());
        r
    }

    /// The bounds under which `key` is filed.
    pub fn get(&self, key: StrokeKey) -> (r: Option<Aabb>)
        ensures
            r == (if self@.dom().contains(key) {
                Some(self@[key])
            } else {
                None
            }),
    {
        if key.index < self.filed.len() {
            self.filed[key.index]
        } else {
            None
        }
    }

    /// Files `key` under `bounds`. Where the key was filed already, the new bounds
    /// replace the old ones.
    pub fn insert(&mut self, key: StrokeKey, bounds: Aabb)
        requires
            old(self).wf(),
            key.ordinal() < usize::MAX,
        ensures
            final(self).wf(),
            final(self)@ == old(self)@.insert(key, bounds),
    {
        while self.filed.len() <= key.index
            invariant
                self.wf(),
                self.as_map() == old(self).as_map(),
                key.index < usize::MAX,
            decreases key.index + 1 - self.filed.len(),
        {
            let ghost before = self.as_map();
            self.filed.push(None);
            assert(self.as_map() =~= before);
        }
        let ghost grown = *self;
        let e = TreeEntry { key, bounds };
        match self.filed[key.index] {
            Some(old_bounds) => {
                self.root.remove(TreeEntry { key, bounds: old_bounds });
            },
            None => {},
        }
        self.filed.set(key.index, Some(bounds));
        proof {
            assert(self.as_map() =~= grown.as_map().insert(key, bounds));
            assert forall|x: TreeEntry| #[trigger] self.root.pairs().contains(x) implies x.key
                != key by {
                assert(grown.root.pairs().contains(x));
                assert(grown.as_map().contains_pair(x.key, x.bounds));
            }
        }
        self.root.insert(e);
        proof {
            assert forall|x: TreeEntry| #[trigger]
                self.root.pairs().contains(x) <==> self.as_map().contains_pair(
                    x.key,
                    x.bounds,
                ) by {
                if x.key != key {
                    assert(grown.root.pairs().contains(x) <==> grown.as_map().contains_pair(
                        x.key,
                        x.bounds,
                    ));
                }
            }
        }
    }

    /// Files `key` under new bounds: the same as taking it out and filing it again.
    pub fn update(&mut self, key: StrokeKey, bounds: Aabb)
        requires
            old(self).wf(),
            key.ordinal() < usize::MAX,
        ensures
            final(self).wf(),
            final(self)@ == old(self)@.insert(key, bounds),
    {
        self.insert(key, bounds);
    }

    /// Takes `key` out and returns the bounds under which it was filed.
    pub fn remove(&mut self, key: StrokeKey) -> (r: Option<Aabb>)
        requires
            old(self).wf(),
        ensures
            final(self).wf(),
            final(self)@ == old(self)@.remove(key),
            r == (if old(self)@.dom().contains(key) {
                Some(old(self)@[key])
            } else {
                None
            }),
    {
        if key.index >= self.filed.len() {
            assert(self.as_map().remove(key) =~= self.as_map());
            return None;
        }
        match self.filed[key.index] {
            Some(bounds) => {
                self.root.remove(TreeEntry { key, bounds });
                self.filed.set(key.index, None);
                proof {
                    assert(self.as_map() =~= old(self).as_map().remove(key));
                    assert forall|x: TreeEntry| #[trigger]
                        self.root.pairs().contains(x) <==> self.as_map().contains_pair(
                            x.key,
                            x.bounds,
                        ) by {
                        assert(old(self).root.pairs().contains(x) <==> old(
                            self,
                        ).as_map().contains_pair(x.key, x.bounds));
                    }
                }
                Some(bounds)
            },
            None => {
                assert(self.as_map().remove(key) =~= self.as_map());
                None
            },
        }
    }

    /// Takes every key out.
    pub fn clear(&mut self)
        ensures
            final(self).wf(),
            final(self)@ == Map::<StrokeKey, Aabb>::empty(),
    {
        self.root = Node::empty();
        self.filed = Vec::new();
        assert(self.as_map() =~= Map::<StrokeKey, Aabb>::empty());
    }

    /// The keys whose bounds meet `bounds`, each once, in no particular order.
    pub fn keys_intersecting_bounds(&self, bounds: Aabb) -> (r: Vec<StrokeKey>)
        requires
            self.wf(),
        ensures
            r@.no_duplicates(),
            forall|k: StrokeKey|
                r@.contains(k) <==> self@.dom().contains(k) && self@[k].intersects_spec(bounds),
    {
        let mut out: Vec<StrokeKey> = Vec::new();
        self.root.collect(&bounds, &mut out);
        proof {
            assert(out@ =~= self.root.hits(bounds));
            self.root.lemma_hits(bounds, self.as_map());
            assert forall|k: StrokeKey|
                self@.dom().contains(k) && self@[k].intersects_spec(bounds) implies out@.contains(
                k,
            ) by {
                let e = TreeEntry { key: k, bounds: self@[k] };
                assert(self.as_map().contains_pair(e.key, e.bounds));
                assert(self.root.pairs().contains(e));
            }
        }
        out
    }
}

} // verus!
