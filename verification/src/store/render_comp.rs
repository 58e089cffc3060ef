//! The render cache: which strokes have current images, which are being rendered,
//! and which results may still be applied when they arrive.

use std::sync::Arc;

use vstd::prelude::*;

use super::{StoreView, StrokeEntry, StrokeEntryView, StrokeKey, StrokeStore};
use crate::geometry::Aabb;
use crate::strokes::{Stroke, StrokeImage, StrokeImageView};

verus! {

/// The images of a sequence of rendered images, as values.
pub open spec fn image_views(images: Seq<StrokeImage>) -> Seq<StrokeImageView> {
    images.map_values(|image: StrokeImage| image@)
}

/// What a render state is, as a value.
pub enum RenderStateView {
    Dirty,
    Busy,
    Rendered(Seq<StrokeImageView>),
}

impl RenderStateView {
    /// The state as a snapshot keeps it: a job in flight is not part of a snapshot,
    /// so a busy stroke counts as dirty.
    pub open spec fn settled(self) -> RenderStateView {
        match self {
            RenderStateView::Busy => RenderStateView::Dirty,
            other => other,
        }
    }
}

/// The state of a stroke's cached images.
#[derive(Debug)]
pub enum RenderState {
    /// The images, if any, are out of date.
    Dirty,
    /// A job is rendering the stroke as it was when the job was handed out.
    Busy,
    /// The images are those of the stroke as it is.
    Rendered(Arc<Vec<StrokeImage>>),
}

impl View for RenderState {
    type V = RenderStateView;

    open spec fn view(&self) -> RenderStateView {
        match self {
            RenderState::Dirty => RenderStateView::Dirty,
            RenderState::Busy => RenderStateView::Busy,
            RenderState::Rendered(images) => RenderStateView::Rendered(image_views((**images)@)),
        }
    }
}

/// `Arc::clone`: one more handle to the value that `shared` points to.
#[verifier::external_body]
pub(crate) fn share<T>(shared: &Arc<T>) -> (r: Arc<T>)
    ensures
        r == *shared,
{
    Arc::clone(shared)
}

impl RenderState {
    /// The same state, sharing the images.
    pub fn duplicate(&self) -> (r: RenderState)
        ensures
            r@ == self@,
    {
        match self {
            RenderState::Dirty => RenderState::Dirty,
            RenderState::Busy => RenderState::Busy,
            RenderState::Rendered(images) => RenderState::Rendered(share(images)),
        }
    }

    /// The state as a snapshot keeps it.
    pub fn settled(&self) -> (r: RenderState)
        ensures
            r@ == self@.settled(),
    {
        match self {
            RenderState::Dirty => RenderState::Dirty,
            RenderState::Busy => RenderState::Dirty,
            RenderState::Rendered(images) => RenderState::Rendered(share(images)),
        }
    }

    /// Whether the images are out of date.
    pub fn is_dirty(&self) -> (r: bool)
        ensures
            r == (self@ is Dirty),
    {
        match self {
            RenderState::Dirty => true,
            _ => false,
        }
    }

    /// Whether a job is rendering the stroke.
    pub fn is_busy(&self) -> (r: bool)
        ensures
            r == (self@ is Busy),
    {
        match self {
            RenderState::Busy => true,
            _ => false,
        }
    }
}

/// The images that a render job made of one stroke.
pub type GeneratedStrokeImages = Vec<StrokeImage>;

/// The order to render one stroke: the stroke as it was when the order was given,
/// which no later edit changes, and the scale to render it at.
#[derive(Debug)]
pub struct RenderJob {
    pub key: StrokeKey,
    pub stroke: Arc<Stroke>,
    /// The scale of the images, in thousandths.
    pub image_scale: u32,
}

impl StoreView {
    /// The store after `key` was marked dirty; unchanged for a stale key.
    pub open spec fn set_rendering_dirty(self, key: StrokeKey) -> StoreView {
        if self.entries.dom().contains(key) {
            self.with_entry(
                key,
                StrokeEntryView { render: RenderStateView::Dirty, ..self.entries[key] },
            )
        } else {
            self
        }
    }

    /// Whether a pass over `viewport` hands out a job for `key`: the stroke meets
    /// the viewport, and it is dirty or the pass is forced.
    pub open spec fn wants_rendering(self, key: StrokeKey, force: bool, viewport: Aabb) -> bool {
        &&& self.entries.dom().contains(key)
        &&& self.entries[key].stroke.bounds.intersects_spec(viewport)
        &&& (force || self.entries[key].render is Dirty)
    }

    /// The store after the strokes of `picked` became busy.
    pub open spec fn with_busy(self, picked: Set<StrokeKey>) -> StoreView {
        StoreView {
            entries: Map::new(
                |k: StrokeKey| self.entries.dom().contains(k),
                |k: StrokeKey|
                    if picked.contains(k) {
                        StrokeEntryView { render: RenderStateView::Busy, ..self.entries[k] }
                    } else {
                        self.entries[k]
                    },
            ),
            ..self
        }
    }

    /// The store after a pass over `viewport`: every stroke that the pass wants
    /// rendered is busy.
    pub open spec fn regenerate_rendering_in_viewport(
        self,
        force: bool,
        viewport: Aabb,
    ) -> StoreView {
        self.with_busy(Set::new(|k: StrokeKey| self.wants_rendering(k, force, viewport)))
    }

    /// Whether images that arrive for `key` in place of all earlier ones are still
    /// wanted: the key is live and its stroke has been busy since the job was handed out.
    pub open spec fn accepts_replacement(self, key: StrokeKey) -> bool {
        self.entries.dom().contains(key) && self.entries[key].render is Busy
    }

    /// The store after `images` arrived for `key` to replace its images. They are
    /// dropped where the key is stale or the stroke is no longer busy.
    pub open spec fn replace_rendering_with_images(
        self,
        key: StrokeKey,
        images: Seq<StrokeImageView>,
    ) -> StoreView {
        if self.accepts_replacement(key) {
            self.with_entry(
                key,
                StrokeEntryView { render: RenderStateView::Rendered(images), ..self.entries[key] },
            )
        } else {
            self
        }
    }

    /// Whether images that arrive for `key` to be added to its images are still
    /// wanted: the key is live and its stroke was not made dirty meanwhile.
    pub open spec fn accepts_addition(self, key: StrokeKey) -> bool {
        self.entries.dom().contains(key) && !(self.entries[key].render is Dirty)
    }

    /// The store after `images` arrived for `key` to be added to its images. They are
    /// dropped where the key is stale or the stroke is dirty.
    pub open spec fn append_rendering_images(
        self,
        key: StrokeKey,
        images: Seq<StrokeImageView>,
    ) -> StoreView {
        if self.accepts_addition(key) {
            let all = match self.entries[key].render {
                RenderStateView::Rendered(present) => present + images,
                _ => images,
            };
            self.with_entry(
                key,
                StrokeEntryView { render: RenderStateView::Rendered(all), ..self.entries[key] },
            )
        } else {
            self
        }
    }
}

/// Images that arrive for a key that was removed since their job was handed out
/// change nothing, and neither do images that arrive for a stroke that was made
/// dirty since: the store after them is the store before them.
pub proof fn lemma_stale_result_is_dropped(
    view: StoreView,
    key: StrokeKey,
    images: Seq<StrokeImageView>,
)
    requires
        !view.entries.dom().contains(key) || view.entries[key].render is Dirty,
    ensures
        view.replace_rendering_with_images(key, images) == view,
        view.append_rendering_images(key, images) == view,
        view.remove_stroke(key).replace_rendering_with_images(key, images) == view.remove_stroke(
            key,
        ),
        view.remove_stroke(key).append_rendering_images(key, images) == view.remove_stroke(key),
        view.set_rendering_dirty(key).replace_rendering_with_images(key, images)
            == view.set_rendering_dirty(key),
{
}

/// No result makes a stroke rendered that is dirty, and at most one replacement is
/// applied to a stroke that was made busy once: after it the stroke is no longer busy.
pub proof fn lemma_one_replacement_per_job(
    view: StoreView,
    key: StrokeKey,
    first: Seq<StrokeImageView>,
    second: Seq<StrokeImageView>,
)
    ensures
        !view.replace_rendering_with_images(key, first).accepts_replacement(key),
        view.replace_rendering_with_images(key, first).replace_rendering_with_images(key, second)
            == view.replace_rendering_with_images(key, first),
{
}

/// Copies of `images`, one for one.
fn duplicate_images(images: &Vec<StrokeImage>) -> (r: Vec<StrokeImage>)
    ensures
        image_views(r@) == image_views(images@),
{
    let mut out: Vec<StrokeImage> = Vec::new();
    let mut i: usize = 0;
    while i < images.len()
        invariant
            i <= images.len(),
            image_views(out@) == image_views(images@.take(i as int)),
        decreases images.len() - i,
    {
        let ghost copied = out@;
        out.push(images[i].duplicate());
        proof {
            assert(images@.take(i + 1) =~= images@.take(i as int).push(images@[i as int]));
            assert(image_views(out@) =~= image_views(copied).push(images@[i as int]@));
            assert(image_views(images@.take(i + 1)) =~= image_views(images@.take(i as int)).push(
                images@[i as int]@,
            ));
        }
        i += 1;
    }
    assert(images@.take(images@.len() as int) =~= images@);
    out
}

/// The render pipeline: what is dirty, what is handed out, what may come back.
impl StrokeStore {
    /// The render state of `key`, or `None` for a stale key.
    pub fn render_state(&self, key: StrokeKey) -> (r: Option<&RenderState>)
        ensures
            r.is_some() == self@.entries.dom().contains(key),
            r matches Some(state) ==> state@ == self@.entries[key].render,
    {
        match self.entry(key) {
            Some(entry) => Some(&entry.render),
            None => None,
        }
    }

    /// Marks the images of `key` as out of date. Images that a job brings for the
    /// stroke as it was are dropped from now on. A stale key changes nothing.
    pub fn set_rendering_dirty(&mut self, key: StrokeKey)
        requires
            old(self).wf(),
        ensures
            final(self).wf(),
            final(self)@ == old(self)@.set_rendering_dirty(key),
    {
        let entry = match self.entry(key) {
            Some(entry) => entry.duplicate(),
            None => { return ; },
        };
        proof {
            self.lemma_valid();
        }
        self.put_entry(key, StrokeEntry { render: RenderState::Dirty, ..entry });
    }

    /// Hands out a render job for every stroke that meets `viewport` and is dirty, or
    /// for every stroke that meets it where `force` is set, and makes those strokes
    /// busy. Each job holds its stroke as it is now.
    pub fn regenerate_rendering_in_viewport(
        &mut self,
        force: bool,
        viewport: Aabb,
        image_scale: u32,
    ) -> (jobs: Vec<RenderJob>)
        requires
            old(self).wf(),
        ensures
            final(self).wf(),
            final(self)@ == old(self)@.regenerate_rendering_in_viewport(force, viewport),
            forall|i: int, j: int| 0 <= i < j < jobs@.len() ==> jobs@[i].key != jobs@[j].key,
            forall|i: int|
                0 <= i < jobs@.len() ==> {
                    &&& old(self)@.wants_rendering((#[trigger] jobs@[i]).key, force, viewport)
                    &&& (*jobs@[i].stroke)@ == old(self)@.entries[jobs@[i].key].stroke
                    &&& jobs@[i].image_scale == image_scale
                },
            forall|k: StrokeKey|
                old(self)@.wants_rendering(k, force, viewport) ==> exists|i: int|
                    0 <= i < jobs@.len() && (#[trigger] jobs@[i]).key == k,
    {
        let keys = self.key_tree.keys_intersecting_bounds(viewport);
        let ghost start = self@;
        let ghost wanted = Set::new(|k: StrokeKey| start.wants_rendering(k, force, viewport));
        let mut jobs: Vec<RenderJob> = Vec::new();
        let mut i: usize = 0;
        proof {
            assert(start.with_busy(Set::empty()).entries =~= start.entries);
            assert(wanted.intersect(keys@.take(0).to_set()) =~= Set::empty());
        }
        while i < keys.len()
            invariant
                i <= keys.len(),
                self.wf(),
                start.valid(),
                keys@.no_duplicates(),
                wanted == Set::new(|k: StrokeKey| start.wants_rendering(k, force, viewport)),
                forall|k: StrokeKey|
                    keys@.contains(k) <==> start.entries.dom().contains(k)
                        && start.entries[k].stroke.bounds.intersects_spec(viewport),
                self@ == start.with_busy(wanted.intersect(keys@.take(i as int).to_set())),
                forall|a: int, b: int| 0 <= a < b < jobs@.len() ==> jobs@[a].key != jobs@[b].key,
                forall|a: int|
                    0 <= a < jobs@.len() ==> {
                        &&& start.wants_rendering((#[trigger] jobs@[a]).key, force, viewport)
                        &&& keys@.take(i as int).contains(jobs@[a].key)
                        &&& (*jobs@[a].stroke)@ == start.entries[jobs@[a].key].stroke
                        &&& jobs@[a].image_scale == image_scale
                    },
                forall|k: StrokeKey|
                    keys@.take(i as int).contains(k) && start.wants_rendering(k, force, viewport)
                        ==> exists|a: int| 0 <= a < jobs@.len() && (#[trigger] jobs@[a]).key == k,
            decreases keys.len() - i,
        {
            let key = keys[i];
            let ghost done = keys@.take(i as int);
            let ghost before = self@;
            let ghost jobs_before = jobs@;
            proof {
                assert(keys@.contains(key));
                assert(keys@.take(i + 1) =~= done.push(key));
                assert(!done.contains(key)) by {
                    if done.contains(key) {
                        let a = choose|a: int| 0 <= a < done.len() && done[a] == key;
                        assert(keys@[a] == keys@[i as int]);
                    }
                }
                assert(before.entries[key] == start.entries[key]);
            }
            let picked = match self.entry(key) {
                Some(entry) => {
                    if force || entry.render.is_dirty() {
                        Some(
                            (
                                share(&entry.stroke),
                                StrokeEntry { render: RenderState::Busy, ..entry.duplicate() },
                            ),
                        )
                    } else {
                        None
                    }
                },
                None => None,
            };
            match picked {
                Some((stroke, entry)) => {
                    jobs.push(RenderJob { key, stroke, image_scale });
                    self.put_entry(key, entry);
                    proof {
                        assert(start.wants_rendering(key, force, viewport));
                        assert(wanted.intersect(done.push(key).to_set()) =~= wanted.intersect(
                            done.to_set(),
                        ).insert(key)) by {
                            done.lemma_push_to_set_commute(key);
                        }
                        assert(self@.entries =~= start.with_busy(
                            wanted.intersect(done.push(key).to_set()),
                        ).entries);
                        assert forall|k: StrokeKey|
                            done.push(key).contains(k) && start.wants_rendering(
                                k,
                                force,
                                viewport,
                            ) implies exists|a: int|
                            0 <= a < jobs@.len() && (#[trigger] jobs@[a]).key == k by {
                            if k == key {
                                assert(jobs@[jobs_before.len() as int].key == k);
                            } else {
                                assert(done.contains(k)) by {
                                    let a = choose|a: int| 0 <= a < done.push(key).len()
                                        && done.push(key)[a] == k;
                                    assert(done[a] == k);
                                }
                                let a = choose|a: int|
                                    0 <= a < jobs_before.len() && (#[trigger] jobs_before[a]).key
                                        == k;
                                assert(jobs@[a].key == k);
                            }
                        }
                        assert forall|a: int| 0 <= a < jobs@.len() implies done.push(key).contains(
                            (#[trigger] jobs@[a]).key,
                        ) by {
                            if a < jobs_before.len() {
                                let b = choose|b: int| 0 <= b < done.len()
                                    && done[b] == jobs_before[a].key;
                                assert(done.push(key)[b] == jobs@[a].key);
                            } else {
                                assert(done.push(key)[done.len() as int] == key);
                            }
                        }
                    }
                },
                None => {
                    proof {
                        assert(!start.wants_rendering(key, force, viewport));
                        assert(wanted.intersect(done.push(key).to_set()) =~= wanted.intersect(
                            done.to_set(),
                        )) by {
                            done.lemma_push_to_set_commute(key);
                        }
                        assert forall|k: StrokeKey|
                            done.push(key).contains(k) && start.wants_rendering(
                                k,
                                force,
                                viewport,
                            ) implies exists|a: int|
                            0 <= a < jobs@.len() && (#[trigger] jobs@[a]).key == k by {
                            assert(done.contains(k)) by {
                                let a = choose|a: int| 0 <= a < done.push(key).len()
                                    && done.push(key)[a] == k;
                                assert(done[a] == k);
                            }
                        }
                        assert forall|a: int| 0 <= a < jobs@.len() implies done.push(key).contains(
                            (#[trigger] jobs@[a]).key,
                        ) by {
                            let b = choose|b: int| 0 <= b < done.len() && done[b] == jobs@[a].key;
                            assert(done.push(key)[b] == jobs@[a].key);
                        }
                    }
                },
            }
            i += 1;
        }
        proof {
            assert(keys@.take(keys@.len() as int) =~= keys@);
            assert(wanted.intersect(keys@.to_set()) =~= wanted);
        }
        jobs
    }

    /// Takes the images that a job made of `key` in place of all that the stroke
    /// had. They are dropped, and `false` is returned, where the key is stale or the
    /// stroke is no longer busy: it was edited, or another result came first.
    pub fn replace_rendering_with_images(
        &mut self,
        key: StrokeKey,
        images: GeneratedStrokeImages,
    ) -> (applied: bool)
        requires
            old(self).wf(),
        ensures
            final(self).wf(),
            final(self)@ == old(self)@.replace_rendering_with_images(key, image_views(images@)),
            applied == old(self)@.accepts_replacement(key),
    {
        let entry = match self.entry(key) {
            Some(entry) => {
                if entry.render.is_busy() {
                    entry.duplicate()
                } else {
                    return false;
                }
            },
            None => { return false; },
        };
        proof {
            self.lemma_valid();
        }
        self.put_entry(key, StrokeEntry { render: RenderState::Rendered(Arc::new(images)),
            ..entry });
        true
    }

    /// Adds the images that a job made of `key` to those that the stroke has. They
    /// are dropped, and `false` is returned, where the key is stale or the stroke is dirty.
    pub fn append_rendering_images(
        &mut self,
        key: StrokeKey,
        images: GeneratedStrokeImages,
    ) -> (applied: bool)
        requires
            old(self).wf(),
        ensures
            final(self).wf(),
            final(self)@ == old(self)@.append_rendering_images(key, image_views(images@)),
            applied == old(self)@.accepts_addition(key),
    {
        let mut images = images;
        let (entry, all) = match self.entry(key) {
            Some(entry) => {
                match &entry.render {
                    RenderState::Dirty => { return false; },
                    RenderState::Busy => (entry.duplicate(), images),
                    RenderState::Rendered(present) => {
                        let mut all = duplicate_images(present);
                        let ghost copied = all@;
                        let ghost added = images@;
                        all.append(&mut images);
                        proof {
                            assert(image_views(copied + added) =~= image_views(copied)
                                + image_views(added));
                        }
                        (entry.duplicate(), all)
                    },
                }
            },
            None => { return false; },
        };
        proof {
            self.lemma_valid();
        }
        self.put_entry(key, StrokeEntry { render: RenderState::Rendered(Arc::new(all)), ..entry });
        true
    }
}

} // verus!
