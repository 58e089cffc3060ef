//! What an export of the document is made of: the strokes of each page, moved to
//! the page's own origin and sorted by what they are.

use vstd::prelude::*;

use crate::engine::RnoteEngine;
use crate::geometry::Aabb;
use crate::store::chrono_comp::lemma_paint_order_unique;
use crate::store::{StoreView, StrokeKey, StrokeStore};
use crate::strokes::{Stroke, StrokeKind, StrokeView};

verus! {

/// The part of a page's content that a stroke of the given kind belongs to.
#[derive(Debug, Clone, Copy, PartialEq, Eq, Structural)]
pub enum ContentKind {
    /// Brush paths and shapes.
    Stroke,
    Text,
    Image,
}

/// The part that a stroke of `kind` belongs to.
pub open spec fn content_kind_of(kind: StrokeKind) -> ContentKind {
    match kind {
        StrokeKind::BrushPath => ContentKind::Stroke,
        StrokeKind::Shape => ContentKind::Stroke,
        StrokeKind::Text => ContentKind::Text,
        StrokeKind::Image => ContentKind::Image,
    }
}

/// The move that brings the lower corner of `page` to the origin, or `None` where
/// it is not an `i64` on both axes.
pub open spec fn page_offset(page: Aabb) -> Option<(i64, i64)> {
    if page.min_x > i64::MIN && page.min_y > i64::MIN {
        Some(((-page.min_x) as i64, (-page.min_y) as i64))
    } else {
        None
    }
}

/// The strokes of `keys` that belong to `part`, in the order of `keys`, each moved
/// by `(dx, dy)`. A stroke that cannot be moved so far is left out.
pub open spec fn moved_strokes(
    store: StoreView,
    keys: Seq<StrokeKey>,
    dx: i64,
    dy: i64,
    part: ContentKind,
) -> Seq<StrokeView>
    decreases keys.len(),
{
    if keys.len() == 0 {
        Seq::empty()
    } else {
        let before = moved_strokes(store, keys.drop_last(), dx, dy, part);
        let key = keys.last();
        if store.can_translate(key, dx, dy) && content_kind_of(store.entries[key].stroke.kind)
            == part {
            before.push(
                StrokeView {
                    bounds: store.entries[key].stroke.bounds.translated_spec(dx, dy),
                    ..store.entries[key].stroke
                },
            )
        } else {
            before
        }
    }
}

impl StoreView {
    /// The keys that are shown and whose stroke meets `bounds`, in paint order.
    pub open spec fn as_rendered_in(self, bounds: Aabb) -> Seq<StrokeKey> {
        choose|keys: Seq<StrokeKey>|
            {
                &&& self.in_paint_order(keys)
                &&& forall|k: StrokeKey|
                    keys.contains(k) <==> self.is_shown(k)
                        && self.entries[k].stroke.bounds.intersects_spec(bounds)
            }
    }
}

impl StoreView {
    /// Whether anything is shown in `bounds`: some stroke that is not trashed meets it.
    pub open spec fn shows_in(self, bounds: Aabb) -> bool {
        exists|k: StrokeKey|
            #[trigger] self.is_shown(k) && self.entries[k].stroke.bounds.intersects_spec(bounds)
    }
}

/// The places among the first `n` of `pages` of those in which `store` shows
/// something, in rising order.
pub open spec fn pages_w_content(store: StoreView, pages: Seq<Aabb>, n: nat) -> Seq<usize>
    decreases n,
{
    if n == 0 {
        Seq::empty()
    } else {
        let before = pages_w_content(store, pages, (n - 1) as nat);
        if store.shows_in(pages[n - 1]) {
            before.push((n - 1) as usize)
        } else {
            before
        }
    }
}

/// The strokes of `strokes`, as values.
pub open spec fn stroke_views(strokes: Seq<Stroke>) -> Seq<StrokeView> {
    strokes.map_values(|s: Stroke| s@)
}

/// What one page of an export shows, in paint order within each part, with the
/// lower corner of the page as the origin.
#[derive(Debug)]
pub struct PageContent {
    pub bounds: Aabb,
    pub strokes: Vec<Stroke>,
    pub texts: Vec<Stroke>,
    pub images: Vec<Stroke>,
}

impl PageContent {
    /// The content is that of `page` in `store`.
    pub open spec fn is_page_of(self, store: StoreView, page: Aabb) -> bool {
        let keys = store.as_rendered_in(page);
        &&& self.bounds == page
        &&& match page_offset(page) {
            Some((dx, dy)) => {
                &&& stroke_views(self.strokes@) == moved_strokes(
                    store,
                    keys,
                    dx,
                    dy,
                    ContentKind::Stroke,
                )
                &&& stroke_views(self.texts@) == moved_strokes(
                    store,
                    keys,
                    dx,
                    dy,
                    ContentKind::Text,
                )
                &&& stroke_views(self.images@) == moved_strokes(
                    store,
                    keys,
                    dx,
                    dy,
                    ContentKind::Image,
                )
            },
            None => {
                &&& self.strokes@.len() == 0
                &&& self.texts@.len() == 0
                &&& self.images@.len() == 0
            },
        }
    }
}

/// The part that a stroke of `kind` belongs to.
pub fn content_kind(kind: StrokeKind) -> (r: ContentKind)
    ensures
        r == content_kind_of(kind),
{
    match kind {
        StrokeKind::BrushPath => ContentKind::Stroke,
        StrokeKind::Shape => ContentKind::Stroke,
        StrokeKind::Text => ContentKind::Text,
        StrokeKind::Image => ContentKind::Image,
    }
}

impl StrokeStore {
    /// The keys that are shown and whose stroke meets `bounds`, in paint order:
    /// [`Self::stroke_keys_as_rendered_intersecting_bounds`], stated as one value.
    pub fn keys_as_rendered_in(&self, bounds: Aabb) -> (r: Vec<StrokeKey>)
        requires
            self.wf(),
        ensures
            r@ == self@.as_rendered_in(bounds),
    {
        let r = self.stroke_keys_as_rendered_intersecting_bounds(bounds);
        proof {
            lemma_paint_order_unique(self@, r@, self@.as_rendered_in(bounds));
        }
        r
    }

    /// What `page` shows: copies of the shown strokes that meet it, in paint order,
    /// moved so that the lower corner of the page is the origin, and sorted into
    /// strokes, texts and images.
    pub fn page_content(&self, page: Aabb) -> (r: PageContent)
        requires
            self.wf(),
        ensures
            r.is_page_of(self@, page),
    {
        let mut strokes: Vec<Stroke> = Vec::new();
        let mut texts: Vec<Stroke> = Vec::new();
        let mut images: Vec<Stroke> = Vec::new();
        let keys = self.keys_as_rendered_in(page);
        if page.min_x == i64::MIN || page.min_y == i64::MIN {
            return PageContent { bounds: page, strokes, texts, images };
        }
        let dx: i64 = 0 - page.min_x;
        let dy: i64 = 0 - page.min_y;
        let mut i: usize = 0;
        proof {
            assert(stroke_views(strokes@)
                =~= moved_strokes(self@, keys@.take(0), dx, dy, ContentKind::Stroke));
            assert(stroke_views(texts@)
                =~= moved_strokes(self@, keys@.take(0), dx, dy, ContentKind::Text));
            assert(stroke_views(images@)
                =~= moved_strokes(self@, keys@.take(0), dx, dy, ContentKind::Image));
        }
        while i < keys.len()
            invariant
                i <= keys.len(),
                stroke_views(strokes@) == moved_strokes(
                    self@,
                    keys@.take(i as int),
                    dx,
                    dy,
                    ContentKind::Stroke,
                ),
                stroke_views(texts@) == moved_strokes(
                    self@,
                    keys@.take(i as int),
                    dx,
                    dy,
                    ContentKind::Text,
                ),
                stroke_views(images@) == moved_strokes(
                    self@,
                    keys@.take(i as int),
                    dx,
                    dy,
                    ContentKind::Image,
                ),
            decreases keys.len() - i,
        {
            let key = keys[i];
            let ghost strokes_before = strokes@;
            let ghost texts_before = texts@;
            let ghost images_before = images@;
            proof {
                assert(keys@.take(i + 1).drop_last() =~= keys@.take(i as int));
            }
            let moved = match self.get_stroke_ref(key) {
                Some(stroke) => stroke.translated(dx, dy),
                None => None,
            };
            match moved {
                Some(stroke) => {
                    match content_kind(stroke.kind) {
                        ContentKind::Stroke => {
                            strokes.push(stroke);
                            assert(stroke_views(strokes@) =~= stroke_views(strokes_before).push(
                                stroke@,
                            ));
                        },
                        ContentKind::Text => {
                            texts.push(stroke);
                            assert(stroke_views(texts@) =~= stroke_views(texts_before).push(
                                stroke@,
                            ));
                        },
                        ContentKind::Image => {
                            images.push(stroke);
                            assert(stroke_views(images@) =~= stroke_views(images_before).push(
                                stroke@,
                            ));
                        },
                    }
                },
                None => {},
            }
            i += 1;
        }
        assert(keys@.take(keys@.len() as int) =~= keys@);
        PageContent { bounds: page, strokes, texts, images }
    }

    /// Whether anything is shown in `bounds`.
    pub fn shows_in(&self, bounds: Aabb) -> (r: bool)
        requires
            self.wf(),
        ensures
            r == self@.shows_in(bounds),
    {
        let shown = self.stroke_keys_as_rendered_intersecting_bounds(bounds);
        proof {
            if shown@.len() > 0 {
                assert(shown@.contains(shown@[0]));
                assert(self@.is_shown(shown@[0]));
            } else {
                assert forall|k: StrokeKey|
                    !(#[trigger] self@.is_shown(k)
                        && self@.entries[k].stroke.bounds.intersects_spec(
                        bounds,
                    )) by {
                    if self@.is_shown(k) && self@.entries[k].stroke.bounds.intersects_spec(bounds) {
                        assert(shown@.contains(k));
                    }
                }
            }
        }
        shown.len() > 0
    }

    /// The places in `pages` of the pages on which something is shown, in rising
    /// order. Pages without content are left out of an export.
    pub fn pages_w_content(&self, pages: &Vec<Aabb>) -> (r: Vec<usize>)
        requires
            self.wf(),
        ensures
            r@ == pages_w_content(self@, pages@, pages@.len()),
    {
        let mut out: Vec<usize> = Vec::new();
        let mut i: usize = 0;
        while i < pages.len()
            invariant
                i <= pages.len(),
                self.wf(),
                out@ == pages_w_content(self@, pages@, i as nat),
            decreases pages.len() - i,
        {
            if self.shows_in(pages[i]) {
                out.push(i);
            }
            i += 1;
        }
        out
    }

    /// For each page of `pages`, the keys that it shows, in paint order.
    pub fn pages_strokes(&self, pages: &Vec<Aabb>) -> (r: Vec<(Aabb, Vec<StrokeKey>)>)
        requires
            self.wf(),
        ensures
            r@.len() == pages@.len(),
            forall|i: int|
                0 <= i < pages@.len() ==> (#[trigger] r@[i]).0 == pages@[i] && r@[i].1@
                    == self@.as_rendered_in(pages@[i]),
    {
        let mut out: Vec<(Aabb, Vec<StrokeKey>)> = Vec::new();
        let mut i: usize = 0;
        while i < pages.len()
            invariant
                i <= pages.len(),
                self.wf(),
                out@.len() == i,
                forall|j: int|
                    0 <= j < i ==> (#[trigger] out@[j]).0 == pages@[j] && out@[j].1@
                        == self@.as_rendered_in(pages@[j]),
            decreases pages.len() - i,
        {
            let page = pages[i];
            let keys = self.keys_as_rendered_in(page);
            out.push((page, keys));
            i += 1;
        }
        out
    }
}

impl RnoteEngine {
    /// What each page of `pages` shows, for an export page by page.
    pub fn pages_content(&self, pages: &Vec<Aabb>) -> (r: Vec<PageContent>)
        requires
            self.wf(),
        ensures
            r@.len() == pages@.len(),
            forall|i: int|
                0 <= i < pages@.len() ==> (#[trigger] r@[i]).is_page_of(self@.store, pages@[i]),
    {
        let mut out: Vec<PageContent> = Vec::new();
        let mut i: usize = 0;
        while i < pages.len()
            invariant
                i <= pages.len(),
                self.wf(),
                out@.len() == i,
                forall|j: int|
                    0 <= j < i ==> (#[trigger] out@[j]).is_page_of(self@.store, pages@[j]),
            decreases pages.len() - i,
        {
            out.push(self.store.page_content(pages[i]));
            i += 1;
        }
        out
    }
}

} // verus!
