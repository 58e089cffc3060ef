//! The engine: the store together with what the editor keeps beside it, and the
//! decisions that follow an undo, a redo or a finished render job.

use vstd::prelude::*;

use crate::geometry::Aabb;
use crate::store::render_comp::{image_views, GeneratedStrokeImages, RenderJob};
use crate::store::{StoreView, StrokeKey, StrokeStore};
use crate::strokes::StrokeImageView;
use crate::widgetflags::WidgetFlags;

verus! {

/// What a task is, as a value.
pub enum EngineTaskView {
    UpdateStrokeWithImages { key: StrokeKey, images: Seq<StrokeImageView> },
    AppendImagesToStroke { key: StrokeKey, images: Seq<StrokeImageView> },
    Quit,
}

/// An engine task, usually coming from a worker and to be processed with
/// [`RnoteEngine::process_received_task`].
#[derive(Debug)]
pub enum EngineTask {
    /// Replace the images of the stroke. The stroke is made busy before the worker
    /// starts, so that images of a stroke that was edited meanwhile can be told apart.
    UpdateStrokeWithImages { key: StrokeKey, images: GeneratedStrokeImages },
    /// Appends the images to the rendering of the stroke.
    AppendImagesToStroke { key: StrokeKey, images: GeneratedStrokeImages },
    /// Indicates that the application is quitting: the loop that receives the
    /// tasks ends.
    Quit,
}

impl View for EngineTask {
    type V = EngineTaskView;

    open spec fn view(&self) -> EngineTaskView {
        match self {
            EngineTask::UpdateStrokeWithImages { key, images } => {
                EngineTaskView::UpdateStrokeWithImages { key: *key, images: image_views(images@) }
            },
            EngineTask::AppendImagesToStroke { key, images } => {
                EngineTaskView::AppendImagesToStroke { key: *key, images: image_views(images@) }
            },
            EngineTask::Quit => EngineTaskView::Quit,
        }
    }
}

/// The tool in the user's hand.
#[derive(Debug, Clone, Copy, PartialEq, Eq, Structural)]
pub enum PenStyle {
    Brush,
    Shaper,
    Typewriter,
    Eraser,
    Selector,
    Tools,
}

/// What an operation of the engine leaves for the caller to do: the flags for the
/// user interface, and the render jobs to hand to the workers.
#[derive(Debug)]
pub struct Dispatch {
    pub widget_flags: WidgetFlags,
    pub jobs: Vec<RenderJob>,
}

/// What an engine is, as a value.
pub struct EngineState {
    pub store: StoreView,
    pub viewport: Aabb,
    pub image_scale: u32,
    pub pen_style: PenStyle,
    pub pen_style_override: Option<PenStyle>,
    pub pen_sounds: bool,
    pub visual_debug: bool,
}

/// The jobs are those of a render pass over `viewport` of the store `before`: one
/// for each stroke that the pass wants rendered, with the stroke as it was.
pub open spec fn jobs_of_pass(
    jobs: Seq<RenderJob>,
    before: StoreView,
    force: bool,
    viewport: Aabb,
    image_scale: u32,
) -> bool {
    &&& forall|i: int, j: int| 0 <= i < j < jobs.len() ==> jobs[i].key != jobs[j].key
    &&& forall|i: int|
        0 <= i < jobs.len() ==> {
            &&& before.wants_rendering((#[trigger] jobs[i]).key, force, viewport)
            &&& (*jobs[i].stroke)@ == before.entries[jobs[i].key].stroke
            &&& jobs[i].image_scale == image_scale
        }
    &&& forall|k: StrokeKey|
        before.wants_rendering(k, force, viewport) ==> exists|i: int|
            0 <= i < jobs.len() && (#[trigger] jobs[i]).key == k
}

impl EngineState {
    /// The style that counts: the override where there is one.
    pub open spec fn current_style_w_override(self) -> PenStyle {
        match self.pen_style_override {
            Some(style) => style,
            None => self.pen_style,
        }
    }

    /// Whether any stroke of `store` is selected.
    pub open spec fn has_selection(store: StoreView) -> bool {
        exists|k: StrokeKey| #[trigger] store.entries.dom().contains(k) && store.entries[k].selected
    }

    /// The engine with `restored` for its store, as undo and redo leave it: where
    /// strokes are selected the selector is the tool and no other overrides it, and
    /// the strokes in view that are dirty are busy.
    pub open spec fn after_restore(self, restored: StoreView) -> EngineState {
        EngineState {
            store: restored.regenerate_rendering_in_viewport(false, self.viewport),
            pen_style: if Self::has_selection(restored) {
                PenStyle::Selector
            } else {
                self.pen_style
            },
            pen_style_override: if Self::has_selection(restored) {
                None
            } else {
                self.pen_style_override
            },
            ..self
        }
    }

    /// The flags of an undo or redo whose store operation set `restore`.
    pub open spec fn restore_flags(restore: WidgetFlags, restored: StoreView) -> WidgetFlags {
        WidgetFlags {
            redraw: true,
            refresh_ui: restore.refresh_ui || Self::has_selection(restored),
            ..restore
        }
    }

    /// The engine after `task` was processed.
    pub open spec fn process_received_task(self, task: EngineTaskView) -> EngineState {
        match task {
            EngineTaskView::UpdateStrokeWithImages { key, images } => EngineState {
                store: self.store.replace_rendering_with_images(key, images),
                ..self
            },
            EngineTaskView::AppendImagesToStroke { key, images } => EngineState {
                store: self.store.append_rendering_images(key, images),
                ..self
            },
            EngineTaskView::Quit => self,
        }
    }

    /// The flags that processing `task` sets.
    pub open spec fn task_flags(task: EngineTaskView) -> WidgetFlags {
        match task {
            EngineTaskView::Quit => WidgetFlags { quit: true, ..WidgetFlags::none() },
            _ => WidgetFlags {
                redraw: true,
                indicate_changed_store: true,
                ..WidgetFlags::none()
            },
        }
    }
}

/// The engine.
pub struct RnoteEngine {
    pub store: StrokeStore,
    /// The part of the document that is on screen.
    pub viewport: Aabb,
    /// The scale at which strokes are rendered for the screen, in thousandths.
    pub image_scale: u32,
    pub pen_style: PenStyle,
    pub pen_style_override: Option<PenStyle>,
    pub pen_sounds: bool,
    pub visual_debug: bool,
}

impl View for RnoteEngine {
    type V = EngineState;

    open spec fn view(&self) -> EngineState {
        EngineState {
            store: self.store@,
            viewport: self.viewport,
            image_scale: self.image_scale,
            pen_style: self.pen_style,
            pen_style_override: self.pen_style_override,
            pen_sounds: self.pen_sounds,
            visual_debug: self.visual_debug,
        }
    }
}

impl RnoteEngine {
    /// The image scale used on export, in thousandths.
    pub const EXPORT_IMAGE_SCALE: u32 = 1500;

    /// The invariant of the engine: that of its store.
    pub open spec fn wf(self) -> bool {
        self.store.wf()
    }

    /// An engine with an empty store, the brush in hand and nothing in view.
    pub fn new() -> (r: RnoteEngine)
        ensures
            r.wf(),
            r@ == (EngineState {
                store: StoreView::empty(),
                viewport: Aabb { min_x: 0, min_y: 0, max_x: 0, max_y: 0 },
                image_scale: 1000,
                pen_style: PenStyle::Brush,
                pen_style_override: None,
                pen_sounds: false,
                visual_debug: false,
            }),
    {
        RnoteEngine {
            store: StrokeStore::new(),
            viewport: Aabb::new(0, 0, 0, 0),
            image_scale: 1000,
            pen_style: PenStyle::Brush,
            pen_style_override: None,
            pen_sounds: false,
            visual_debug: false,
        }
    }

    /// Whether pen sounds are enabled.
    pub fn pen_sounds(&self) -> (r: bool)
        ensures
            r == self@.pen_sounds,
    {
        self.pen_sounds
    }

    /// Enables or disables the pen sounds.
    pub fn set_pen_sounds(&mut self, pen_sounds: bool)
        ensures
            final(self)@ == (EngineState { pen_sounds, ..old(self)@ }),
            final(self).store == old(self).store,
    {
        self.pen_sounds = pen_sounds;
    }

    /// The style that counts: the override where there is one.
    pub fn current_style_w_override(&self) -> (r: PenStyle)
        ensures
            r == self@.current_style_w_override(),
    {
        match self.pen_style_override {
            Some(style) => style,
            None => self.pen_style,
        }
    }

    /// Whether the pen in use has to be cancelled before an undo or redo: every
    /// pen but the selector.
    pub fn pen_needs_cancel(&self) -> (r: bool)
        ensures
            r == (self@.current_style_w_override() != PenStyle::Selector),
    {
        self.current_style_w_override() != PenStyle::Selector
    }

    /// Records the current store state and saves it as a history entry.
    pub fn record(&mut self) -> (flags: WidgetFlags)
        requires
            old(self).wf(),
        ensures
            final(self).wf(),
            final(self)@ == (EngineState { store: old(self)@.store.record(), ..old(self)@ }),
            flags == (WidgetFlags { refresh_ui: true, ..WidgetFlags::none() }),
    {
        self.store.record()
    }

    /// What undo and redo do once the store is restored.
    fn settle_restore(&mut self, restore: WidgetFlags) -> (r: Dispatch)
        requires
            old(self).wf(),
        ensures
            final(self).wf(),
            final(self)@ == old(self)@.after_restore(old(self)@.store),
            r.widget_flags == EngineState::restore_flags(restore, old(self)@.store),
            jobs_of_pass(
                r.jobs@,
                old(self)@.store,
                false,
                old(self)@.viewport,
                old(self)@.image_scale,
            ),
    {
        let mut widget_flags = restore;
        let selection = self.store.selection_keys_unordered();
        proof {
            let store = self@.store;
            if selection@.len() > 0 {
                assert(selection@.contains(selection@[0]));
                assert(store.entries.dom().contains(selection@[0]));
            } else {
                assert forall|k: StrokeKey|
                    !(#[trigger] store.entries.dom().contains(k) && store.entries[k].selected) by {
                    if store.entries.dom().contains(k) && store.entries[k].selected {
                        assert(selection@.contains(k));
                    }
                }
            }
        }
        if selection.len() > 0 {
            self.pen_style_override = None;
            self.pen_style = PenStyle::Selector;
            widget_flags.refresh_ui = true;
        }
        let jobs = self.store.regenerate_rendering_in_viewport(
            false,
            self.viewport,
            self.image_scale,
        );
        widget_flags.redraw = true;
        Dispatch { widget_flags, jobs }
    }

    /// Undo the latest changes. The strokes in view that need images afterwards are
    /// made busy, and their jobs are handed back.
    pub fn undo(&mut self) -> (r: Dispatch)
        requires
            old(self).wf(),
        ensures
            final(self).wf(),
            final(self)@ == old(self)@.after_restore(old(self)@.store.undo()),
            r.widget_flags == EngineState::restore_flags(
                if old(self)@.store.undo_stack.len() == 0 {
                    WidgetFlags::none()
                } else {
                    crate::store::history::restored_flags()
                },
                old(self)@.store.undo(),
            ),
            jobs_of_pass(
                r.jobs@,
                old(self)@.store.undo(),
                false,
                old(self)@.viewport,
                old(self)@.image_scale,
            ),
    {
        let restore = self.store.undo();
        self.settle_restore(restore)
    }

    /// Redo the latest changes. The strokes in view that need images afterwards are
    /// made busy, and their jobs are handed back.
    pub fn redo(&mut self) -> (r: Dispatch)
        requires
            old(self).wf(),
        ensures
            final(self).wf(),
            final(self)@ == old(self)@.after_restore(old(self)@.store.redo()),
            r.widget_flags == EngineState::restore_flags(
                if old(self)@.store.redo_stack.len() == 0 {
                    WidgetFlags::none()
                } else {
                    crate::store::history::restored_flags()
                },
                old(self)@.store.redo(),
            ),
            jobs_of_pass(
                r.jobs@,
                old(self)@.store.redo(),
                false,
                old(self)@.viewport,
                old(self)@.image_scale,
            ),
    {
        let restore = self.store.redo();
        self.settle_restore(restore)
    }

    /// Clears the store.
    pub fn clear(&mut self)
        requires
            old(self).wf(),
        ensures
            final(self).wf(),
            final(self)@ == (EngineState { store: old(self)@.store.clear(), ..old(self)@ }),
    {
        self.store.clear();
    }

    /// Processes a task that a worker sent. Images for a key that is stale, or for
    /// a stroke that was edited since the job was handed out, are dropped.
    /// Returns widget flags to indicate what needs to be updated in the UI.
    pub fn process_received_task(&mut self, task: EngineTask) -> (widget_flags: WidgetFlags)
        requires
            old(self).wf(),
        ensures
            final(self).wf(),
            final(self)@ == old(self)@.process_received_task(task@),
            widget_flags == EngineState::task_flags(task@),
    {
        let mut widget_flags = WidgetFlags::default();
        match task {
            EngineTask::UpdateStrokeWithImages { key, images } => {
                self.store.replace_rendering_with_images(key, images);
                widget_flags.redraw = true;
                widget_flags.indicate_changed_store = true;
            },
            EngineTask::AppendImagesToStroke { key, images } => {
                self.store.append_rendering_images(key, images);
                widget_flags.redraw = true;
                widget_flags.indicate_changed_store = true;
            },
            EngineTask::Quit => {
                widget_flags.quit = true;
            },
        }
        widget_flags
    }

    /// Updates the content rendering for the current viewport: the dirty strokes in
    /// view are made busy, and their jobs are handed back.
    pub fn update_rendering_current_viewport(&mut self) -> (jobs: Vec<RenderJob>)
        requires
            old(self).wf(),
        ensures
            final(self).wf(),
            final(self)@ == (EngineState {
                store: old(self)@.store.regenerate_rendering_in_viewport(
                    false,
                    old(self)@.viewport,
                ),
                ..old(self)@
            }),
            jobs_of_pass(
                jobs@,
                old(self)@.store,
                false,
                old(self)@.viewport,
                old(self)@.image_scale,
            ),
    {
        self.store.regenerate_rendering_in_viewport(false, self.viewport, self.image_scale)
    }
}

/// A result that arrives after its key was removed leaves the engine as it was.
pub proof fn lemma_late_result_is_noop(engine: EngineState, key: StrokeKey,
    images: Seq<StrokeImageView>)
    requires
        !engine.store.entries.dom().contains(key),
    ensures
        engine.process_received_task(EngineTaskView::UpdateStrokeWithImages { key, images })
            == engine,
        engine.process_received_task(EngineTaskView::AppendImagesToStroke { key, images })
            == engine,
{
}

} // verus!
