use rnote_engine::engine::{EngineTask, PenStyle, RnoteEngine};
use rnote_engine::export::{content_kind, ContentKind};
use rnote_engine::geometry::Aabb;
use rnote_engine::store::chrono_comp::StrokeLayer;
use rnote_engine::store::render_comp::RenderState;
use rnote_engine::store::StrokeKey;
use rnote_engine::strokes::{Stroke, StrokeImage, StrokeKind};
use rnote_engine::widgetflags::WidgetFlags;

fn stroke(kind: StrokeKind, min: i64, max: i64, tag: u8) -> Stroke {
    Stroke::new(kind, Aabb::new(min, min, max, max), vec![tag])
}

fn image(tag: u8) -> StrokeImage {
    StrokeImage { bounds: Aabb::new(0, 0, 4, 4), pixel_width: 2, pixel_height: 2, data: vec![tag; 16] }
}

fn no_flags() -> WidgetFlags {
    WidgetFlags::default()
}

#[test]
fn widget_flags_merge_is_or() {
    let mut a = WidgetFlags { redraw: true, ..no_flags() };
    a.merge_with_other(WidgetFlags { quit: true, resize: true, ..no_flags() });
    assert_eq!(
        a,
        WidgetFlags { quit: true, redraw: true, resize: true, refresh_ui: false, indicate_changed_store: false }
    );
    a.merge_with_other(no_flags());
    assert!(a.redraw && a.quit && a.resize && !a.refresh_ui);
    assert_eq!(
        WidgetFlags::default(),
        WidgetFlags { quit: false, redraw: false, resize: false, refresh_ui: false, indicate_changed_store: false }
    );
}

#[test]
fn new_engine_defaults() {
    let engine = RnoteEngine::new();
    assert!(!engine.pen_sounds());
    assert!(!engine.visual_debug);
    assert_eq!(engine.pen_style, PenStyle::Brush);
    assert_eq!(engine.pen_style_override, None);
    assert_eq!(engine.image_scale, 1000);
    assert_eq!(RnoteEngine::EXPORT_IMAGE_SCALE, 1500);
    assert!(engine.store.keys_unordered().is_empty());
    assert!(engine.pen_needs_cancel());
}

#[test]
fn pen_sounds_setter() {
    let mut engine = RnoteEngine::new();
    engine.set_pen_sounds(true);
    assert!(engine.pen_sounds());
    engine.set_pen_sounds(false);
    assert!(!engine.pen_sounds());
}

#[test]
fn style_override_counts_first() {
    let mut engine = RnoteEngine::new();
    engine.pen_style = PenStyle::Eraser;
    assert_eq!(engine.current_style_w_override(), PenStyle::Eraser);
    engine.pen_style_override = Some(PenStyle::Selector);
    assert_eq!(engine.current_style_w_override(), PenStyle::Selector);
    assert!(!engine.pen_needs_cancel());
}

#[test]
fn quit_task_sets_only_quit() {
    let mut engine = RnoteEngine::new();
    let a = engine.store.insert_stroke(stroke(StrokeKind::Shape, 0, 5, 1), None);
    let flags = engine.process_received_task(EngineTask::Quit);
    assert_eq!(flags, WidgetFlags { quit: true, ..no_flags() });
    assert!(matches!(engine.store.render_state(a), Some(RenderState::Dirty)));
}

#[test]
fn image_tasks_are_applied_to_busy_strokes() {
    let mut engine = RnoteEngine::new();
    engine.viewport = Aabb::new(0, 0, 10, 10);
    let a = engine.store.insert_stroke(stroke(StrokeKind::Shape, 0, 5, 1), None);
    let jobs = engine.update_rendering_current_viewport();
    assert_eq!(jobs.len(), 1);
    assert_eq!(jobs[0].key, a);
    assert_eq!(jobs[0].image_scale, 1000);
    let expected = WidgetFlags { redraw: true, indicate_changed_store: true, ..no_flags() };
    let flags = engine
        .process_received_task(EngineTask::UpdateStrokeWithImages { key: a, images: vec![image(1)] });
    assert_eq!(flags, expected);
    let flags = engine
        .process_received_task(EngineTask::AppendImagesToStroke { key: a, images: vec![image(2)] });
    assert_eq!(flags, expected);
    match engine.store.render_state(a) {
        Some(RenderState::Rendered(images)) => assert_eq!(**images, vec![image(1), image(2)]),
        other => panic!("{:?}", other),
    }
}

#[test]
fn task_for_removed_key_is_a_no_op() {
    let mut engine = RnoteEngine::new();
    engine.viewport = Aabb::new(0, 0, 10, 10);
    let a = engine.store.insert_stroke(stroke(StrokeKind::Shape, 0, 5, 1), None);
    let b = engine.store.insert_stroke(stroke(StrokeKind::Shape, 0, 5, 2), None);
    engine.update_rendering_current_viewport();
    engine.store.remove_stroke(a);
    let flags = engine
        .process_received_task(EngineTask::UpdateStrokeWithImages { key: a, images: vec![image(1)] });
    assert_eq!(flags, WidgetFlags { redraw: true, indicate_changed_store: true, ..no_flags() });
    engine.process_received_task(EngineTask::AppendImagesToStroke { key: a, images: vec![image(1)] });
    assert!(!engine.store.contains(a));
    assert_eq!(engine.store.keys_unordered(), vec![b]);
    assert!(matches!(engine.store.render_state(b), Some(RenderState::Busy)));
}

#[test]
fn task_for_redirtied_stroke_leaves_it_dirty() {
    let mut engine = RnoteEngine::new();
    engine.viewport = Aabb::new(0, 0, 10, 10);
    let a = engine.store.insert_stroke(stroke(StrokeKind::Shape, 0, 5, 1), None);
    engine.store.set_rendering_dirty(a);
    let jobs = engine.update_rendering_current_viewport();
    assert_eq!(jobs.len(), 1);
    assert!(engine.store.update_stroke(a, stroke(StrokeKind::Shape, 1, 6, 2)));
    engine.process_received_task(EngineTask::UpdateStrokeWithImages { key: a, images: vec![image(1)] });
    assert!(matches!(engine.store.render_state(a), Some(RenderState::Dirty)));
}

#[test]
fn engine_undo_restores_and_hands_out_jobs() {
    let mut engine = RnoteEngine::new();
    engine.viewport = Aabb::new(0, 0, 10, 10);
    engine.pen_style_override = Some(PenStyle::Eraser);
    let a = engine.store.insert_stroke(stroke(StrokeKind::Shape, 0, 5, 1), None);
    let far = engine.store.insert_stroke(stroke(StrokeKind::Shape, 50, 55, 2), None);
    assert_eq!(engine.record(), WidgetFlags { refresh_ui: true, ..no_flags() });
    engine.store.remove_stroke(a);
    let r = engine.undo();
    assert_eq!(
        r.widget_flags,
        WidgetFlags { quit: false, redraw: true, resize: true, refresh_ui: true, indicate_changed_store: true }
    );
    assert_eq!(r.jobs.len(), 1);
    assert_eq!(r.jobs[0].key, a);
    assert!(matches!(engine.store.render_state(a), Some(RenderState::Busy)));
    assert!(matches!(engine.store.render_state(far), Some(RenderState::Dirty)));
    assert_eq!(engine.pen_style, PenStyle::Brush);
    assert_eq!(engine.pen_style_override, Some(PenStyle::Eraser));

    let r = engine.redo();
    assert!(r.widget_flags.redraw && r.widget_flags.indicate_changed_store);
    assert!(r.jobs.is_empty());
    assert!(!engine.store.contains(a));
}

#[test]
fn engine_undo_with_nothing_recorded_only_asks_for_redraw() {
    let mut engine = RnoteEngine::new();
    engine.viewport = Aabb::new(0, 0, 10, 10);
    let a = engine.store.insert_stroke(stroke(StrokeKind::Shape, 0, 5, 1), None);
    let r = engine.undo();
    assert_eq!(r.widget_flags, WidgetFlags { redraw: true, ..no_flags() });
    assert_eq!(r.jobs.len(), 1);
    assert!(engine.store.contains(a));
    let r = engine.redo();
    assert_eq!(r.widget_flags, WidgetFlags { redraw: true, ..no_flags() });
    assert!(r.jobs.is_empty());
}

#[test]
fn engine_undo_to_a_selection_switches_to_the_selector() {
    let mut engine = RnoteEngine::new();
    engine.pen_style = PenStyle::Shaper;
    engine.pen_style_override = Some(PenStyle::Eraser);
    let a = engine.store.insert_stroke(stroke(StrokeKind::Shape, 0, 5, 1), None);
    engine.store.set_selected(a, true);
    engine.record();
    engine.store.set_selected(a, false);
    let r = engine.undo();
    assert!(r.widget_flags.refresh_ui);
    assert_eq!(engine.pen_style, PenStyle::Selector);
    assert_eq!(engine.pen_style_override, None);
    assert_eq!(engine.store.selected(a), Some(true));
    assert!(!engine.pen_needs_cancel());
}

#[test]
fn engine_clear_empties_the_store() {
    let mut engine = RnoteEngine::new();
    engine.store.insert_stroke(stroke(StrokeKind::Shape, 0, 5, 1), None);
    engine.record();
    engine.clear();
    assert!(engine.store.keys_unordered().is_empty());
    let r = engine.undo();
    assert_eq!(r.widget_flags, WidgetFlags { redraw: true, ..no_flags() });
    assert!(engine.store.keys_unordered().is_empty());
}

#[test]
fn content_kinds() {
    assert_eq!(content_kind(StrokeKind::BrushPath), ContentKind::Stroke);
    assert_eq!(content_kind(StrokeKind::Shape), ContentKind::Stroke);
    assert_eq!(content_kind(StrokeKind::Text), ContentKind::Text);
    assert_eq!(content_kind(StrokeKind::Image), ContentKind::Image);
}

#[test]
fn page_content_is_moved_to_page_origin_and_sorted_by_kind() {
    let mut engine = RnoteEngine::new();
    let text = engine.store.insert_stroke(stroke(StrokeKind::Text, 110, 120, 1), None);
    let brush = engine.store.insert_stroke(stroke(StrokeKind::BrushPath, 150, 260, 2), None);
    let picture =
        engine.store.insert_stroke(stroke(StrokeKind::Image, 100, 130, 3), Some(StrokeLayer::Image));
    let shape = engine.store.insert_stroke(stroke(StrokeKind::Shape, 190, 195, 4), Some(StrokeLayer::Document));
    let trashed = engine.store.insert_stroke(stroke(StrokeKind::Shape, 120, 125, 5), None);
    engine.store.set_trashed(trashed, true);
    let _elsewhere = engine.store.insert_stroke(stroke(StrokeKind::Shape, 300, 310, 6), None);
    let page = Aabb::new(100, 100, 200, 200);

    let content = engine.store.page_content(page);
    assert_eq!(content.bounds, page);
    assert_eq!(
        content.strokes,
        vec![stroke(StrokeKind::Shape, 90, 95, 4), stroke(StrokeKind::BrushPath, 50, 160, 2)]
    );
    assert_eq!(content.texts, vec![stroke(StrokeKind::Text, 10, 20, 1)]);
    assert_eq!(content.images, vec![stroke(StrokeKind::Image, 0, 30, 3)]);

    let pages = vec![page, Aabb::new(200, 200, 300, 300), Aabb::new(-100, -100, 0, 0)];
    let per_page: Vec<(Aabb, Vec<StrokeKey>)> = engine.store.pages_strokes(&pages);
    assert_eq!(per_page.len(), 3);
    assert_eq!(per_page[0], (page, vec![shape, picture, text, brush]));
    assert_eq!(per_page[1].0, pages[1]);
    assert_eq!(per_page[1].1.len(), 2);
    assert_eq!(per_page[1].1[0], brush);
    assert_eq!(per_page[2], (pages[2], vec![]));

    let contents = engine.pages_content(&pages);
    assert_eq!(contents.len(), 3);
    assert_eq!(contents[0].texts, vec![stroke(StrokeKind::Text, 10, 20, 1)]);
    assert_eq!(contents[1].strokes.len(), 2);
    assert_eq!(contents[1].strokes[0], stroke(StrokeKind::BrushPath, -50, 60, 2));
    assert!(contents[2].strokes.is_empty() && contents[2].texts.is_empty() && contents[2].images.is_empty());
}

#[test]
fn page_content_leaves_out_what_cannot_be_moved() {
    let mut engine = RnoteEngine::new();
    engine.store.insert_stroke(
        Stroke::new(StrokeKind::Shape, Aabb::new(i64::MAX - 10, 0, i64::MAX, 5), vec![1]),
        None,
    );
    engine.store.insert_stroke(Stroke::new(StrokeKind::Shape, Aabb::new(-50, -50, 5, 5), vec![2]), None);
    let page = Aabb::new(-100, -100, i64::MAX, 100);
    let content = engine.store.page_content(page);
    assert_eq!(content.strokes, vec![Stroke::new(StrokeKind::Shape, Aabb::new(50, 50, 105, 105), vec![2])]);
    let unreachable = Aabb::new(i64::MIN, 0, 10, 10);
    let content = engine.store.page_content(unreachable);
    assert!(content.strokes.is_empty());
    assert_eq!(content.bounds, unreachable);
}

#[test]
fn pages_with_content_are_those_that_show_a_stroke() {
    let mut engine = RnoteEngine::new();
    let a = engine.store.insert_stroke(stroke(StrokeKind::Shape, 10, 20, 1), None);
    let b = engine.store.insert_stroke(stroke(StrokeKind::Shape, 250, 260, 2), None);
    let pages = vec![
        Aabb::new(0, 0, 100, 100),
        Aabb::new(100, 100, 200, 200),
        Aabb::new(200, 200, 300, 300),
        Aabb::new(0, 0, 5, 5),
        Aabb::new(20, 20, 30, 30),
    ];
    assert_eq!(engine.store.pages_w_content(&pages), vec![0, 2, 4]);
    assert!(engine.store.shows_in(pages[0]));
    assert!(!engine.store.shows_in(pages[1]));
    engine.store.set_trashed(a, true);
    assert_eq!(engine.store.pages_w_content(&pages), vec![2]);
    engine.store.remove_stroke(b);
    assert_eq!(engine.store.pages_w_content(&pages), Vec::<usize>::new());
    assert_eq!(engine.store.pages_w_content(&vec![]), Vec::<usize>::new());
}
