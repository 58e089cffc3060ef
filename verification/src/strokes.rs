//! Stroke content and the images rendered from it.

use vstd::prelude::*;

use crate::geometry::Aabb;

verus! {

/// The closed set of things that can be drawn.
#[derive(Clone, Copy, Debug, PartialEq, Eq, Structural)]
pub enum StrokeKind {
    BrushPath,
    Shape,
    Text,
    Image,
}

/// What a stroke is, as a value.
pub struct StrokeView {
    pub kind: StrokeKind,
    pub bounds: Aabb,
    pub payload: Seq<u8>,
}

/// One drawable object: where it lies, and the geometry and style that a
/// renderer draws relative to the lower corner of `bounds`.
#[derive(Debug, PartialEq, Eq)]
pub struct Stroke {
    pub kind: StrokeKind,
    pub bounds: Aabb,
    pub payload: Vec<u8>,
}

impl View for Stroke {
    type V = StrokeView;

    open spec fn view(&self) -> StrokeView {
        StrokeView { kind: self.kind, bounds: self.bounds, payload: self.payload@ }
    }
}

impl Stroke {
    /// The stroke of the given kind, with the given bounds and payload.
    pub fn new(kind: StrokeKind, bounds: Aabb, payload: Vec<u8>) -> (r: Stroke)
        ensures
            r@ == (StrokeView { kind, bounds, payload: payload@ }),
    {
        Stroke { kind, bounds, payload }
    }

    /// Where the stroke lies.
    pub fn bounds(&self) -> (r: Aabb)
        ensures
            r == self@.bounds,
    {
        self.bounds
    }

    /// The same stroke moved by `(dx, dy)`, or `None` where its bounds would leave `i64`.
    pub fn translated(&self, dx: i64, dy: i64) -> (r: Option<Stroke>)
        ensures
            self@.bounds.can_translate(dx, dy) ==> r.is_some() && r.unwrap()@ == (StrokeView {
                bounds: self@.bounds.translated_spec(dx, dy),
                ..self@
            }),
            !self@.bounds.can_translate(dx, dy) ==> r.is_none(),
    {
        match self.bounds.translated(dx, dy) {
            Some(bounds) => Some(
                Stroke { kind: self.kind, bounds, payload: self.payload.clone() },
            ),
            None => None,
        }
    }

    /// An independent copy.
    pub fn duplicate(&self) -> (r: Stroke)
        ensures
            r@ == self@,
    {
        Stroke { kind: self.kind, bounds: self.bounds, payload: self.payload.clone() }
    }
}

impl Clone for Stroke {
    fn clone(&self) -> (r: Self)
        ensures
            r@ == self@,
    {
        self.duplicate()
    }
}

/// What a rendered image is, as a value.
pub struct StrokeImageView {
    pub bounds: Aabb,
    pub pixel_width: u32,
    pub pixel_height: u32,
    pub data: Seq<u8>,
}

/// One rendered image of a stroke, or of a part of it.
#[derive(Debug, PartialEq, Eq)]
pub struct StrokeImage {
    pub bounds: Aabb,
    pub pixel_width: u32,
    pub pixel_height: u32,
    pub data: Vec<u8>,
}

impl View for StrokeImage {
    type V = StrokeImageView;

    open spec fn view(&self) -> StrokeImageView {
        StrokeImageView {
            bounds: self.bounds,
            pixel_width: self.pixel_width,
            pixel_height: self.pixel_height,
            data: self.data@,
        }
    }
}

impl StrokeImage {
    /// An independent copy.
    pub fn duplicate(&self) -> (r: StrokeImage)
        ensures
            r@ == self@,
    {
        StrokeImage {
            bounds: self.bounds,
            pixel_width: self.pixel_width,
            pixel_height: self.pixel_height,
            data: self.data.clone(),
        }
    }
}

impl Clone for StrokeImage {
    fn clone(&self) -> (r: Self)
        ensures
            r@ == self@,
    {
        self.duplicate()
    }
}

} // verus!
