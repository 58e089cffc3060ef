//! Axis-aligned rectangles on the integer document grid.

use vstd::prelude::*;

verus! {

/// An axis-aligned rectangle. Both corners belong to it, so two rectangles that
/// share only an edge or a corner still intersect.
///
/// Nothing demands `min <= max`: a rectangle with `min > max` on an axis is empty
/// and intersects nothing on that axis that lies inside it.
#[derive(Clone, Copy, Debug, PartialEq, Eq, Structural)]
pub struct Aabb {
    pub min_x: i64,
    pub min_y: i64,
    pub max_x: i64,
    pub max_y: i64,
}

impl Aabb {
    /// The two rectangles have a point in common.
    pub open spec fn intersects_spec(self, other: Aabb) -> bool {
        &&& self.min_x <= other.max_x
        &&& other.min_x <= self.max_x
        &&& self.min_y <= other.max_y
        &&& other.min_y <= self.max_y
    }

    /// `other` lies inside `self`.
    pub open spec fn contains_spec(self, other: Aabb) -> bool {
        &&& self.min_x <= other.min_x
        &&& other.max_x <= self.max_x
        &&& self.min_y <= other.min_y
        &&& other.max_y <= self.max_y
    }

    /// The smallest rectangle that holds both.
    pub open spec fn merged_spec(self, other: Aabb) -> Aabb {
        Aabb {
            min_x: if self.min_x <= other.min_x { self.min_x } else { other.min_x },
            min_y: if self.min_y <= other.min_y { self.min_y } else { other.min_y },
            max_x: if self.max_x >= other.max_x { self.max_x } else { other.max_x },
            max_y: if self.max_y >= other.max_y { self.max_y } else { other.max_y },
        }
    }

    /// Whether the rectangle moved by `(dx, dy)` still has `i64` corners.
    pub open spec fn can_translate(self, dx: i64, dy: i64) -> bool {
        &&& i64::MIN <= self.min_x + dx <= i64::MAX
        &&& i64::MIN <= self.max_x + dx <= i64::MAX
        &&& i64::MIN <= self.min_y + dy <= i64::MAX
        &&& i64::MIN <= self.max_y + dy <= i64::MAX
    }

    /// The rectangle moved by `(dx, dy)`.
    pub open spec fn translated_spec(self, dx: i64, dy: i64) -> Aabb
        recommends
            self.can_translate(dx, dy),
    {
        Aabb {
            min_x: (self.min_x + dx) as i64,
            min_y: (self.min_y + dy) as i64,
            max_x: (self.max_x + dx) as i64,
            max_y: (self.max_y + dy) as i64,
        }
    }

    /// The rectangle with the given corners.
    pub fn new(min_x: i64, min_y: i64, max_x: i64, max_y: i64) -> (r: Aabb)
        ensures
            r == (Aabb { min_x, min_y, max_x, max_y }),
    {
        Aabb { min_x, min_y, max_x, max_y }
    }

    /// Whether the two rectangles have a point in common.
    pub fn intersects(&self, other: &Aabb) -> (r: bool)
        ensures
            r == self.intersects_spec(*other),
    {
        self.min_x <= other.max_x && other.min_x <= self.max_x && self.min_y <= other.max_y
            && other.min_y <= self.max_y
    }

    /// Whether `other` lies inside `self`.
    pub fn contains(&self, other: &Aabb) -> (r: bool)
        ensures
            r == self.contains_spec(*other),
    {
        self.min_x <= other.min_x && other.max_x <= self.max_x && self.min_y <= other.min_y
            && other.max_y <= self.max_y
    }

    /// The smallest rectangle that holds both.
    pub fn merged(&self, other: &Aabb) -> (r: Aabb)
        ensures
            r == self.merged_spec(*other),
    {
        Aabb {
            min_x: if self.min_x <= other.min_x { self.min_x } else { other.min_x },
            min_y: if self.min_y <= other.min_y { self.min_y } else { other.min_y },
            max_x: if self.max_x >= other.max_x { self.max_x } else { other.max_x },
            max_y: if self.max_y >= other.max_y { self.max_y } else { other.max_y },
        }
    }

    /// The rectangle moved by `(dx, dy)`, or `None` where a corner would leave `i64`.
    pub fn translated(&self, dx: i64, dy: i64) -> (r: Option<Aabb>)
        ensures
            self.can_translate(dx, dy) ==> r == Some(self.translated_spec(dx, dy)),
            !self.can_translate(dx, dy) ==> r.is_none(),
    {
        let min_x = self.min_x.checked_add(dx);
        let max_x = self.max_x.checked_add(dx);
        let min_y = self.min_y.checked_add(dy);
        let max_y = self.max_y.checked_add(dy);
        match (min_x, min_y, max_x, max_y) {
            (Some(min_x), Some(min_y), Some(max_x), Some(max_y)) => Some(
                Aabb { min_x, min_y, max_x, max_y },
            ),
            _ => None,
        }
    }
}

/// A rectangle that meets `query` makes every rectangle around it meet `query` too.
pub proof fn lemma_intersects_monotone(inner: Aabb, outer: Aabb, query: Aabb)
    requires
        outer.contains_spec(inner),
        inner.intersects_spec(query),
    ensures
        outer.intersects_spec(query),
{
}

/// Merging gives a rectangle around both arguments, and around whatever either was around.
pub proof fn lemma_merged_contains(a: Aabb, b: Aabb)
    ensures
        forall|c: Aabb| a.contains_spec(c) ==> #[trigger] a.merged_spec(b).contains_spec(c),
        forall|c: Aabb| b.contains_spec(c) ==> #[trigger] a.merged_spec(b).contains_spec(c),
{
}

} // verus!
