//! Integer 2D points and the min/max bounding rectangle used to track dirty
//! regions of a chunk.

use vstd::prelude::*;

verus! {

/// Halving as the machine's signed division computes it: rounding toward zero.
pub open spec fn div2_toward_zero(s: int) -> int {
    if s >= 0 {
        s / 2
    } else {
        -((-s) / 2)
    }
}

/// A 2D point (or vector) with integer coordinates.
#[derive(Clone, Copy, PartialEq, Eq, Structural, Debug)]
pub struct Point {
    pub x: i32,
    pub y: i32,
}

impl Point {
    pub fn new(x: i32, y: i32) -> (r: Point)
        ensures
            r.x == x,
            r.y == y,
    {
        Point { x, y }
    }
}

/// An axis-aligned rectangle given by inclusive `min`/`max` corners.
///
/// The canonical empty value puts `min` at the largest representable point and
/// `max` at the smallest, so that `min.x > max.x || min.y > max.y`
/// characterises emptiness; every operation checks this explicitly.
#[derive(Clone, Copy, PartialEq, Eq, Structural, Debug)]
pub struct BoundRect {
    pub min: Point,
    pub max: Point,
}

impl BoundRect {
    /// The rectangle is empty: it contains no point at all.
    pub open spec fn spec_is_empty(self) -> bool {
        self.min.x > self.max.x || self.min.y > self.max.y
    }

    /// The rectangle contains the point `(x, y)`.
    pub open spec fn spec_contains(self, x: int, y: int) -> bool {
        self.min.x <= x <= self.max.x && self.min.y <= y <= self.max.y
    }

    /// The canonical empty rectangle.
    pub open spec fn spec_empty() -> BoundRect {
        BoundRect {
            min: Point { x: i32::MAX, y: i32::MAX },
            max: Point { x: i32::MIN, y: i32::MIN },
        }
    }

    /// The bounding box of the two rectangles: the canonical empty value when
    /// both are empty, the non-empty side when one is, the elementwise
    /// min/max of the corners otherwise.
    pub open spec fn spec_union(self, other: BoundRect) -> BoundRect {
        if self.spec_is_empty() && other.spec_is_empty() {
            BoundRect::spec_empty()
        } else if other.spec_is_empty() {
            self
        } else if self.spec_is_empty() {
            other
        } else {
            BoundRect {
                min: Point {
                    x: if self.min.x <= other.min.x {
                        self.min.x
                    } else {
                        other.min.x
                    },
                    y: if self.min.y <= other.min.y {
                        self.min.y
                    } else {
                        other.min.y
                    },
                },
                max: Point {
                    x: if self.max.x >= other.max.x {
                        self.max.x
                    } else {
                        other.max.x
                    },
                    y: if self.max.y >= other.max.y {
                        self.max.y
                    } else {
                        other.max.y
                    },
                },
            }
        }
    }

    /// The rectangle extended to cover the point: the single-point rectangle
    /// when it was empty, the elementwise min/max with the point otherwise.
    pub open spec fn spec_union_point(self, p: Point) -> BoundRect {
        if self.spec_is_empty() {
            BoundRect { min: p, max: p }
        } else {
            BoundRect {
                min: Point {
                    x: if self.min.x <= p.x {
                        self.min.x
                    } else {
                        p.x
                    },
                    y: if self.min.y <= p.y {
                        self.min.y
                    } else {
                        p.y
                    },
                },
                max: Point {
                    x: if self.max.x >= p.x {
                        self.max.x
                    } else {
                        p.x
                    },
                    y: if self.max.y >= p.y {
                        self.max.y
                    } else {
                        p.y
                    },
                },
            }
        }
    }

    pub fn empty() -> (r: BoundRect)
        ensures
            r == BoundRect::spec_empty(),
            r.spec_is_empty(),
            forall|x: int, y: int| !r.spec_contains(x, y),
            r.min.x == i32::MAX && r.min.y == i32::MAX,
            r.max.x == i32::MIN && r.max.y == i32::MIN,
    {
        BoundRect {
            min: Point { x: i32::MAX, y: i32::MAX },
            max: Point { x: i32::MIN, y: i32::MIN },
        }
    }

    pub fn is_empty(&self) -> (r: bool)
        ensures
            r == self.spec_is_empty(),
    {
        (self.min.x == i32::MAX && self.min.y == i32::MAX && self.max.x == i32::MIN
            && self.max.y == i32::MIN) || self.min.x > self.max.x || self.min.y > self.max.y
    }

    pub fn contains(&self, point: &Point) -> (r: bool)
        ensures
            r == self.spec_contains(point.x as int, point.y as int),
    {
        point.x >= self.min.x && point.y >= self.min.y && point.x <= self.max.x
            && point.y <= self.max.y
    }

    /// Bounding box of the two rectangles: the smallest rectangle containing
    /// every point of both. If one side is empty the other is returned.
    pub fn union(&self, other: &BoundRect) -> (r: BoundRect)
        ensures
            r == self.spec_union(*other),
            forall|x: int, y: int|
                self.spec_contains(x, y) || other.spec_contains(x, y) ==> r.spec_contains(x, y),
            r.spec_is_empty() <==> self.spec_is_empty() && other.spec_is_empty(),
            self.spec_is_empty() && other.spec_is_empty() ==> r.min.x > r.max.x && r.min.y
                > r.max.y,
            !self.spec_is_empty() && other.spec_is_empty() ==> r == *self,
            self.spec_is_empty() && !other.spec_is_empty() ==> r == *other,
            !self.spec_is_empty() && !other.spec_is_empty() ==> (r.min.x == (if self.min.x
                <= other.min.x {
                self.min.x
            } else {
                other.min.x
            }) && r.min.y == (if self.min.y <= other.min.y {
                self.min.y
            } else {
                other.min.y
            }) && r.max.x == (if self.max.x >= other.max.x {
                self.max.x
            } else {
                other.max.x
            }) && r.max.y == (if self.max.y >= other.max.y {
                self.max.y
            } else {
                other.max.y
            })),
    {
        if !self.is_empty() && other.is_empty() {
            return *self;
        } else if self.is_empty() && !other.is_empty() {
            return *other;
        } else if self.is_empty() && other.is_empty() {
            return BoundRect::empty();
        }
        BoundRect {
            min: Point {
                x: if self.min.x <= other.min.x {
                    self.min.x
                } else {
                    other.min.x
                },
                y: if self.min.y <= other.min.y {
                    self.min.y
                } else {
                    other.min.y
                },
            },
            max: Point {
                x: if self.max.x >= other.max.x {
                    self.max.x
                } else {
                    other.max.x
                },
                y: if self.max.y >= other.max.y {
                    self.max.y
                } else {
                    other.max.y
                },
            },
        }
    }

    /// Extends the rectangle to cover `point`; an empty rectangle becomes the
    /// single-point rectangle at `point`.
    pub fn union_point(&self, point: &Point) -> (r: BoundRect)
        ensures
            r == self.spec_union_point(*point),
            r.spec_contains(point.x as int, point.y as int),
            forall|x: int, y: int| self.spec_contains(x, y) ==> r.spec_contains(x, y),
            !r.spec_is_empty(),
            self.spec_is_empty() ==> r.min == *point && r.max == *point,
            !self.spec_is_empty() ==> (r.min.x == (if self.min.x <= point.x {
                self.min.x
            } else {
                point.x
            }) && r.min.y == (if self.min.y <= point.y {
                self.min.y
            } else {
                point.y
            }) && r.max.x == (if self.max.x >= point.x {
                self.max.x
            } else {
                point.x
            }) && r.max.y == (if self.max.y >= point.y {
                self.max.y
            } else {
                point.y
            })),
    {
        if self.is_empty() {
            return BoundRect { min: *point, max: *point };
        }
        BoundRect {
            min: Point {
                x: if self.min.x <= point.x {
                    self.min.x
                } else {
                    point.x
                },
                y: if self.min.y <= point.y {
                    self.min.y
                } else {
                    point.y
                },
            },
            max: Point {
                x: if self.max.x >= point.x {
                    self.max.x
                } else {
                    point.x
                },
                y: if self.max.y >= point.y {
                    self.max.y
                } else {
                    point.y
                },
            },
        }
    }

    /// Bounding box of an explicit point list; empty list gives the empty
    /// rectangle.
    pub fn from_points(points: &Vec<Point>) -> (r: BoundRect)
        ensures
            forall|i: int|
                0 <= i < points@.len() ==> r.spec_contains(
                    points@[i].x as int,
                    points@[i].y as int,
                ),
            r.spec_is_empty() <==> points@.len() == 0,
            points@.len() == 0 ==> r == BoundRect::spec_empty(),
            points@.len() == 0 ==> r.min.x > r.max.x && r.min.y > r.max.y,
            !r.spec_is_empty() ==> (exists|i: int|
                0 <= i < points@.len() && points@[i].x == r.min.x),
            !r.spec_is_empty() ==> (exists|i: int|
                0 <= i < points@.len() && points@[i].y == r.min.y),
            !r.spec_is_empty() ==> (exists|i: int|
                0 <= i < points@.len() && points@[i].x == r.max.x),
            !r.spec_is_empty() ==> (exists|i: int|
                0 <= i < points@.len() && points@[i].y == r.max.y),
    {
        let mut rect = BoundRect::empty();
        let mut i: usize = 0;
        while i < points.len()
            invariant
                i <= points@.len(),
                forall|j: int|
                    0 <= j < i ==> rect.spec_contains(points@[j].x as int, points@[j].y as int),
                rect.spec_is_empty() <==> i == 0,
                i == 0 ==> rect == BoundRect::spec_empty(),
                i == 0 ==> rect.min.x > rect.max.x && rect.min.y > rect.max.y,
                !rect.spec_is_empty() ==> (exists|j: int| 0 <= j < i && points@[j].x == rect.min.x),
                !rect.spec_is_empty() ==> (exists|j: int| 0 <= j < i && points@[j].y == rect.min.y),
                !rect.spec_is_empty() ==> (exists|j: int| 0 <= j < i && points@[j].x == rect.max.x),
                !rect.spec_is_empty() ==> (exists|j: int| 0 <= j < i && points@[j].y == rect.max.y),
            decreases points@.len() - i,
        {
            rect = rect.union_point(&points[i]);
            i = i + 1;
        }
        rect
    }

    /// Union is commutative: the empty case is pinned to the canonical empty
    /// value, so the result is the same rectangle either way around.
    pub proof fn lemma_union_commutes(a: BoundRect, b: BoundRect)
        ensures
            a.spec_union(b) == b.spec_union(a),
    {
    }

    /// Midpoint of the corners, rounding toward zero.
    pub fn center(&self) -> (r: Point)
        requires
            !self.spec_is_empty(),
        ensures
            r.x == div2_toward_zero(self.min.x + self.max.x),
            r.y == div2_toward_zero(self.min.y + self.max.y),
    {
        Point { x: ((self.min.x as i64 + self.max.x as i64) / 2) as i32, y: ((self.min.y as i64
            + self.max.y as i64) / 2) as i32 }
    }

    /// Extent of the rectangle as the difference of the corners (one less than
    /// the number of covered columns and rows).
    pub fn size(&self) -> (r: Point)
        requires
            !self.spec_is_empty(),
            self.max.x - self.min.x <= i32::MAX,
            self.max.y - self.min.y <= i32::MAX,
        ensures
            r.x == self.max.x - self.min.x,
            r.y == self.max.y - self.min.y,
    {
        Point { x: ((self.max.x as i64 - self.min.x as i64)) as i32, y: ((self.max.y as i64
            - self.min.y as i64)) as i32 }
    }
}

} // verus!
