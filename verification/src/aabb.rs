//! Axis-aligned bounding boxes.
//!
//! Coordinates are order keys: signed integers that compare exactly as the
//! scene's coordinates do.  Nothing here adds, scales or divides a coordinate;
//! boxes are only built, compared, clipped and cut, so every statement made
//! about keys carries over to the coordinates they stand for.

use vstd::prelude::*;

verus! {

/// One of the three coordinate axes.
#[derive(Copy, Clone, Debug, PartialEq, Eq, Structural)]
pub enum Axis {
    X,
    Y,
    Z,
}

/// A position, one order key per axis.
#[derive(Copy, Clone, Debug, PartialEq, Eq, Structural)]
pub struct Point {
    pub x: i64,
    pub y: i64,
    pub z: i64,
}

/// The smaller of two keys.
pub open spec fn key_min(a: i64, b: i64) -> i64 {
    if a <= b {
        a
    } else {
        b
    }
}

/// The larger of two keys.
pub open spec fn key_max(a: i64, b: i64) -> i64 {
    if a >= b {
        a
    } else {
        b
    }
}

/// Executable form of [`key_min`].
pub fn min_key(a: i64, b: i64) -> (m: i64)
    ensures
        m == key_min(a, b),
{
    if a <= b {
        a
    } else {
        b
    }
}

/// Executable form of [`key_max`].
pub fn max_key(a: i64, b: i64) -> (m: i64)
    ensures
        m == key_max(a, b),
{
    if a >= b {
        a
    } else {
        b
    }
}

impl Point {
    /// The key of this point along `axis`.
    pub open spec fn coord(self, axis: Axis) -> i64 {
        match axis {
            Axis::X => self.x,
            Axis::Y => self.y,
            Axis::Z => self.z,
        }
    }

    /// This point with its key along `axis` replaced by `value`.
    pub open spec fn with_coord(self, axis: Axis, value: i64) -> Point {
        match axis {
            Axis::X => Point { x: value, ..self },
            Axis::Y => Point { y: value, ..self },
            Axis::Z => Point { z: value, ..self },
        }
    }

    pub fn new(x: i64, y: i64, z: i64) -> (p: Point)
        ensures
            p == (Point { x, y, z }),
    {
        Point { x, y, z }
    }

    pub fn get(&self, axis: Axis) -> (c: i64)
        ensures
            c == self.coord(axis),
    {
        match axis {
            Axis::X => self.x,
            Axis::Y => self.y,
            Axis::Z => self.z,
        }
    }

    pub fn set(&mut self, axis: Axis, value: i64)
        ensures
            *final(self) == old(self).with_coord(axis, value),
    {
        match axis {
            Axis::X => {
                self.x = value;
            },
            Axis::Y => {
                self.y = value;
            },
            Axis::Z => {
                self.z = value;
            },
        }
    }
}

/// An axis-aligned box, given by its two extreme corners.
#[derive(Copy, Clone, Debug, PartialEq, Eq, Structural)]
pub struct AABB {
    pub min: Point,
    pub max: Point,
}

impl AABB {
    /// A box is occupied when `min` does not exceed `max` on any axis.
    pub open spec fn is_valid(self) -> bool {
        &&& self.min.x <= self.max.x
        &&& self.min.y <= self.max.y
        &&& self.min.z <= self.max.z
    }

    /// Whether `p` lies in the box, faces included.
    pub open spec fn contains(self, p: Point) -> bool {
        &&& self.min.x <= p.x <= self.max.x
        &&& self.min.y <= p.y <= self.max.y
        &&& self.min.z <= p.z <= self.max.z
    }

    /// Whether every point of `inner` lies in `self`.
    pub open spec fn encloses(self, inner: AABB) -> bool {
        &&& self.min.x <= inner.min.x && inner.max.x <= self.max.x
        &&& self.min.y <= inner.min.y && inner.max.y <= self.max.y
        &&& self.min.z <= inner.min.z && inner.max.z <= self.max.z
    }

    /// The smallest box that holds both `self` and `other`.
    pub open spec fn hull(self, other: AABB) -> AABB {
        AABB {
            min: Point {
                x: key_min(self.min.x, other.min.x),
                y: key_min(self.min.y, other.min.y),
                z: key_min(self.min.z, other.min.z),
            },
            max: Point {
                x: key_max(self.max.x, other.max.x),
                y: key_max(self.max.y, other.max.y),
                z: key_max(self.max.z, other.max.z),
            },
        }
    }

    /// The box that holds nothing and leaves every hull unchanged.
    pub open spec fn nothing() -> AABB {
        AABB {
            min: Point { x: i64::MAX, y: i64::MAX, z: i64::MAX },
            max: Point { x: i64::MIN, y: i64::MIN, z: i64::MIN },
        }
    }

    /// The part of `self` on the low side of the cut `axis = value`.
    pub open spec fn below(self, axis: Axis, value: i64) -> AABB {
        AABB { min: self.min, max: self.max.with_coord(axis, value) }
    }

    /// The part of `self` on the high side of the cut `axis = value`.
    pub open spec fn above(self, axis: Axis, value: i64) -> AABB {
        AABB { min: self.min.with_coord(axis, value), max: self.max }
    }

    /// Lower end of `item`'s extent along `axis`, clipped to this box.
    pub open spec fn clip_low(self, item: AABB, axis: Axis) -> i64 {
        key_max(item.min.coord(axis), self.min.coord(axis))
    }

    /// Upper end of `item`'s extent along `axis`, clipped to this box.
    pub open spec fn clip_high(self, item: AABB, axis: Axis) -> i64 {
        key_min(item.max.coord(axis), self.max.coord(axis))
    }

    pub fn new(min: Point, max: Point) -> (b: AABB)
        ensures
            b == (AABB { min, max }),
    {
        AABB { min, max }
    }

    /// The empty box from which a hull is grown.
    pub fn empty() -> (b: AABB)
        ensures
            b == AABB::nothing(),
    {
        AABB {
            min: Point { x: i64::MAX, y: i64::MAX, z: i64::MAX },
            max: Point { x: i64::MIN, y: i64::MIN, z: i64::MIN },
        }
    }

    /// Grows the box until it also holds `other`.
    pub fn enclose(&mut self, other: &AABB)
        ensures
            *final(self) == old(self).hull(*other),
    {
        self.min.x = min_key(self.min.x, other.min.x);
        self.min.y = min_key(self.min.y, other.min.y);
        self.min.z = min_key(self.min.z, other.min.z);
        self.max.x = max_key(self.max.x, other.max.x);
        self.max.y = max_key(self.max.y, other.max.y);
        self.max.z = max_key(self.max.z, other.max.z);
    }

    /// The bounding box of a triangle with corners `a`, `b` and `c`.
    pub fn of_triangle(a: &Point, b: &Point, c: &Point) -> (bound: AABB)
        ensures
            bound.min.x == key_min(key_min(a.x, b.x), c.x),
            bound.min.y == key_min(key_min(a.y, b.y), c.y),
            bound.min.z == key_min(key_min(a.z, b.z), c.z),
            bound.max.x == key_max(key_max(a.x, b.x), c.x),
            bound.max.y == key_max(key_max(a.y, b.y), c.y),
            bound.max.z == key_max(key_max(a.z, b.z), c.z),
            bound.is_valid(),
            bound.contains(*a) && bound.contains(*b) && bound.contains(*c),
    {
        AABB {
            min: Point {
                x: min_key(min_key(a.x, b.x), c.x),
                y: min_key(min_key(a.y, b.y), c.y),
                z: min_key(min_key(a.z, b.z), c.z),
            },
            max: Point {
                x: max_key(max_key(a.x, b.x), c.x),
                y: max_key(max_key(a.y, b.y), c.y),
                z: max_key(max_key(a.z, b.z), c.z),
            },
        }
    }

    /// Whether the point lies in the box.
    pub fn holds(&self, p: &Point) -> (inside: bool)
        ensures
            inside == self.contains(*p),
    {
        self.min.x <= p.x && p.x <= self.max.x && self.min.y <= p.y && p.y <= self.max.y
            && self.min.z <= p.z && p.z <= self.max.z
    }

    /// Cuts the box in two along the plane `axis = value`.
    pub fn split(&self, axis: Axis, value: i64) -> (halves: (AABB, AABB))
        ensures
            halves.0 == self.below(axis, value),
            halves.1 == self.above(axis, value),
    {
        let mut left = *self;
        let mut right = *self;
        left.max.set(axis, value);
        right.min.set(axis, value);
        (left, right)
    }
}

/// Where a ray crosses the two planes that bound a box along one axis: the
/// ray parameter at the box's `min` plane and at its `max` plane, as order
/// keys.  Which of the two is smaller depends on the ray's direction.
#[derive(Copy, Clone, Debug, PartialEq, Eq, Structural)]
pub struct Slab {
    pub at_min: i64,
    pub at_max: i64,
}

impl Slab {
    /// The parameter at which the ray enters the slab.
    pub open spec fn enter(self) -> i64 {
        key_min(self.at_min, self.at_max)
    }

    /// The parameter at which the ray leaves the slab.
    pub open spec fn leave(self) -> i64 {
        key_max(self.at_min, self.at_max)
    }

    /// Whether the ray is between the two planes at parameter `t`.
    pub open spec fn holds(self, t: i64) -> bool {
        self.enter() <= t <= self.leave()
    }
}

/// The ray is inside all three slabs at once for some parameter.
pub open spec fn slabs_meet(x: Slab, y: Slab, z: Slab) -> bool {
    exists|t: i64| #[trigger] x.holds(t) && y.holds(t) && z.holds(t)
}

impl AABB {
    /// The slab test: whether a ray passes through a box, given where it
    /// crosses the box's three pairs of planes.  The ray hits exactly if some
    /// parameter lies within all three slabs.
    pub fn intersect(x: Slab, y: Slab, z: Slab) -> (hit: bool)
        ensures
            hit == slabs_meet(x, y, z),
            hit == (key_max(key_max(x.enter(), y.enter()), z.enter()) <= key_min(
                key_min(x.leave(), y.leave()),
                z.leave(),
            )),
    {
        let mut tmin = x.at_min;
        let mut tmax = x.at_max;
        if tmin > tmax {
            tmin = x.at_max;
            tmax = x.at_min;
        }
        let mut tymin = y.at_min;
        let mut tymax = y.at_max;
        if tymin > tymax {
            tymin = y.at_max;
            tymax = y.at_min;
        }
        if tmin > tymax || tymin > tmax {
            proof {
                assert forall|t: i64| !(#[trigger] x.holds(t) && y.holds(t) && z.holds(t)) by {}
            }
            return false;
        }
        if tymin > tmin {
            tmin = tymin;
        }
        if tymax < tmax {
            tmax = tymax;
        }
        let mut tzmin = z.at_min;
        let mut tzmax = z.at_max;
        if tzmin > tzmax {
            tzmin = z.at_max;
            tzmax = z.at_min;
        }
        if tmin > tzmax || tzmin > tmax {
            proof {
                assert forall|t: i64| !(#[trigger] x.holds(t) && y.holds(t) && z.holds(t)) by {}
            }
            return false;
        }
        proof {
            let t = key_max(tmin, tzmin);
            assert(x.holds(t) && y.holds(t) && z.holds(t));
        }
        true
    }
}

/// Something that occupies a bounded region of space.
pub trait BoundingBox {
    /// The smallest axis-aligned box around the value.
    fn bounding_box(&self) -> AABB;
}

impl BoundingBox for AABB {
    fn bounding_box(&self) -> (b: AABB)
        ensures
            b == *self,
    {
        *self
    }
}

} // verus!
