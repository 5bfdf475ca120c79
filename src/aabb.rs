//! Axis-aligned bounding boxes over order keys.
use vstd::prelude::*;
use crate::key::{is_key, KEY_INFINITY, KEY_NEG_INFINITY, KEY_NEG_ZERO};

verus! {

/// A point given by the order keys of its three coordinates.
#[derive(Clone, Copy, Debug, PartialEq, Eq, Structural)]
pub struct Corner {
    pub x: i32,
    pub y: i32,
    pub z: i32,
}

impl Corner {
    pub fn new(x: i32, y: i32, z: i32) -> (p: Corner)
        ensures
            p.x == x,
            p.y == y,
            p.z == z,
    {
        Corner { x, y, z }
    }

    /// The coordinate on axis 0 (x), 1 (y) or 2 (z).
    pub open spec fn at(self, axis: int) -> i32 {
        if axis == 0 {
            self.x
        } else if axis == 1 {
            self.y
        } else {
            self.z
        }
    }

    pub fn axis(self, axis: usize) -> (k: i32)
        requires
            axis < 3,
        ensures
            k == self.at(axis as int),
    {
        if axis == 0 {
            self.x
        } else if axis == 1 {
            self.y
        } else {
            self.z
        }
    }

    /// No coordinate is NaN.
    pub open spec fn wf(self) -> bool {
        is_key(self.x as int) && is_key(self.y as int) && is_key(self.z as int)
    }
}

/// A box given by its least and greatest corner. Two sentinels stand apart:
/// the empty box (least corner at plus infinity, greatest at minus infinity),
/// which merging ignores, and the full box, which covers all of space and is
/// the box of an unbounded primitive.
#[derive(Clone, Copy, Debug, PartialEq, Eq, Structural)]
pub struct AABB {
    pub min: Corner,
    pub max: Corner,
}

pub open spec fn min_key(a: i32, b: i32) -> i32 {
    if a <= b {
        a
    } else {
        b
    }
}

pub open spec fn max_key(a: i32, b: i32) -> i32 {
    if a >= b {
        a
    } else {
        b
    }
}

pub open spec fn corner_min(a: Corner, b: Corner) -> Corner {
    Corner { x: min_key(a.x, b.x), y: min_key(a.y, b.y), z: min_key(a.z, b.z) }
}

pub open spec fn corner_max(a: Corner, b: Corner) -> Corner {
    Corner { x: max_key(a.x, b.x), y: max_key(a.y, b.y), z: max_key(a.z, b.z) }
}

pub open spec fn same_key_everywhere(k: i32) -> Corner {
    Corner { x: k, y: k, z: k }
}

pub open spec fn empty_box() -> AABB {
    AABB { min: same_key_everywhere(KEY_INFINITY), max: same_key_everywhere(KEY_NEG_INFINITY) }
}

pub open spec fn full_box() -> AABB {
    AABB { min: same_key_everywhere(KEY_NEG_INFINITY), max: same_key_everywhere(KEY_INFINITY) }
}

/// The box of all points whose coordinates lie between those of `a` and `b`
/// on every axis.
pub open spec fn merged(a: AABB, b: AABB) -> AABB {
    AABB { min: corner_min(a.min, b.min), max: corner_max(a.max, b.max) }
}

/// The axis of the longest extent: x only if it beats both others, else y if
/// it beats z, else z. Equal extents go to the later axis.
pub open spec fn longest_of(size: Corner) -> int {
    if size.x > size.y && size.x > size.z {
        0
    } else if size.y > size.z {
        1
    } else {
        2
    }
}

/// The extents of `b` on each axis, as `extent` measures them.
pub open spec fn size_by(b: AABB, extent: spec_fn(i32, i32) -> i32) -> Corner {
    Corner { x: extent(b.min.x, b.max.x), y: extent(b.min.y, b.max.y), z: extent(b.min.z, b.max.z) }
}

/// `f` computes the spec function `g`: each result of a call is `g` of its arguments.
pub open spec fn computes2<F: Fn(i32, i32) -> i32>(f: F, g: spec_fn(i32, i32) -> i32) -> bool {
    forall|a: i32, b: i32, r: i32| #[trigger] f.ensures((a, b), r) ==> r == g(a, b)
}

pub open spec fn callable2<F: Fn(i32, i32) -> i32>(f: F) -> bool {
    forall|a: i32, b: i32| #[trigger] f.requires((a, b))
}

/// `outer` bounds `inner` corner by corner.
pub open spec fn encloses(outer: AABB, inner: AABB) -> bool {
    &&& outer.min.x <= inner.min.x && outer.min.y <= inner.min.y && outer.min.z <= inner.min.z
    &&& inner.max.x <= outer.max.x && inner.max.y <= outer.max.y && inner.max.z <= outer.max.z
}

/// Merging is commutative and associative; the merge of two boxes bounds both
/// and every point of either, and is bounded by every box that bounds both;
/// the empty box is its identity on both sides.
pub proof fn lemma_merge(a: AABB, b: AABB, c: AABB)
    ensures
        merged(a, b) == merged(b, a),
        merged(merged(a, b), c) == merged(a, merged(b, c)),
        encloses(merged(a, b), a),
        encloses(merged(a, b), b),
        forall|p: Corner| a.holds(p) || b.holds(p) ==> #[trigger] merged(a, b).holds(p),
        encloses(c, a) && encloses(c, b) ==> encloses(c, merged(a, b)),
        a.wf() ==> merged(a, empty_box()) == a && merged(empty_box(), a) == a,
{
}

impl AABB {
    pub fn with_bounds(min: Corner, max: Corner) -> (b: AABB)
        ensures
            b.min == min,
            b.max == max,
    {
        AABB { min, max }
    }

    pub fn empty() -> (b: AABB)
        ensures
            b == empty_box(),
    {
        AABB {
            min: Corner { x: KEY_INFINITY, y: KEY_INFINITY, z: KEY_INFINITY },
            max: Corner { x: KEY_NEG_INFINITY, y: KEY_NEG_INFINITY, z: KEY_NEG_INFINITY },
        }
    }

    pub fn full() -> (b: AABB)
        ensures
            b == full_box(),
    {
        AABB {
            min: Corner { x: KEY_NEG_INFINITY, y: KEY_NEG_INFINITY, z: KEY_NEG_INFINITY },
            max: Corner { x: KEY_INFINITY, y: KEY_INFINITY, z: KEY_INFINITY },
        }
    }

    /// The least box that holds the three points.
    pub fn around(p: Corner, q: Corner, r: Corner) -> (b: AABB)
        ensures
            b.min == corner_min(corner_min(p, q), r),
            b.max == corner_max(corner_max(p, q), r),
    {
        AABB { min: p, max: p }.merge(AABB { min: q, max: q }).merge(AABB { min: r, max: r })
    }

    /// No corner coordinate is NaN.
    pub open spec fn wf(self) -> bool {
        self.min.wf() && self.max.wf()
    }

    /// The point lies in the box, boundary included.
    pub open spec fn holds(self, p: Corner) -> bool {
        &&& self.min.x <= p.x <= self.max.x
        &&& self.min.y <= p.y <= self.max.y
        &&& self.min.z <= p.z <= self.max.z
    }

    pub fn contains(self, p: Corner) -> (r: bool)
        ensures
            r == self.holds(p),
    {
        p.x >= self.min.x && p.x <= self.max.x && p.y >= self.min.y && p.y <= self.max.y
            && p.z >= self.min.z && p.z <= self.max.z
    }

    /// This is the full sentinel, the box of an unbounded primitive.
    pub fn is_full(self) -> (r: bool)
        ensures
            r == (self == full_box()),
    {
        self == AABB::full()
    }

    /// The least box that holds both boxes.
    pub fn merge(self, other: AABB) -> (b: AABB)
        ensures
            b == merged(self, other),
    {
        AABB {
            min: Corner {
                x: if self.min.x <= other.min.x { self.min.x } else { other.min.x },
                y: if self.min.y <= other.min.y { self.min.y } else { other.min.y },
                z: if self.min.z <= other.min.z { self.min.z } else { other.min.z },
            },
            max: Corner {
                x: if self.max.x >= other.max.x { self.max.x } else { other.max.x },
                y: if self.max.y >= other.max.y { self.max.y } else { other.max.y },
                z: if self.max.z >= other.max.z { self.max.z } else { other.max.z },
            },
        }
    }

    /// The extent of the box on each axis, measured by `extent(min, max)`.
    pub fn size<E: Fn(i32, i32) -> i32>(self, extent: &E) -> (s: Corner)
        requires
            callable2(*extent),
        ensures
            forall|g: spec_fn(i32, i32) -> i32| computes2(*extent, g) ==> s == size_by(self, g),
    {
        let x = extent(self.min.x, self.max.x);
        let y = extent(self.min.y, self.max.y);
        let z = extent(self.min.z, self.max.z);
        Corner { x, y, z }
    }

    /// The center of the box, `midpoint(min, max)` on each axis.
    pub fn center<M: Fn(i32, i32) -> i32>(self, midpoint: &M) -> (c: Corner)
        requires
            callable2(*midpoint),
        ensures
            forall|m: spec_fn(i32, i32) -> i32|
                computes2(*midpoint, m) ==> c == (Corner {
                    x: m(self.min.x, self.max.x),
                    y: m(self.min.y, self.max.y),
                    z: m(self.min.z, self.max.z),
                }),
    {
        let x = midpoint(self.min.x, self.max.x);
        let y = midpoint(self.min.y, self.max.y);
        let z = midpoint(self.min.z, self.max.z);
        Corner { x, y, z }
    }

    /// The axis along which the box, measured by `extent`, is longest.
    pub fn longest_axis<E: Fn(i32, i32) -> i32>(self, extent: &E) -> (axis: usize)
        requires
            callable2(*extent),
        ensures
            axis < 3,
            forall|g: spec_fn(i32, i32) -> i32|
                computes2(*extent, g) ==> axis == longest_of(size_by(self, g)),
    {
        longest_axis_of(self.size(extent))
    }
}

/// `f` computes `g`: each result of a call is `g` of its arguments.
pub open spec fn computes_slabs<F: Fn(i32, i32, usize) -> (i32, i32)>(
    f: F,
    g: spec_fn(i32, i32, usize) -> (i32, i32),
) -> bool {
    forall|lo: i32, hi: i32, axis: usize, r: (i32, i32)| #[trigger] f.ensures((lo, hi, axis), r) ==> r == g(lo, hi, axis)
}

pub open spec fn slabs_callable<F: Fn(i32, i32, usize) -> (i32, i32)>(f: F) -> bool {
    forall|lo: i32, hi: i32, axis: usize| #[trigger] f.requires((lo, hi, axis))
}

impl AABB {
    /// The ray meets the box by the slab test, where `slab(lo, hi, axis)`
    /// gives the distance keys at which the ray crosses the planes `lo` and
    /// `hi` across `axis`.
    pub fn intersect<S: Fn(i32, i32, usize) -> (i32, i32)>(self, slab: &S) -> (r: bool)
        requires
            slabs_callable(*slab),
        ensures
            forall|g: spec_fn(i32, i32, usize) -> (i32, i32)|
                computes_slabs(*slab, g) ==> r == slabs_meet(
                    g(self.min.x, self.max.x, 0),
                    g(self.min.y, self.max.y, 1),
                    g(self.min.z, self.max.z, 2),
                ),
    {
        let x = slab(self.min.x, self.max.x, 0);
        let y = slab(self.min.y, self.max.y, 1);
        let z = slab(self.min.z, self.max.z, 2);
        slab_test(x, y, z)
    }
}

/// The axis of the longest of the given extents, ties going to the later axis.
pub fn longest_axis_of(size: Corner) -> (axis: usize)
    ensures
        axis == longest_of(size),
        axis < 3,
{
    if size.x > size.y && size.x > size.z {
        0
    } else if size.y > size.z {
        1
    } else {
        2
    }
}

/// The interval `[lo, hi]` of ray distances, from two slab crossings in either order.
pub open spec fn lo_of(a: (i32, i32)) -> i32 {
    min_key(a.0, a.1)
}

pub open spec fn hi_of(a: (i32, i32)) -> i32 {
    max_key(a.0, a.1)
}

/// The ray meets the box: the three slab intervals share a distance, and the
/// shared part reaches distance zero or beyond.
pub open spec fn slabs_meet(x: (i32, i32), y: (i32, i32), z: (i32, i32)) -> bool {
    let lo = max_key(max_key(lo_of(x), lo_of(y)), lo_of(z));
    let hi = min_key(min_key(hi_of(x), hi_of(y)), hi_of(z));
    lo <= hi && hi >= KEY_NEG_ZERO
}

/// The slab test on the distances at which a ray crosses the two planes of
/// the box on each axis, given as order keys in either order.
pub fn slab_test(x: (i32, i32), y: (i32, i32), z: (i32, i32)) -> (r: bool)
    ensures
        r == slabs_meet(x, y, z),
{
    let (mut tmin, mut tmax) = x;
    if tmin > tmax {
        let s = tmin;
        tmin = tmax;
        tmax = s;
    }
    let (mut tymin, mut tymax) = y;
    if tymin > tymax {
        let s = tymin;
        tymin = tymax;
        tymax = s;
    }
    if tmin > tymax || tymin > tmax {
        return false;
    }
    if tymin > tmin {
        tmin = tymin;
    }
    if tymax < tmax {
        tmax = tymax;
    }
    let (mut tzmin, mut tzmax) = z;
    if tzmin > tzmax {
        let s = tzmin;
        tzmin = tzmax;
        tzmax = s;
    }
    if tmin > tzmax || tzmin > tmax {
        return false;
    }
    if tzmax < tmax {
        tmax = tzmax;
    }
    tmax >= KEY_NEG_ZERO
}

} // verus!
