use crate::coord::{greater, lesser, Coord, EPSILON_KEY};
use vstd::prelude::*;

verus! {

/// The two parameters at which a ray crosses the planes of a slab, in
/// either order.
pub type Crossing = (Coord, Coord);

/// Where a ray enters a box: the last of its entries into the three slabs.
pub open spec fn entry_of(x: Crossing, y: Crossing, z: Crossing) -> Coord {
    greater(greater(lesser(x.0, x.1), lesser(y.0, y.1)), lesser(z.0, z.1))
}

/// Where a ray leaves a box: the first of its exits from the three slabs.
pub open spec fn exit_of(x: Crossing, y: Crossing, z: Crossing) -> Coord {
    lesser(lesser(greater(x.0, x.1), greater(y.0, y.1)), greater(z.0, z.1))
}

/// The nearer of two roots that lies beyond the guard distance, `near`
/// being tried first.
pub open spec fn root_beyond_guard(near: Coord, far: Coord) -> Option<Coord> {
    if near.key > EPSILON_KEY {
        Some(near)
    } else if far.key > EPSILON_KEY {
        Some(far)
    } else {
        None
    }
}

/// Where a ray hits a box, from where it enters and leaves it: nowhere if
/// the box lies behind the ray or the ray misses it; else where it enters,
/// or where it leaves if the entry is not beyond the guard distance.
pub open spec fn box_root(enter: Coord, leave: Coord) -> Option<Coord> {
    if leave.key < 0 || enter.key > leave.key {
        None
    } else {
        root_beyond_guard(enter, leave)
    }
}

/// Puts the two parameters of a crossing in ascending order.
pub fn order_crossing(c: Crossing) -> (r: Crossing)
    ensures
        r.0 == lesser(c.0, c.1),
        r.1 == greater(c.0, c.1),
{
    if c.0.key > c.1.key {
        (c.1, c.0)
    } else {
        (c.0, c.1)
    }
}

/// Whether a ray passes through a box, from its crossings of the three
/// slabs: it does when it has entered all three before it leaves one.
pub fn ray_aabb_intersect(x: Crossing, y: Crossing, z: Crossing) -> (hit: bool)
    ensures
        hit == (entry_of(x, y, z).key <= exit_of(x, y, z).key),
{
    let (mut tmin, mut tmax) = order_crossing(x);
    let (tymin, tymax) = order_crossing(y);
    if tmin.key > tymax.key || tymin.key > tmax.key {
        return false;
    }
    if tymin.key > tmin.key {
        tmin = tymin;
    }
    if tymax.key < tmax.key {
        tmax = tymax;
    }
    let (tzmin, tzmax) = order_crossing(z);
    if tmin.key > tzmax.key || tzmin.key > tmax.key {
        return false;
    }
    true
}

/// Where a ray hits a box, from its crossings of the three slabs.
pub fn slab_hit(x: Crossing, y: Crossing, z: Crossing) -> (t: Option<Coord>)
    ensures
        t == box_root(entry_of(x, y, z), exit_of(x, y, z)),
{
    let (xmin, xmax) = order_crossing(x);
    let (ymin, ymax) = order_crossing(y);
    let (zmin, zmax) = order_crossing(z);
    let enter = xmin.max(ymin).max(zmin);
    let leave = xmax.min(ymax).min(zmax);
    assert(enter.key == entry_of(x, y, z).key);
    assert(leave.key == exit_of(x, y, z).key);
    if leave.key < 0 || enter.key > leave.key {
        return None;
    }
    first_beyond_guard(enter, leave)
}

/// The first of two roots that lies beyond the guard distance.
pub fn first_beyond_guard(near: Coord, far: Coord) -> (t: Option<Coord>)
    ensures
        t == root_beyond_guard(near, far),
{
    if near.key > EPSILON_KEY {
        Some(near)
    } else if far.key > EPSILON_KEY {
        Some(far)
    } else {
        None
    }
}

/// Marches along a ray in `steps` steps and stops at the first sample that
/// lies inside the shape.
pub fn march<F: Fn(usize) -> bool>(steps: usize, inside: &F) -> (found: Option<usize>)
    requires
        forall|i: usize| i < steps ==> inside.requires((i,)),
    ensures
        match found {
            Some(i) => {
                &&& i < steps
                &&& inside.ensures((i,), true)
                &&& forall|j: usize| j < i ==> inside.ensures((j,), false)
            },
            None => forall|j: usize| j < steps ==> inside.ensures((j,), false),
        },
{
    let mut i: usize = 0;
    while i < steps
        invariant
            0 <= i <= steps,
            forall|k: usize| k < steps ==> inside.requires((k,)),
            forall|j: usize| j < i ==> inside.ensures((j,), false),
        decreases steps - i,
    {
        if inside(i) {
            return Some(i);
        }
        i = i + 1;
    }
    None
}

/// Of two roots in ascending order, the one chosen is the least that lies
/// beyond the guard distance.
pub proof fn lemma_root_is_nearest(near: Coord, far: Coord)
    requires
        near.key <= far.key,
    ensures
        match root_beyond_guard(near, far) {
            Some(t) => {
                &&& t.key > EPSILON_KEY
                &&& t == near || t == far
                &&& near.key > EPSILON_KEY ==> t.key <= near.key
                &&& far.key > EPSILON_KEY ==> t.key <= far.key
            },
            None => near.key <= EPSILON_KEY && far.key <= EPSILON_KEY,
        },
{
}

/// A ray is inside a box exactly between its entry and its exit: a
/// parameter lies within all three crossings if and only if it lies
/// between the two.
pub proof fn lemma_inside_between(x: Crossing, y: Crossing, z: Crossing, t: Coord)
    ensures
        (within(x, t) && within(y, t) && within(z, t)) <==> (entry_of(x, y, z).key <= t.key
            <= exit_of(x, y, z).key),
{
}

/// A ray that passes through a box passes through every box around it:
/// where each crossing of the inner box lies within that of the outer one,
/// the outer box is entered no later and left no earlier.
pub proof fn lemma_outer_box_is_crossed(
    inner: (Crossing, Crossing, Crossing),
    outer: (Crossing, Crossing, Crossing),
)
    requires
        spans(outer.0, inner.0),
        spans(outer.1, inner.1),
        spans(outer.2, inner.2),
    ensures
        entry_of(outer.0, outer.1, outer.2).key <= entry_of(inner.0, inner.1, inner.2).key,
        exit_of(inner.0, inner.1, inner.2).key <= exit_of(outer.0, outer.1, outer.2).key,
        entry_of(inner.0, inner.1, inner.2).key <= exit_of(inner.0, inner.1, inner.2).key
            ==> entry_of(outer.0, outer.1, outer.2).key <= exit_of(outer.0, outer.1, outer.2).key,
{
}

/// The outer crossing begins no later and ends no earlier than the inner.
pub open spec fn spans(outer: Crossing, inner: Crossing) -> bool {
    lesser(outer.0, outer.1).key <= lesser(inner.0, inner.1).key && greater(inner.0, inner.1).key
        <= greater(outer.0, outer.1).key
}

/// The parameter lies between the two of the crossing.
pub open spec fn within(c: Crossing, t: Coord) -> bool {
    lesser(c.0, c.1).key <= t.key <= greater(c.0, c.1).key
}

} // verus!
