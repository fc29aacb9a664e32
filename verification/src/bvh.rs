use crate::coord::{spec_max, spec_min, Axis, Vec3};
use vstd::prelude::*;
use vstd::seq_lib::{lemma_multiset_commutative, to_multiset_build, to_multiset_contains, to_multiset_len};

verus! {

/// The most objects that a leaf holds.
pub const LEAF_SIZE: usize = 8;

/// What the hierarchy knows of one object of the scene: its place in the
/// scene's list, its bounding box, and the centre of that box.
#[derive(Clone, Copy, Debug, PartialEq, Eq, Structural)]
pub struct ObjectInfo {
    pub index: usize,
    pub bmin: Vec3,
    pub bmax: Vec3,
    pub centroid: Vec3,
}

/// A node of the hierarchy: a box, and either the objects inside it (a
/// leaf) or two smaller nodes that share them.
#[derive(Debug)]
pub struct BVHNode {
    pub bounds_min: Vec3,
    pub bounds_max: Vec3,
    pub left: Option<Box<BVHNode>>,
    pub right: Option<Box<BVHNode>>,
    pub indices: Vec<usize>,
}

/// The box from `bmin` to `bmax` contains the box of every object.
pub open spec fn encloses_all(bmin: Vec3, bmax: Vec3, objs: Seq<ObjectInfo>) -> bool {
    forall|i: int| 0 <= i < objs.len() ==> bmin.le(#[trigger] objs[i].bmin) && objs[i].bmax.le(bmax)
}

/// On this axis some object's box starts where the box from `bmin` starts.
pub open spec fn touches_min(bmin: Vec3, objs: Seq<ObjectInfo>, axis: Axis) -> bool {
    exists|i: int| 0 <= i < objs.len() && (#[trigger] objs[i]).bmin.at(axis) == bmin.at(axis)
}

/// On this axis some object's box ends where the box to `bmax` ends.
pub open spec fn touches_max(bmax: Vec3, objs: Seq<ObjectInfo>, axis: Axis) -> bool {
    exists|i: int| 0 <= i < objs.len() && (#[trigger] objs[i]).bmax.at(axis) == bmax.at(axis)
}

/// The box from `bmin` to `bmax` is the union of the objects' boxes: it
/// contains each of them, and on every side one of them reaches it.
pub open spec fn is_union_of(bmin: Vec3, bmax: Vec3, objs: Seq<ObjectInfo>) -> bool {
    &&& encloses_all(bmin, bmax, objs)
    &&& touches_min(bmin, objs, Axis::X)
    &&& touches_min(bmin, objs, Axis::Y)
    &&& touches_min(bmin, objs, Axis::Z)
    &&& touches_max(bmax, objs, Axis::X)
    &&& touches_max(bmax, objs, Axis::Y)
    &&& touches_max(bmax, objs, Axis::Z)
}

/// The objects stand in ascending order of their centres along the axis.
pub open spec fn sorted_along(objs: Seq<ObjectInfo>, axis: Axis) -> bool {
    forall|i: int, j: int|
        0 <= i <= j < objs.len() ==> (#[trigger] objs[i]).centroid.at(axis) <= (
        #[trigger] objs[j]).centroid.at(axis)
}

/// No centre among the first `mid` objects lies beyond, along the axis, a
/// centre among the rest.
pub open spec fn split_along(objs: Seq<ObjectInfo>, mid: int, axis: Axis) -> bool {
    forall|i: int, j: int|
        0 <= i < mid <= j < objs.len() ==> (#[trigger] objs[i]).centroid.at(axis) <= (
        #[trigger] objs[j]).centroid.at(axis)
}

/// The objects of a run whose centre has the key `k` along the axis, in
/// the order of the run.
pub open spec fn with_centre(objs: Seq<ObjectInfo>, axis: Axis, k: int) -> Seq<ObjectInfo> {
    objs.filter(|o: ObjectInfo| o.centroid.at(axis) == k)
}

/// Two runs hold, for each place along the axis, the same objects with
/// their centre there, in the same order.
pub open spec fn same_order_of_ties(a: Seq<ObjectInfo>, b: Seq<ObjectInfo>, axis: Axis) -> bool {
    forall|k: int| #[trigger] with_centre(a, axis, k) == with_centre(b, axis, k)
}

/// The places in the scene's list of a run of objects, in order.
pub open spec fn indices_of(objs: Seq<ObjectInfo>) -> Seq<usize> {
    Seq::new(objs.len(), |i: int| objs[i].index)
}

impl BVHNode {
    /// The objects under this node, leaf by leaf from left to right.
    pub open spec fn flatten(self) -> Seq<usize>
        decreases self,
    {
        if self.left is None && self.right is None {
            self.indices@
        } else {
            let l = match self.left {
                Some(node) => node.flatten(),
                None => Seq::empty(),
            };
            let r = match self.right {
                Some(node) => node.flatten(),
                None => Seq::empty(),
            };
            l + r
        }
    }

    /// This node is the median-split hierarchy over `objs`, taken in that
    /// order. Its box is the union of their boxes. Up to `LEAF_SIZE` objects
    /// make a leaf that lists them. More are halved at the median, the
    /// first half under `left` and the rest under `right`, such that along
    /// an axis that is in order for the box no centre of the first half
    /// lies beyond one of the second.
    pub open spec fn covers(
        self,
        objs: Seq<ObjectInfo>,
        axis_ok: spec_fn(Vec3, Vec3, Axis) -> bool,
    ) -> bool
        decreases self,
    {
        &&& objs.len() >= 1
        &&& is_union_of(self.bounds_min, self.bounds_max, objs)
        &&& if objs.len() <= LEAF_SIZE {
            &&& self.left is None
            &&& self.right is None
            &&& self.indices@ == indices_of(objs)
        } else {
            let mid = objs.len() as int / 2;
            &&& self.indices@.len() == 0
            &&& self.left is Some
            &&& self.right is Some
            &&& self.left->0.covers(objs.subrange(0, mid), axis_ok)
            &&& self.right->0.covers(objs.subrange(mid, objs.len() as int), axis_ok)
            &&& exists|axis: Axis|
                axis_ok(self.bounds_min, self.bounds_max, axis) && #[trigger] split_along(
                    objs,
                    mid,
                    axis,
                )
        }
    }
}

/// The axes that the chooser may name for a box, as a relation.
pub open spec fn axis_answers<F: Fn(Vec3, Vec3) -> Axis>(widest_axis: &F) -> spec_fn(
    Vec3,
    Vec3,
    Axis,
) -> bool {
    |bmin: Vec3, bmax: Vec3, axis: Axis| widest_axis.ensures((bmin, bmax), axis)
}

/// The union of two boxes.
pub fn union_bounds(a_min: Vec3, a_max: Vec3, b_min: Vec3, b_max: Vec3) -> (r: (Vec3, Vec3))
    ensures
        r.0 == spec_min(a_min, b_min),
        r.1 == spec_max(a_max, b_max),
{
    (a_min.min(b_min), a_max.max(b_max))
}

/// Taking one more object into a union gives the union with that object.
pub proof fn lemma_union_push(bmin: Vec3, bmax: Vec3, objs: Seq<ObjectInfo>, o: ObjectInfo)
    requires
        is_union_of(bmin, bmax, objs),
    ensures
        is_union_of(spec_min(bmin, o.bmin), spec_max(bmax, o.bmax), objs.push(o)),
{
    let s = objs.push(o);
    let lo = spec_min(bmin, o.bmin);
    let hi = spec_max(bmax, o.bmax);
    let n = objs.len() as int;
    assert(s[n] == o);
    assert forall|i: int| 0 <= i < s.len() implies lo.le(#[trigger] s[i].bmin) && s[i].bmax.le(
        hi,
    ) by {
        if i < n {
            assert(s[i] == objs[i]);
            assert(bmin.le(objs[i].bmin) && objs[i].bmax.le(bmax));
        } else {
            assert(s[i] == o);
        }
    }
    lemma_touch_push(bmin, bmax, objs, o, Axis::X);
    lemma_touch_push(bmin, bmax, objs, o, Axis::Y);
    lemma_touch_push(bmin, bmax, objs, o, Axis::Z);
}

proof fn lemma_touch_push(bmin: Vec3, bmax: Vec3, objs: Seq<ObjectInfo>, o: ObjectInfo, axis: Axis)
    requires
        touches_min(bmin, objs, axis),
        touches_max(bmax, objs, axis),
    ensures
        touches_min(spec_min(bmin, o.bmin), objs.push(o), axis),
        touches_max(spec_max(bmax, o.bmax), objs.push(o), axis),
{
    let s = objs.push(o);
    let n = objs.len() as int;
    assert(s[n] == o);
    let lo = spec_min(bmin, o.bmin);
    let hi = spec_max(bmax, o.bmax);
    if lo.at(axis) == o.bmin.at(axis) {
        assert(s[n].bmin.at(axis) == lo.at(axis));
    } else {
        let i = choose|i: int| 0 <= i < objs.len() && (#[trigger] objs[i]).bmin.at(axis) == bmin.at(axis);
        assert(s[i] == objs[i]);
        assert(s[i].bmin.at(axis) == lo.at(axis));
    }
    if hi.at(axis) == o.bmax.at(axis) {
        assert(s[n].bmax.at(axis) == hi.at(axis));
    } else {
        let i = choose|i: int| 0 <= i < objs.len() && (#[trigger] objs[i]).bmax.at(axis) == bmax.at(axis);
        assert(s[i] == objs[i]);
        assert(s[i].bmax.at(axis) == hi.at(axis));
    }
}

/// The union of the boxes of the objects from `lo` up to `hi`.
pub fn range_bounds(objects: &Vec<ObjectInfo>, lo: usize, hi: usize) -> (r: (Vec3, Vec3))
    requires
        lo < hi <= objects@.len(),
    ensures
        is_union_of(r.0, r.1, objects@.subrange(lo as int, hi as int)),
{
    let mut bounds_min = objects[lo].bmin;
    let mut bounds_max = objects[lo].bmax;
    let mut k: usize = lo + 1;
    proof {
        let s = objects@.subrange(lo as int, lo + 1);
        assert(s[0] == objects@[lo as int]);
    }
    while k < hi
        invariant
            lo < k <= hi <= objects@.len(),
            is_union_of(bounds_min, bounds_max, objects@.subrange(lo as int, k as int)),
        decreases hi - k,
    {
        let info = objects[k];
        proof {
            lemma_union_push(bounds_min, bounds_max, objects@.subrange(lo as int, k as int), info);
            assert(objects@.subrange(lo as int, k as int).push(info) =~= objects@.subrange(
                lo as int,
                k + 1,
            ));
        }
        let (bmin, bmax) = union_bounds(bounds_min, bounds_max, info.bmin, info.bmax);
        bounds_min = bmin;
        bounds_max = bmax;
        k = k + 1;
    }
    (bounds_min, bounds_max)
}

/// Two runs of the same objects, however arranged, are as long as each
/// other, and each object of one occurs in the other.
pub proof fn lemma_same_objects(a: Seq<ObjectInfo>, b: Seq<ObjectInfo>)
    requires
        a.to_multiset() == b.to_multiset(),
    ensures
        a.len() == b.len(),
        forall|i: int| 0 <= i < a.len() ==> b.contains(#[trigger] a[i]),
{
    to_multiset_len(a);
    to_multiset_len(b);
    assert forall|i: int| 0 <= i < a.len() implies b.contains(#[trigger] a[i]) by {
        assert(a.contains(a[i]));
        to_multiset_contains(a, a[i]);
        to_multiset_contains(b, a[i]);
    }
}

/// A union does not depend on the order of the objects.
pub proof fn lemma_union_permuted(bmin: Vec3, bmax: Vec3, a: Seq<ObjectInfo>, b: Seq<ObjectInfo>)
    requires
        is_union_of(bmin, bmax, a),
        a.to_multiset() == b.to_multiset(),
    ensures
        is_union_of(bmin, bmax, b),
{
    lemma_same_objects(a, b);
    lemma_same_objects(b, a);
    assert forall|j: int| 0 <= j < b.len() implies bmin.le(#[trigger] b[j].bmin) && b[j].bmax.le(
        bmax,
    ) by {
        assert(a.contains(b[j]));
        let i = choose|i: int| 0 <= i < a.len() && a[i] == b[j];
        assert(bmin.le(a[i].bmin) && a[i].bmax.le(bmax));
    }
    lemma_touch_permuted(bmin, bmax, a, b, Axis::X);
    lemma_touch_permuted(bmin, bmax, a, b, Axis::Y);
    lemma_touch_permuted(bmin, bmax, a, b, Axis::Z);
}

proof fn lemma_touch_permuted(
    bmin: Vec3,
    bmax: Vec3,
    a: Seq<ObjectInfo>,
    b: Seq<ObjectInfo>,
    axis: Axis,
)
    requires
        touches_min(bmin, a, axis),
        touches_max(bmax, a, axis),
        forall|i: int| 0 <= i < a.len() ==> b.contains(#[trigger] a[i]),
    ensures
        touches_min(bmin, b, axis),
        touches_max(bmax, b, axis),
{
    let i = choose|i: int| 0 <= i < a.len() && (#[trigger] a[i]).bmin.at(axis) == bmin.at(axis);
    assert(b.contains(a[i]));
    let j = choose|j: int| 0 <= j < b.len() && b[j] == a[i];
    assert(b[j].bmin.at(axis) == bmin.at(axis));
    let i2 = choose|i: int| 0 <= i < a.len() && (#[trigger] a[i]).bmax.at(axis) == bmax.at(axis);
    assert(b.contains(a[i2]));
    let j2 = choose|j: int| 0 <= j < b.len() && b[j] == a[i2];
    assert(b[j2].bmax.at(axis) == bmax.at(axis));
}

/// Rearranging each half within itself rearranges the whole, and keeps the
/// first half on its side of the split.
pub proof fn lemma_halves_permuted(a: Seq<ObjectInfo>, b: Seq<ObjectInfo>, mid: int, axis: Axis)
    requires
        a.len() == b.len(),
        0 <= mid <= a.len(),
        a.subrange(0, mid).to_multiset() == b.subrange(0, mid).to_multiset(),
        a.subrange(mid, a.len() as int).to_multiset() == b.subrange(
            mid,
            b.len() as int,
        ).to_multiset(),
    ensures
        a.to_multiset() == b.to_multiset(),
        split_along(a, mid, axis) ==> split_along(b, mid, axis),
{
    let n = a.len() as int;
    let (a0, a1) = (a.subrange(0, mid), a.subrange(mid, n));
    let (b0, b1) = (b.subrange(0, mid), b.subrange(mid, n));
    assert(a =~= a0 + a1);
    assert(b =~= b0 + b1);
    lemma_multiset_commutative(a0, a1);
    lemma_multiset_commutative(b0, b1);
    if split_along(a, mid, axis) {
        lemma_same_objects(b0, a0);
        lemma_same_objects(b1, a1);
        assert forall|i: int, j: int| 0 <= i < mid <= j < b.len() implies (#[trigger] b[i]).centroid.at(
            axis,
        ) <= (#[trigger] b[j]).centroid.at(axis) by {
            assert(b0[i] == b[i]);
            assert(b1[j - mid] == b[j]);
            assert(a0.contains(b0[i]));
            assert(a1.contains(b1[j - mid]));
            let i2 = choose|k: int| 0 <= k < a0.len() && a0[k] == b0[i];
            let j2 = choose|k: int| 0 <= k < a1.len() && a1[k] == b1[j - mid];
            assert(a[i2] == a0[i2]);
            assert(a[j2 + mid] == a1[j2]);
            assert(a[i2].centroid.at(axis) <= a[j2 + mid].centroid.at(axis));
        }
    }
}

/// A run none of whose objects has its centre at `k` has no object there.
proof fn lemma_no_centre(objs: Seq<ObjectInfo>, axis: Axis, k: int)
    requires
        forall|i: int| 0 <= i < objs.len() ==> (#[trigger] objs[i]).centroid.at(axis) != k,
    ensures
        with_centre(objs, axis, k) =~= Seq::<ObjectInfo>::empty(),
    decreases objs.len(),
{
    reveal(Seq::filter);
    if objs.len() > 0 {
        let front = objs.drop_last();
        assert forall|i: int| 0 <= i < front.len() implies (#[trigger] front[i]).centroid.at(axis)
            != k by {
            assert(front[i] == objs[i]);
        }
        lemma_no_centre(front, axis, k);
        assert(objs.last() == objs[objs.len() - 1]);
    }
}

/// One more object at the end of a run joins the objects with its centre
/// and no others.
proof fn lemma_centre_push(objs: Seq<ObjectInfo>, o: ObjectInfo, axis: Axis, k: int)
    ensures
        with_centre(objs.push(o), axis, k) == if o.centroid.at(axis) == k {
            with_centre(objs, axis, k).push(o)
        } else {
            with_centre(objs, axis, k)
        },
{
    reveal(Seq::filter);
    assert(objs.push(o).drop_last() =~= objs);
    assert(objs.push(o).last() == o);
}

/// The objects with their centre at `k` in two runs, one after the other,
/// are those of the first followed by those of the second.
proof fn lemma_centre_concat(a: Seq<ObjectInfo>, b: Seq<ObjectInfo>, axis: Axis, k: int)
    ensures
        with_centre(a + b, axis, k) == with_centre(a, axis, k) + with_centre(b, axis, k),
{
    Seq::filter_distributes_over_add(a, b, |o: ObjectInfo| o.centroid.at(axis) == k);
}

/// Merges the sorted runs from `lo` up to `mid` and from `mid` up to `hi`
/// into one sorted run. Of two objects whose centres are level, the one of
/// the first run comes first.
fn merge_runs(objects: &mut Vec<ObjectInfo>, lo: usize, mid: usize, hi: usize, axis: Axis)
    requires
        lo <= mid <= hi <= old(objects)@.len(),
        sorted_along(old(objects)@.subrange(lo as int, mid as int), axis),
        sorted_along(old(objects)@.subrange(mid as int, hi as int), axis),
    ensures
        final(objects)@.len() == old(objects)@.len(),
        forall|i: int|
            0 <= i < lo || hi <= i < old(objects)@.len() ==> final(objects)@[i] == old(objects)@[i],
        final(objects)@.subrange(lo as int, hi as int).to_multiset() == old(objects)@.subrange(
            lo as int,
            hi as int,
        ).to_multiset(),
        sorted_along(final(objects)@.subrange(lo as int, hi as int), axis),
        same_order_of_ties(
            final(objects)@.subrange(lo as int, hi as int),
            old(objects)@.subrange(lo as int, hi as int),
            axis,
        ),
{
    let ghost start = objects@;
    let ghost left = start.subrange(lo as int, mid as int);
    let ghost right = start.subrange(mid as int, hi as int);
    let mut merged: Vec<ObjectInfo> = Vec::new();
    let mut i: usize = lo;
    let mut j: usize = mid;
    proof {
        assert(left.subrange(0, 0) =~= Seq::<ObjectInfo>::empty());
        assert(right.subrange(0, 0) =~= Seq::<ObjectInfo>::empty());
        lemma_multiset_commutative(left.subrange(0, 0), right.subrange(0, 0));
        assert(left.subrange(0, 0) + right.subrange(0, 0) =~= merged@);
        assert forall|c: int| #[trigger]
            with_centre(merged@, axis, c) == with_centre(left.subrange(0, 0), axis, c)
                + with_centre(right.subrange(0, 0), axis, c) by {
            lemma_centre_concat(left.subrange(0, 0), right.subrange(0, 0), axis, c);
            assert(left.subrange(0, 0) + right.subrange(0, 0) =~= merged@);
        }
    }
    while i < mid || j < hi
        invariant
            lo <= i <= mid <= j <= hi <= objects@.len(),
            objects@ == start,
            left == start.subrange(lo as int, mid as int),
            right == start.subrange(mid as int, hi as int),
            sorted_along(left, axis),
            sorted_along(right, axis),
            merged@.len() == (i - lo) + (j - mid),
            merged@.to_multiset() == left.subrange(0, i - lo).to_multiset().add(
                right.subrange(0, j - mid).to_multiset(),
            ),
            sorted_along(merged@, axis),
            forall|k: int|
                0 <= k < merged@.len() && i < mid ==> (#[trigger] merged@[k]).centroid.at(axis)
                    <= left[i - lo].centroid.at(axis),
            forall|k: int|
                0 <= k < merged@.len() && j < hi ==> (#[trigger] merged@[k]).centroid.at(axis)
                    <= right[j - mid].centroid.at(axis),
            forall|k: int|
                0 <= k < j - mid && i < mid ==> (#[trigger] right[k]).centroid.at(axis) < left[i
                    - lo].centroid.at(axis),
            forall|c: int| #[trigger]
                with_centre(merged@, axis, c) == with_centre(left.subrange(0, i - lo), axis, c)
                    + with_centre(right.subrange(0, j - mid), axis, c),
        decreases (mid - i) + (hi - j),
    {
        let take_left = if j >= hi {
            true
        } else if i >= mid {
            false
        } else {
            objects[i].centroid.component(axis).key <= objects[j].centroid.component(axis).key
        };
        let ghost before = merged@;
        let ghost a = i - lo;
        let ghost b = j - mid;
        if take_left {
            let x = objects[i];
            merged.push(x);
            proof {
                assert(left[a] == x);
                let taken = left.subrange(0, a);
                assert(left.subrange(0, a + 1) =~= taken.push(x));
                to_multiset_build(taken, x);
                to_multiset_build(before, x);
                assert(merged@.to_multiset() =~= left.subrange(0, a + 1).to_multiset().add(
                    right.subrange(0, b).to_multiset(),
                ));
                assert forall|k: int| 0 <= k < b implies (#[trigger] right.subrange(0, b)[k]).centroid.at(
                    axis,
                ) != x.centroid.at(axis) by {
                    assert(right.subrange(0, b)[k] == right[k]);
                }
                assert forall|c: int| #[trigger]
                    with_centre(merged@, axis, c) == with_centre(left.subrange(0, a + 1), axis, c)
                        + with_centre(right.subrange(0, b), axis, c) by {
                    lemma_centre_push(before, x, axis, c);
                    lemma_centre_push(taken, x, axis, c);
                    let l = with_centre(taken, axis, c);
                    let r = with_centre(right.subrange(0, b), axis, c);
                    assert(with_centre(before, axis, c) == l + r);
                    if x.centroid.at(axis) == c {
                        lemma_no_centre(right.subrange(0, b), axis, c);
                        assert((l + r).push(x) =~= l.push(x) + r);
                    }
                }
                assert forall|p: int, q: int| 0 <= p <= q < merged@.len() implies (
                #[trigger] merged@[p]).centroid.at(axis) <= (#[trigger] merged@[q]).centroid.at(
                    axis,
                ) by {
                    if q < before.len() {
                        assert(merged@[p] == before[p] && merged@[q] == before[q]);
                    } else if p < before.len() {
                        assert(merged@[p] == before[p]);
                    }
                }
                assert forall|k: int| 0 <= k < merged@.len() && i + 1 < mid implies (
                #[trigger] merged@[k]).centroid.at(axis) <= left[a + 1].centroid.at(axis) by {
                    if k < before.len() {
                        assert(merged@[k] == before[k]);
                    }
                }
                assert forall|k: int| 0 <= k < merged@.len() && j < hi implies (
                #[trigger] merged@[k]).centroid.at(axis) <= right[b].centroid.at(axis) by {
                    if k < before.len() {
                        assert(merged@[k] == before[k]);
                    } else {
                        assert(right[b] == objects@[j as int]);
                    }
                }
            }
            i = i + 1;
        } else {
            let y = objects[j];
            merged.push(y);
            proof {
                assert(right[b] == y);
                if i < mid {
                    assert(left[a] == objects@[i as int]);
                }
                let taken = right.subrange(0, b);
                assert(right.subrange(0, b + 1) =~= taken.push(y));
                to_multiset_build(taken, y);
                to_multiset_build(before, y);
                assert(merged@.to_multiset() =~= left.subrange(0, a).to_multiset().add(
                    right.subrange(0, b + 1).to_multiset(),
                ));
                assert forall|c: int| #[trigger]
                    with_centre(merged@, axis, c) == with_centre(left.subrange(0, a), axis, c)
                        + with_centre(right.subrange(0, b + 1), axis, c) by {
                    lemma_centre_push(before, y, axis, c);
                    lemma_centre_push(taken, y, axis, c);
                    let l = with_centre(left.subrange(0, a), axis, c);
                    let r = with_centre(taken, axis, c);
                    assert(with_centre(before, axis, c) == l + r);
                    if y.centroid.at(axis) == c {
                        assert((l + r).push(y) =~= l + r.push(y));
                    }
                }
                assert forall|p: int, q: int| 0 <= p <= q < merged@.len() implies (
                #[trigger] merged@[p]).centroid.at(axis) <= (#[trigger] merged@[q]).centroid.at(
                    axis,
                ) by {
                    if q < before.len() {
                        assert(merged@[p] == before[p] && merged@[q] == before[q]);
                    } else if p < before.len() {
                        assert(merged@[p] == before[p]);
                    }
                }
                assert forall|k: int| 0 <= k < merged@.len() && i < mid implies (
                #[trigger] merged@[k]).centroid.at(axis) <= left[a].centroid.at(axis) by {
                    if k < before.len() {
                        assert(merged@[k] == before[k]);
                    }
                }
                assert forall|k: int| 0 <= k < merged@.len() && j + 1 < hi implies (
                #[trigger] merged@[k]).centroid.at(axis) <= right[b + 1].centroid.at(axis) by {
                    if k < before.len() {
                        assert(merged@[k] == before[k]);
                    }
                }
            }
            j = j + 1;
        }
    }
    proof {
        let whole = start.subrange(lo as int, hi as int);
        assert(left.subrange(0, mid - lo) =~= left);
        assert(right.subrange(0, hi - mid) =~= right);
        assert(whole =~= left + right);
        lemma_multiset_commutative(left, right);
        assert forall|c: int| #[trigger]
            with_centre(merged@, axis, c) == with_centre(whole, axis, c) by {
            lemma_centre_concat(left, right, axis, c);
        }
    }
    let mut k: usize = 0;
    while k < merged.len()
        invariant
            0 <= k <= merged@.len(),
            merged@.len() == hi - lo,
            lo <= hi <= objects@.len(),
            objects@.len() == start.len(),
            forall|p: int| 0 <= p < k ==> objects@[lo + p] == merged@[p],
            forall|p: int| 0 <= p < lo || hi <= p < start.len() ==> objects@[p] == start[p],
        decreases merged@.len() - k,
    {
        objects.set(lo + k, merged[k]);
        k = k + 1;
    }
    assert(objects@.subrange(lo as int, hi as int) =~= merged@);
}

/// Sorts the objects from `lo` up to `hi` by their centres along an axis
/// and leaves the rest of the list as it is. Objects whose centres are
/// level keep their order.
pub fn sort_range(objects: &mut Vec<ObjectInfo>, lo: usize, hi: usize, axis: Axis)
    requires
        lo <= hi <= old(objects)@.len(),
    ensures
        final(objects)@.len() == old(objects)@.len(),
        forall|i: int|
            0 <= i < lo || hi <= i < old(objects)@.len() ==> final(objects)@[i] == old(objects)@[i],
        final(objects)@.subrange(lo as int, hi as int).to_multiset() == old(objects)@.subrange(
            lo as int,
            hi as int,
        ).to_multiset(),
        sorted_along(final(objects)@.subrange(lo as int, hi as int), axis),
        same_order_of_ties(
            final(objects)@.subrange(lo as int, hi as int),
            old(objects)@.subrange(lo as int, hi as int),
            axis,
        ),
    decreases hi - lo,
{
    if hi - lo <= 1 {
        return ;
    }
    let ghost start = objects@;
    let mid: usize = lo + (hi - lo) / 2;
    sort_range(objects, lo, mid, axis);
    let ghost halfway = objects@;
    sort_range(objects, mid, hi, axis);
    let ghost halves = objects@;
    proof {
        assert(halves.subrange(lo as int, mid as int) =~= halfway.subrange(lo as int, mid as int));
        assert(halfway.subrange(mid as int, hi as int) =~= start.subrange(mid as int, hi as int));
    }
    merge_runs(objects, lo, mid, hi, axis);
    proof {
        let (l, m, h) = (lo as int, mid as int, hi as int);
        let before = start.subrange(l, h);
        let sorted = halves.subrange(l, h);
        assert(before =~= start.subrange(l, m) + start.subrange(m, h));
        assert(sorted =~= halves.subrange(l, m) + halves.subrange(m, h));
        lemma_multiset_commutative(start.subrange(l, m), start.subrange(m, h));
        lemma_multiset_commutative(halves.subrange(l, m), halves.subrange(m, h));
        assert forall|c: int| #[trigger]
            with_centre(objects@.subrange(l, h), axis, c) == with_centre(before, axis, c) by {
            lemma_centre_concat(start.subrange(l, m), start.subrange(m, h), axis, c);
            lemma_centre_concat(halves.subrange(l, m), halves.subrange(m, h), axis, c);
            assert(with_centre(halves.subrange(l, m), axis, c) == with_centre(
                start.subrange(l, m),
                axis,
                c,
            ));
            assert(with_centre(halves.subrange(m, h), axis, c) == with_centre(
                start.subrange(m, h),
                axis,
                c,
            ));
            assert(with_centre(objects@.subrange(l, h), axis, c) == with_centre(sorted, axis, c));
        }
        assert forall|i: int| 0 <= i < l || h <= i < start.len() implies objects@[i] == start[i] by {
            assert(halves[i] == halfway[i]);
        }
    }
}

/// A hierarchy over a run of objects lists, from left to right, the places
/// of those objects in that order: each object once.
pub proof fn lemma_covers_flatten(
    node: BVHNode,
    objs: Seq<ObjectInfo>,
    axis_ok: spec_fn(Vec3, Vec3, Axis) -> bool,
)
    requires
        node.covers(objs, axis_ok),
    ensures
        node.flatten() == indices_of(objs),
    decreases node,
{
    if objs.len() > LEAF_SIZE {
        let mid = objs.len() as int / 2;
        let l = objs.subrange(0, mid);
        let r = objs.subrange(mid, objs.len() as int);
        lemma_covers_flatten(*node.left->0, l, axis_ok);
        lemma_covers_flatten(*node.right->0, r, axis_ok);
        assert(indices_of(l) + indices_of(r) =~= indices_of(objs));
    }
}

/// Builds the hierarchy over the objects from `lo` up to `hi`, rearranging
/// that part of the list into the order in which the leaves hold them.
pub fn build_bvh_recursive<F: Fn(Vec3, Vec3) -> Axis>(
    objects: &mut Vec<ObjectInfo>,
    lo: usize,
    hi: usize,
    widest_axis: &F,
) -> (node: BVHNode)
    requires
        lo < hi <= old(objects)@.len(),
        forall|a: Vec3, b: Vec3| widest_axis.requires((a, b)),
    ensures
        final(objects)@.len() == old(objects)@.len(),
        forall|i: int|
            0 <= i < lo || hi <= i < old(objects)@.len() ==> final(objects)@[i] == old(objects)@[i],
        final(objects)@.subrange(lo as int, hi as int).to_multiset() == old(objects)@.subrange(
            lo as int,
            hi as int,
        ).to_multiset(),
        node.covers(final(objects)@.subrange(lo as int, hi as int), axis_answers(widest_axis)),
    decreases hi - lo,
{
    let ghost start = objects@;
    let (bounds_min, bounds_max) = range_bounds(objects, lo, hi);
    if hi - lo <= LEAF_SIZE {
        let mut indices: Vec<usize> = Vec::new();
        let mut k: usize = lo;
        while k < hi
            invariant
                lo <= k <= hi <= objects@.len(),
                indices@ == indices_of(objects@.subrange(lo as int, k as int)),
            decreases hi - k,
        {
            indices.push(objects[k].index);
            assert(indices@ =~= indices_of(objects@.subrange(lo as int, k + 1)));
            k = k + 1;
        }
        return BVHNode { bounds_min, bounds_max, left: None, right: None, indices };
    }
    let axis = widest_axis(bounds_min, bounds_max);
    sort_range(objects, lo, hi, axis);
    let ghost sorted = objects@;
    let mid: usize = lo + (hi - lo) / 2;
    let left = build_bvh_recursive(objects, lo, mid, widest_axis);
    let ghost halfway = objects@;
    let right = build_bvh_recursive(objects, mid, hi, widest_axis);
    let node = BVHNode {
        bounds_min,
        bounds_max,
        left: Some(Box::new(left)),
        right: Some(Box::new(right)),
        indices: Vec::new(),
    };
    proof {
        let (l, m, h) = (lo as int, mid as int, hi as int);
        let first = start.subrange(l, h);
        let ordered = sorted.subrange(l, h);
        let objs = objects@.subrange(l, h);
        let half = m - l;
        assert(half == objs.len() as int / 2);
        assert(objs.subrange(0, half) =~= objects@.subrange(l, m));
        assert(objs.subrange(half, objs.len() as int) =~= objects@.subrange(m, h));
        assert(ordered.subrange(0, half) =~= sorted.subrange(l, m));
        assert(ordered.subrange(half, ordered.len() as int) =~= sorted.subrange(m, h));
        assert(objects@.subrange(l, m) =~= halfway.subrange(l, m));
        assert(halfway.subrange(m, h) =~= sorted.subrange(m, h));
        assert(split_along(ordered, half, axis));
        lemma_halves_permuted(ordered, objs, half, axis);
        lemma_union_permuted(bounds_min, bounds_max, first, objs);
        assert(split_along(objs, half, axis));
        assert forall|i: int| 0 <= i < l || h <= i < start.len() implies objects@[i] == start[i] by {
            assert(halfway[i] == sorted[i]);
        }
    }
    node
}

/// Builds the hierarchy over all the objects, or none where there are no
/// objects. The list is left in the order in which the leaves hold them.
pub fn build_bvh<F: Fn(Vec3, Vec3) -> Axis>(
    objects: &mut Vec<ObjectInfo>,
    widest_axis: &F,
) -> (bvh: Option<BVHNode>)
    requires
        forall|a: Vec3, b: Vec3| widest_axis.requires((a, b)),
    ensures
        final(objects)@.to_multiset() == old(objects)@.to_multiset(),
        bvh is None <==> old(objects)@.len() == 0,
        bvh is Some ==> bvh->0.covers(final(objects)@, axis_answers(widest_axis)),
{
    if objects.len() == 0 {
        return None;
    }
    let ghost start = objects@;
    let n = objects.len();
    let node = build_bvh_recursive(objects, 0, n, widest_axis);
    assert(objects@.subrange(0, n as int) =~= objects@);
    assert(start.subrange(0, n as int) =~= start);
    Some(node)
}

} // verus!
