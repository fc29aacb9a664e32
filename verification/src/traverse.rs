use crate::bvh::BVHNode;
use crate::coord::{Coord, Vec3, EPSILON_KEY, INFINITY_KEY};
use vstd::prelude::*;

verus! {

/// The nearest hit of a ray: which object of the scene it meets, and how
/// far along the ray.
#[derive(Clone, Copy, Debug, PartialEq, Eq, Structural)]
pub struct HitInfo {
    pub index: usize,
    pub t: Coord,
}

/// The test gives one answer for each box.
pub open spec fn box_test_is_function<B: Fn(Vec3, Vec3) -> bool>(hits_box: &B) -> bool {
    forall|bmin: Vec3, bmax: Vec3, r1: bool, r2: bool|
        hits_box.ensures((bmin, bmax), r1) && hits_box.ensures((bmin, bmax), r2) ==> r1 == r2
}

/// The test gives one answer for each object.
pub open spec fn object_test_is_function<P: Fn(usize) -> Option<Coord>>(hit_object: &P) -> bool {
    forall|i: usize, r1: Option<Coord>, r2: Option<Coord>|
        hit_object.ensures((i,), r1) && hit_object.ensures((i,), r2) ==> r1 == r2
}

/// Whether the ray passes through the box, as the test tells.
pub open spec fn box_outcome<B: Fn(Vec3, Vec3) -> bool>(hits_box: &B, bmin: Vec3, bmax: Vec3) -> bool {
    choose|r: bool| hits_box.ensures((bmin, bmax), r)
}

/// Where the ray meets object `i`, as the test tells.
pub open spec fn object_outcome<P: Fn(usize) -> Option<Coord>>(hit_object: &P, i: usize) -> Option<
    Coord,
> {
    choose|r: Option<Coord>| hit_object.ensures((i,), r)
}

/// What the box test tells of every box, as a function.
pub open spec fn box_answers<B: Fn(Vec3, Vec3) -> bool>(hits_box: &B) -> spec_fn(Vec3, Vec3) -> bool {
    |bmin: Vec3, bmax: Vec3| box_outcome(hits_box, bmin, bmax)
}

/// What the object test tells of every object, as a function.
pub open spec fn object_answers<P: Fn(usize) -> Option<Coord>>(hit_object: &P) -> spec_fn(
    usize,
) -> Option<Coord> {
    |i: usize| object_outcome(hit_object, i)
}

/// Each object of the run has been tested, and `object_outcome` is what
/// its test told.
pub open spec fn objects_answered<P: Fn(usize) -> Option<Coord>>(
    run: Seq<usize>,
    hit_object: &P,
) -> bool {
    forall|k: int|
        0 <= k < run.len() ==> hit_object.ensures(
            (#[trigger] run[k],),
            object_outcome(hit_object, run[k]),
        )
}

/// A meeting counts as a hit when it lies beyond the guard distance and
/// short of infinity.
pub open spec fn counts(o: Option<Coord>) -> bool {
    o is Some && EPSILON_KEY < o->0.key < INFINITY_KEY
}

/// The nearest hit after one more object: the new one where it counts and
/// is strictly nearer than the best so far.
pub open spec fn nearer(best: Option<HitInfo>, i: usize, o: Option<Coord>) -> Option<HitInfo> {
    if counts(o) && (best is None || o->0.key < best->0.t.key) {
        Some(HitInfo { index: i, t: o->0 })
    } else {
        best
    }
}

/// The nearer of the nearest hits of two runs of objects, the first run
/// winning a tie.
pub open spec fn nearer_of(first: Option<HitInfo>, second: Option<HitInfo>) -> Option<HitInfo> {
    if second is Some && (first is None || second->0.t.key < first->0.t.key) {
        second
    } else {
        first
    }
}

/// The nearest hit among the objects of a run, the earliest of them where
/// several are equally near; none where no object is hit.
pub open spec fn nearest_in(run: Seq<usize>, hit: spec_fn(usize) -> Option<Coord>) -> Option<
    HitInfo,
>
    decreases run.len(),
{
    if run.len() == 0 {
        None
    } else {
        nearer(nearest_in(run.drop_last(), hit), run.last(), hit(run.last()))
    }
}

/// The objects of the scene in the order of its list.
pub open spec fn all_objects(count: nat) -> Seq<usize> {
    Seq::new(count, |i: int| i as usize)
}

/// How far away a hit is, if there is one.
pub open spec fn distance_of(hit: Option<HitInfo>) -> Option<Coord> {
    match hit {
        Some(h) => Some(h.t),
        None => None,
    }
}

impl BVHNode {
    /// The boxes that a traversal tests: that of this node, and where the
    /// ray passes it those under its children, from left to right.
    pub open spec fn reached(self, boxes: spec_fn(Vec3, Vec3) -> bool) -> Seq<(Vec3, Vec3)>
        decreases self,
    {
        let here = seq![(self.bounds_min, self.bounds_max)];
        if !boxes(self.bounds_min, self.bounds_max) {
            here
        } else {
            let l = match self.left {
                Some(node) => node.reached(boxes),
                None => Seq::empty(),
            };
            let r = match self.right {
                Some(node) => node.reached(boxes),
                None => Seq::empty(),
            };
            here + l + r
        }
    }

    /// The objects that a traversal tests: those of the leaves reached
    /// through boxes that the ray passes, from left to right.
    pub open spec fn visited(self, boxes: spec_fn(Vec3, Vec3) -> bool) -> Seq<usize>
        decreases self,
    {
        if !boxes(self.bounds_min, self.bounds_max) {
            Seq::empty()
        } else if self.left is None && self.right is None {
            self.indices@
        } else {
            let l = match self.left {
                Some(node) => node.visited(boxes),
                None => Seq::empty(),
            };
            let r = match self.right {
                Some(node) => node.visited(boxes),
                None => Seq::empty(),
            };
            l + r
        }
    }
}

/// Each of the boxes has been tested, and `box_outcome` is what its test
/// told.
pub open spec fn boxes_answered<B: Fn(Vec3, Vec3) -> bool>(
    tested: Seq<(Vec3, Vec3)>,
    hits_box: &B,
) -> bool {
    forall|k: int|
        0 <= k < tested.len() ==> hits_box.ensures(
            #[trigger] tested[k],
            box_outcome(hits_box, tested[k].0, tested[k].1),
        )
}

/// The objects under a child, or none where the child is missing.
pub open spec fn flatten_of(child: Option<Box<BVHNode>>) -> Seq<usize> {
    match child {
        Some(node) => node.flatten(),
        None => Seq::empty(),
    }
}

/// The objects tested under a child, or none where the child is missing.
pub open spec fn visited_of(child: Option<Box<BVHNode>>, boxes: spec_fn(Vec3, Vec3) -> bool) -> Seq<
    usize,
> {
    match child {
        Some(node) => node.visited(boxes),
        None => Seq::empty(),
    }
}

/// The boxes tested under a child, or none where the child is missing.
pub open spec fn reached_of(child: Option<Box<BVHNode>>, boxes: spec_fn(Vec3, Vec3) -> bool) -> Seq<
    (Vec3, Vec3),
> {
    match child {
        Some(node) => node.reached(boxes),
        None => Seq::empty(),
    }
}

/// The nearest hit of a run is a hit of one of its objects that counts, and
/// no object of the run has one that counts and is nearer. There is none
/// only where no object of the run has a hit that counts.
pub proof fn lemma_nearest_in(run: Seq<usize>, hit: spec_fn(usize) -> Option<Coord>)
    ensures
        match nearest_in(run, hit) {
            Some(h) => {
                &&& run.contains(h.index)
                &&& hit(h.index) == Some(h.t)
                &&& counts(Some(h.t))
                &&& forall|k: int|
                    0 <= k < run.len() && counts(hit(#[trigger] run[k])) ==> h.t.key <= hit(
                        run[k],
                    )->0.key
            },
            None => forall|k: int| 0 <= k < run.len() ==> !counts(hit(#[trigger] run[k])),
        },
    decreases run.len(),
{
    if run.len() > 0 {
        let front = run.drop_last();
        lemma_nearest_in(front, hit);
        let before = nearest_in(front, hit);
        let after = nearest_in(run, hit);
        let last = run.len() - 1;
        assert(run[last] == run.last());
        assert forall|k: int| 0 <= k < last implies run[k] == front[k] by {}
        match after {
            Some(h) => {
                if before is Some && before->0 == h {
                    let w = choose|w: int| 0 <= w < front.len() && front[w] == h.index;
                    assert(run[w] == h.index);
                } else {
                    assert(run[last] == h.index);
                }
                assert forall|k: int|
                    0 <= k < run.len() && counts(hit(#[trigger] run[k])) implies h.t.key <= hit(
                    run[k],
                )->0.key by {
                    if k < last {
                        assert(run[k] == front[k]);
                    }
                }
            },
            None => {
                assert forall|k: int| 0 <= k < run.len() implies !counts(hit(#[trigger] run[k])) by {
                    if k < last {
                        assert(run[k] == front[k]);
                    }
                }
            },
        }
    }
}

/// Where several objects of a run are equally near, the nearest hit is
/// the first of them: some place in the run holds its object, and every
/// object before that place that is hit is hit further away.
pub proof fn lemma_nearest_is_first(run: Seq<usize>, hit: spec_fn(usize) -> Option<Coord>)
    requires
        nearest_in(run, hit) is Some,
    ensures
        exists|k: int|
            {
                &&& 0 <= k < run.len()
                &&& #[trigger] run[k] == nearest_in(run, hit)->0.index
                &&& forall|j: int|
                    0 <= j < k && counts(hit(#[trigger] run[j])) ==> nearest_in(run, hit)->0.t.key
                        < hit(run[j])->0.key
            },
    decreases run.len(),
{
    let front = run.drop_last();
    let last = run.len() - 1;
    let before = nearest_in(front, hit);
    let h = nearest_in(run, hit)->0;
    assert(run[last] == run.last());
    lemma_nearest_in(front, hit);
    if before is Some && before->0 == h {
        lemma_nearest_is_first(front, hit);
        let k = choose|k: int|
            {
                &&& 0 <= k < front.len()
                &&& #[trigger] front[k] == h.index
                &&& forall|j: int|
                    0 <= j < k && counts(hit(#[trigger] front[j])) ==> h.t.key < hit(
                        front[j],
                    )->0.key
            };
        assert(run[k] == front[k]);
        assert forall|j: int| 0 <= j < k && counts(hit(#[trigger] run[j])) implies h.t.key < hit(
            run[j],
        )->0.key by {
            assert(run[j] == front[j]);
        }
    } else {
        assert(run[last] == h.index);
        assert forall|j: int| 0 <= j < last && counts(hit(#[trigger] run[j])) implies h.t.key
            < hit(run[j])->0.key by {
            assert(run[j] == front[j]);
        }
    }
}

/// The nearest hit of two runs, one after the other, is the nearer of
/// their nearest hits.
pub proof fn lemma_nearest_concat(a: Seq<usize>, b: Seq<usize>, hit: spec_fn(usize) -> Option<Coord>)
    ensures
        nearest_in(a + b, hit) == nearer_of(nearest_in(a, hit), nearest_in(b, hit)),
    decreases b.len(),
{
    if b.len() == 0 {
        assert(a + b =~= a);
    } else {
        lemma_nearest_concat(a, b.drop_last(), hit);
        assert((a + b).drop_last() =~= a + b.drop_last());
        assert((a + b).last() == b.last());
        lemma_nearest_in(b.drop_last(), hit);
        lemma_nearest_in(a, hit);
    }
}

/// The nearest hit among the objects under a node that a ray can reach:
/// a subtree whose box the ray misses is skipped, a leaf is scanned in
/// order, and of two subtrees the nearer hit is kept.
pub fn intersect_bvh<B: Fn(Vec3, Vec3) -> bool, P: Fn(usize) -> Option<Coord>>(
    node: &BVHNode,
    hits_box: &B,
    hit_object: &P,
) -> (best: Option<HitInfo>)
    requires
        box_test_is_function(hits_box),
        object_test_is_function(hit_object),
        forall|bmin: Vec3, bmax: Vec3| hits_box.requires((bmin, bmax)),
        forall|k: int|
            0 <= k < node.flatten().len() ==> hit_object.requires((#[trigger] node.flatten()[k],)),
    ensures
        best == nearest_in(node.visited(box_answers(hits_box)), object_answers(hit_object)),
        boxes_answered(node.reached(box_answers(hits_box)), hits_box),
        objects_answered(node.visited(box_answers(hits_box)), hit_object),
    decreases node,
{
    let ghost boxes = box_answers(hits_box);
    let ghost hit = object_answers(hit_object);
    let passes = hits_box(node.bounds_min, node.bounds_max);
    assert(passes == boxes(node.bounds_min, node.bounds_max));
    if !passes {
        return None;
    }
    if node.left.is_none() && node.right.is_none() {
        proof {
            assert forall|k: int| 0 <= k < node.indices@.len() implies hit_object.requires(
                (#[trigger] node.indices@[k],),
            ) by {
                assert(node.flatten()[k] == node.indices@[k]);
            }
            assert(node.reached(boxes) =~= seq![(node.bounds_min, node.bounds_max)]);
        }
        return scan_objects(&node.indices, hit_object);
    }
    let ghost l = flatten_of(node.left);
    let ghost r = flatten_of(node.right);
    let mut best: Option<HitInfo> = None;
    if let Some(left) = &node.left {
        proof {
            assert forall|k: int| 0 <= k < left.flatten().len() implies hit_object.requires(
                (#[trigger] left.flatten()[k],),
            ) by {
                assert(node.flatten()[k] == l[k]);
            }
        }
        best = intersect_bvh(left, hits_box, hit_object);
    }
    if let Some(right) = &node.right {
        proof {
            assert forall|k: int| 0 <= k < right.flatten().len() implies hit_object.requires(
                (#[trigger] right.flatten()[k],),
            ) by {
                assert(node.flatten()[l.len() + k] == r[k]);
            }
        }
        let other = intersect_bvh(right, hits_box, hit_object);
        best = pick_nearer(best, other);
    }
    proof {
        let lv = visited_of(node.left, boxes);
        let rv = visited_of(node.right, boxes);
        lemma_nearest_concat(lv, rv, hit);
        let v = node.visited(boxes);
        assert forall|k: int| 0 <= k < v.len() implies hit_object.ensures(
            (#[trigger] v[k],),
            object_outcome(hit_object, v[k]),
        ) by {
            if k < lv.len() {
                assert(v[k] == lv[k]);
            } else {
                assert(v[k] == rv[k - lv.len()]);
            }
        }
        let lr = reached_of(node.left, boxes);
        let rr = reached_of(node.right, boxes);
        let t = node.reached(boxes);
        assert(t =~= seq![(node.bounds_min, node.bounds_max)] + lr + rr);
        assert forall|k: int| 0 <= k < t.len() implies hits_box.ensures(
            #[trigger] t[k],
            box_outcome(hits_box, t[k].0, t[k].1),
        ) by {
            if k == 0 {
            } else if k < 1 + lr.len() {
                assert(t[k] == lr[k - 1]);
            } else {
                assert(t[k] == rr[k - 1 - lr.len()]);
            }
        }
    }
    best
}

/// The nearer of two nearest hits, the first winning a tie.
pub fn pick_nearer(first: Option<HitInfo>, second: Option<HitInfo>) -> (best: Option<HitInfo>)
    ensures
        best == nearer_of(first, second),
{
    match (first, second) {
        (Some(a), Some(b)) => if b.t.key < a.t.key {
            second
        } else {
            first
        },
        (None, Some(_)) => second,
        _ => first,
    }
}

/// The nearest hit among the listed objects, tested in order.
pub fn scan_objects<P: Fn(usize) -> Option<Coord>>(indices: &Vec<usize>, hit_object: &P) -> (best:
    Option<HitInfo>)
    requires
        object_test_is_function(hit_object),
        forall|k: int| 0 <= k < indices@.len() ==> hit_object.requires((#[trigger] indices@[k],)),
    ensures
        best == nearest_in(indices@, object_answers(hit_object)),
        objects_answered(indices@, hit_object),
{
    let ghost hit = object_answers(hit_object);
    let mut best: Option<HitInfo> = None;
    let mut best_t: i32 = INFINITY_KEY;
    let mut k: usize = 0;
    while k < indices.len()
        invariant
            0 <= k <= indices@.len(),
            hit == object_answers(hit_object),
            object_test_is_function(hit_object),
            forall|k: int| 0 <= k < indices@.len() ==> hit_object.requires((#[trigger] indices@[k],)),
            best == nearest_in(indices@.subrange(0, k as int), hit),
            objects_answered(indices@.subrange(0, k as int), hit_object),
            best is None ==> best_t == INFINITY_KEY,
            best is Some ==> best_t == best->0.t.key && best_t < INFINITY_KEY,
        decreases indices@.len() - k,
    {
        let idx = indices[k];
        let outcome = hit_object(idx);
        proof {
            let longer = indices@.subrange(0, k + 1);
            assert(longer.drop_last() =~= indices@.subrange(0, k as int));
            assert(outcome == hit(idx));
            assert forall|j: int| 0 <= j < longer.len() implies hit_object.ensures(
                (#[trigger] longer[j],),
                object_outcome(hit_object, longer[j]),
            ) by {
                if j < k {
                    assert(longer[j] == indices@.subrange(0, k as int)[j]);
                }
            }
        }
        if let Some(t) = outcome {
            if t.key > EPSILON_KEY && t.key < best_t {
                best_t = t.key;
                best = Some(HitInfo { index: idx, t });
            }
        }
        k = k + 1;
    }
    assert(indices@.subrange(0, k as int) =~= indices@);
    best
}

/// The nearest hit among all `count` objects of a scene, tested one after
/// the other in the order of its list.
pub fn scan_scene<P: Fn(usize) -> Option<Coord>>(count: usize, hit_object: &P) -> (best: Option<
    HitInfo,
>)
    requires
        object_test_is_function(hit_object),
        forall|i: usize| i < count ==> hit_object.requires((i,)),
    ensures
        best == nearest_in(all_objects(count as nat), object_answers(hit_object)),
        objects_answered(all_objects(count as nat), hit_object),
{
    let ghost hit = object_answers(hit_object);
    let mut best: Option<HitInfo> = None;
    let mut best_t: i32 = INFINITY_KEY;
    let mut k: usize = 0;
    while k < count
        invariant
            0 <= k <= count,
            hit == object_answers(hit_object),
            object_test_is_function(hit_object),
            forall|i: usize| i < count ==> hit_object.requires((i,)),
            best == nearest_in(all_objects(k as nat), hit),
            objects_answered(all_objects(k as nat), hit_object),
            best is None ==> best_t == INFINITY_KEY,
            best is Some ==> best_t == best->0.t.key && best_t < INFINITY_KEY,
        decreases count - k,
    {
        let outcome = hit_object(k);
        proof {
            let longer = all_objects((k + 1) as nat);
            assert(longer.drop_last() =~= all_objects(k as nat));
            assert(outcome == hit(k));
            assert forall|j: int| 0 <= j < longer.len() implies hit_object.ensures(
                (#[trigger] longer[j],),
                object_outcome(hit_object, longer[j]),
            ) by {
                if j < k {
                    assert(longer[j] == all_objects(k as nat)[j]);
                }
            }
        }
        if let Some(t) = outcome {
            if t.key > EPSILON_KEY && t.key < best_t {
                best_t = t.key;
                best = Some(HitInfo { index: k, t });
            }
        }
        k = k + 1;
    }
    best
}

/// The box test is conservative on a hierarchy: it turns away no node
/// under which the ray has a hit that counts.
pub open spec fn conservative(
    node: BVHNode,
    boxes: spec_fn(Vec3, Vec3) -> bool,
    hit: spec_fn(usize) -> Option<Coord>,
) -> bool
    decreases node,
{
    &&& boxes(node.bounds_min, node.bounds_max) || forall|k: int|
        0 <= k < node.flatten().len() ==> !counts(hit(#[trigger] node.flatten()[k]))
    &&& match node.left {
        Some(child) => conservative(*child, boxes, hit),
        None => true,
    }
    &&& match node.right {
        Some(child) => conservative(*child, boxes, hit),
        None => true,
    }
}

/// The objects under a node are exactly the `count` objects of the scene.
pub open spec fn indexes_scene(node: BVHNode, count: nat) -> bool {
    forall|i: usize| i < count <==> node.flatten().contains(i)
}

/// A traversal tests only objects that stand under the node.
pub proof fn lemma_visited_within(node: BVHNode, boxes: spec_fn(Vec3, Vec3) -> bool)
    ensures
        forall|k: int|
            0 <= k < node.visited(boxes).len() ==> node.flatten().contains(
                #[trigger] node.visited(boxes)[k],
            ),
    decreases node,
{
    let v = node.visited(boxes);
    let f = node.flatten();
    if !boxes(node.bounds_min, node.bounds_max) {
    } else if node.left is None && node.right is None {
        assert forall|k: int| 0 <= k < v.len() implies f.contains(#[trigger] v[k]) by {
            assert(f[k] == v[k]);
        }
    } else {
        let (lv, rv) = (visited_of(node.left, boxes), visited_of(node.right, boxes));
        let (lf, rf) = (flatten_of(node.left), flatten_of(node.right));
        if node.left is Some {
            lemma_visited_within(*node.left->0, boxes);
        }
        if node.right is Some {
            lemma_visited_within(*node.right->0, boxes);
        }
        assert forall|k: int| 0 <= k < v.len() implies f.contains(#[trigger] v[k]) by {
            if k < lv.len() {
                assert(v[k] == lv[k]);
                let w = choose|w: int| 0 <= w < lf.len() && lf[w] == lv[k];
                assert(f[w] == lf[w]);
            } else {
                assert(v[k] == rv[k - lv.len()]);
                let w = choose|w: int| 0 <= w < rf.len() && rf[w] == rv[k - lv.len()];
                assert(f[lf.len() + w] == rf[w]);
            }
        }
    }
}

/// Under a conservative box test a traversal tests every object that the
/// ray hits.
pub proof fn lemma_hits_are_visited(
    node: BVHNode,
    boxes: spec_fn(Vec3, Vec3) -> bool,
    hit: spec_fn(usize) -> Option<Coord>,
)
    requires
        conservative(node, boxes, hit),
    ensures
        forall|k: int|
            0 <= k < node.flatten().len() && counts(hit(#[trigger] node.flatten()[k]))
                ==> node.visited(boxes).contains(node.flatten()[k]),
    decreases node,
{
    let v = node.visited(boxes);
    let f = node.flatten();
    if !boxes(node.bounds_min, node.bounds_max) {
    } else if node.left is None && node.right is None {
        assert forall|k: int| 0 <= k < f.len() && counts(hit(#[trigger] f[k])) implies v.contains(
            f[k],
        ) by {
            assert(v[k] == f[k]);
        }
    } else {
        let (lv, rv) = (visited_of(node.left, boxes), visited_of(node.right, boxes));
        let (lf, rf) = (flatten_of(node.left), flatten_of(node.right));
        if node.left is Some {
            lemma_hits_are_visited(*node.left->0, boxes, hit);
        }
        if node.right is Some {
            lemma_hits_are_visited(*node.right->0, boxes, hit);
        }
        assert forall|k: int| 0 <= k < f.len() && counts(hit(#[trigger] f[k])) implies v.contains(
            f[k],
        ) by {
            if k < lf.len() {
                assert(f[k] == lf[k]);
                let w = choose|w: int| 0 <= w < lv.len() && lv[w] == lf[k];
                assert(v[w] == lv[w]);
            } else {
                assert(f[k] == rf[k - lf.len()]);
                let w = choose|w: int| 0 <= w < rv.len() && rv[w] == rf[k - lf.len()];
                assert(v[lv.len() + w] == rv[w]);
            }
        }
    }
}

/// Two runs in which the ray hits the same objects have their nearest hit
/// at the same distance.
pub proof fn lemma_same_hits_same_distance(
    a: Seq<usize>,
    b: Seq<usize>,
    hit: spec_fn(usize) -> Option<Coord>,
)
    requires
        forall|k: int| 0 <= k < a.len() && counts(hit(#[trigger] a[k])) ==> b.contains(a[k]),
        forall|k: int| 0 <= k < b.len() && counts(hit(#[trigger] b[k])) ==> a.contains(b[k]),
    ensures
        distance_of(nearest_in(a, hit)) == distance_of(nearest_in(b, hit)),
{
    lemma_nearest_in(a, hit);
    lemma_nearest_in(b, hit);
    let (na, nb) = (nearest_in(a, hit), nearest_in(b, hit));
    if na is Some {
        let h = na->0;
        let k = choose|k: int| 0 <= k < a.len() && a[k] == h.index;
        assert(counts(hit(a[k])));
        let w = choose|w: int| 0 <= w < b.len() && b[w] == a[k];
        assert(counts(hit(b[w])));
        assert(nb is Some);
        assert(nb->0.t.key <= h.t.key);
    }
    if nb is Some {
        let h = nb->0;
        let k = choose|k: int| 0 <= k < b.len() && b[k] == h.index;
        assert(counts(hit(b[k])));
        let w = choose|w: int| 0 <= w < a.len() && a[w] == b[k];
        assert(counts(hit(a[w])));
        assert(na is Some);
        assert(na->0.t.key <= h.t.key);
    }
}

/// Through the hierarchy a ray finds its nearest hit at the same distance
/// as by testing every object of the scene, whatever the box test and the
/// object test tell, as long as the box test turns away no node under
/// which the ray has a hit.
pub proof fn lemma_bvh_matches_scan(
    node: BVHNode,
    count: nat,
    boxes: spec_fn(Vec3, Vec3) -> bool,
    hit: spec_fn(usize) -> Option<Coord>,
)
    requires
        indexes_scene(node, count),
        conservative(node, boxes, hit),
    ensures
        distance_of(nearest_in(node.visited(boxes), hit)) == distance_of(
            nearest_in(all_objects(count), hit),
        ),
{
    let v = node.visited(boxes);
    let f = node.flatten();
    let all = all_objects(count);
    lemma_visited_within(node, boxes);
    lemma_hits_are_visited(node, boxes, hit);
    assert forall|k: int| 0 <= k < v.len() && counts(hit(#[trigger] v[k])) implies all.contains(
        v[k],
    ) by {
        assert(f.contains(v[k]));
        assert(v[k] < count);
        assert(all[v[k] as int] == v[k]);
    }
    assert forall|k: int| 0 <= k < all.len() && counts(hit(#[trigger] all[k])) implies v.contains(
        all[k],
    ) by {
        assert(all[k] == k as usize);
        assert(f.contains(all[k]));
        let w = choose|w: int| 0 <= w < f.len() && f[w] == all[k];
        assert(v.contains(f[w]));
    }
    lemma_same_hits_same_distance(v, all, hit);
}

} // verus!
