use crate::bvh::{
    axis_answers, build_bvh, lemma_covers_flatten, lemma_same_objects, BVHNode, ObjectInfo,
};
use crate::coord::{Axis, Coord, Vec3};
use crate::traverse::{
    all_objects, box_answers, box_test_is_function, boxes_answered, conservative, distance_of,
    indexes_scene, intersect_bvh, lemma_bvh_matches_scan, nearest_in, object_answers,
    object_test_is_function, objects_answered, scan_scene, HitInfo,
};
use vstd::prelude::*;

verus! {

/// What the library keeps of a scene: the box of each object, in the order
/// in which the objects were added, and the hierarchy over them where one
/// was built.
#[derive(Debug)]
pub struct Scene {
    pub objects: Vec<ObjectInfo>,
    pub bvh: Option<BVHNode>,
}

impl Scene {
    /// Each object carries its own place in the list, and the hierarchy
    /// names no object that is not there.
    pub open spec fn wf(self) -> bool {
        &&& forall|i: int| 0 <= i < self.objects@.len() ==> (#[trigger] self.objects@[i]).index == i
        &&& self.bvh is Some ==> forall|k: int|
            0 <= k < self.bvh->0.flatten().len() ==> (#[trigger] self.bvh->0.flatten()[k])
                < self.objects@.len()
    }

    /// The hierarchy is up to date: it holds every object of the scene,
    /// each once.
    pub open spec fn indexed(self) -> bool {
        self.bvh is Some && indexes_scene(self.bvh->0, self.objects@.len())
    }

    /// The objects that a query tests: those that the traversal of the
    /// hierarchy visits, or all of them where there is no hierarchy.
    pub open spec fn tested(self, boxes: spec_fn(Vec3, Vec3) -> bool) -> Seq<usize> {
        match self.bvh {
            Some(node) => node.visited(boxes),
            None => all_objects(self.objects@.len()),
        }
    }

    /// A scene without objects.
    pub fn new() -> (scene: Scene)
        ensures
            scene.wf(),
            scene.objects@.len() == 0,
            scene.bvh is None,
    {
        Scene { objects: Vec::new(), bvh: None }
    }

    /// Adds an object by its box and the centre of the box, and tells its
    /// place in the list. A hierarchy built before does not hold it.
    pub fn add_object(&mut self, bmin: Vec3, bmax: Vec3, centroid: Vec3) -> (index: usize)
        requires
            old(self).wf(),
        ensures
            final(self).wf(),
            index == old(self).objects@.len(),
            final(self).objects@ == old(self).objects@.push(
                ObjectInfo { index, bmin, bmax, centroid },
            ),
            final(self).bvh == old(self).bvh,
    {
        let index = self.objects.len();
        self.objects.push(ObjectInfo { index, bmin, bmax, centroid });
        index
    }
}

/// The node is the median-split hierarchy over the objects, taken in some
/// order.
pub open spec fn covers_in_some_order(
    node: BVHNode,
    objects: Seq<ObjectInfo>,
    axis_ok: spec_fn(Vec3, Vec3, Axis) -> bool,
) -> bool {
    exists|order: Seq<ObjectInfo>|
        order.to_multiset() == objects.to_multiset() && #[trigger] node.covers(order, axis_ok)
}

/// Builds the hierarchy over the objects of a scene, or none where the
/// scene is empty. The list of objects stays as it is.
pub fn build_scene_bvh<F: Fn(Vec3, Vec3) -> Axis>(scene: &mut Scene, widest_axis: &F)
    requires
        old(scene).wf(),
        forall|a: Vec3, b: Vec3| widest_axis.requires((a, b)),
    ensures
        final(scene).wf(),
        final(scene).objects@ == old(scene).objects@,
        final(scene).bvh is None <==> old(scene).objects@.len() == 0,
        final(scene).bvh is Some ==> final(scene).indexed(),
        final(scene).bvh is Some ==> covers_in_some_order(
            final(scene).bvh->0,
            final(scene).objects@,
            axis_answers(widest_axis),
        ),
{
    let mut infos = scene.objects.clone();
    assert(infos@ =~= scene.objects@);
    let bvh = build_bvh(&mut infos, widest_axis);
    proof {
        if bvh is Some {
            let node = bvh->0;
            let axis_ok = axis_answers(widest_axis);
            lemma_built_indexes_scene(node, infos@, scene.objects@, axis_ok);
            assert(node.covers(infos@, axis_ok));
            let f = node.flatten();
            assert forall|k: int| 0 <= k < f.len() implies (#[trigger] f[k])
                < scene.objects@.len() by {
                assert(f.contains(f[k]));
            }
        }
    }
    scene.bvh = bvh;
}

/// The nearest hit in a scene: through the hierarchy where one was built,
/// else by testing every object.
pub fn intersect_scene<B: Fn(Vec3, Vec3) -> bool, P: Fn(usize) -> Option<Coord>>(
    scene: &Scene,
    hits_box: &B,
    hit_object: &P,
) -> (best: Option<HitInfo>)
    requires
        scene.wf(),
        box_test_is_function(hits_box),
        object_test_is_function(hit_object),
        forall|bmin: Vec3, bmax: Vec3| hits_box.requires((bmin, bmax)),
        forall|i: usize| i < scene.objects@.len() ==> hit_object.requires((i,)),
    ensures
        best == nearest_in(scene.tested(box_answers(hits_box)), object_answers(hit_object)),
        objects_answered(scene.tested(box_answers(hits_box)), hit_object),
        scene.bvh is Some ==> boxes_answered(scene.bvh->0.reached(box_answers(hits_box)), hits_box),
{
    match &scene.bvh {
        Some(node) => intersect_bvh(node, hits_box, hit_object),
        None => scan_scene(scene.objects.len(), hit_object),
    }
}

/// A hierarchy built over the list of a scene, in which each object
/// carries its own place in the list, holds exactly the objects of the
/// scene.
pub proof fn lemma_built_indexes_scene(
    node: BVHNode,
    order: Seq<ObjectInfo>,
    scene: Seq<ObjectInfo>,
    axis_ok: spec_fn(Vec3, Vec3, Axis) -> bool,
)
    requires
        node.covers(order, axis_ok),
        order.to_multiset() == scene.to_multiset(),
        forall|i: int| 0 <= i < scene.len() ==> (#[trigger] scene[i]).index == i,
    ensures
        indexes_scene(node, scene.len()),
{
    lemma_covers_flatten(node, order, axis_ok);
    lemma_same_objects(order, scene);
    lemma_same_objects(scene, order);
    let f = node.flatten();
    assert forall|i: usize| i < scene.len() <==> f.contains(i) by {
        if i < scene.len() {
            assert(order.contains(scene[i as int]));
            let k = choose|k: int| 0 <= k < order.len() && order[k] == scene[i as int];
            assert(f[k] == order[k].index);
            assert(f[k] == i);
        }
        if f.contains(i) {
            let k = choose|k: int| 0 <= k < f.len() && f[k] == i;
            assert(scene.contains(order[k]));
            let j = choose|j: int| 0 <= j < scene.len() && scene[j] == order[k];
            assert(scene[j].index == j);
        }
    }
}

/// With an up-to-date hierarchy a query finds the nearest hit at the same
/// distance as a query of the same scene without one, whatever the box
/// test and the object test tell, as long as the box test turns away no
/// node under which the ray has a hit.
pub proof fn lemma_hierarchy_matches_scan(
    scene: Scene,
    boxes: spec_fn(Vec3, Vec3) -> bool,
    hit: spec_fn(usize) -> Option<Coord>,
)
    requires
        scene.indexed(),
        conservative(scene.bvh->0, boxes, hit),
    ensures
        distance_of(nearest_in(scene.tested(boxes), hit)) == distance_of(
            nearest_in((Scene { bvh: None, ..scene }).tested(boxes), hit),
        ),
{
    lemma_bvh_matches_scan(scene.bvh->0, scene.objects@.len(), boxes, hit);
}

} // verus!
