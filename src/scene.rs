use vstd::prelude::*;

use crate::accelerator::{lemma_bvh_equivalence, BVH};
use crate::material::Color;
use crate::object::SDFObject;
use crate::sdf::{lateral_in_box, in_range, lemma_hit_in_box, Aabb};
use crate::vec3::{Vec3, Vec3i};

verus! {

/// Why a scene refused an edit.
#[derive(Clone, Copy, Debug, PartialEq, Eq, Structural)]
pub enum SceneError {
    /// The scene is indexed and can no longer change.
    InvalidState,
}

/// A scene is editable until its objects are indexed, then query-only.
#[derive(Debug)]
pub enum SceneState {
    Editable(Vec<SDFObject>),
    Accelerated(BVH),
}

/// Objects, possibly indexed, in front of a background color.
#[derive(Debug)]
pub struct ObjectsScene {
    pub state: SceneState,
    pub background: Color,
}

/// The color of the first object of `objs`, in list order, that `p` hits.
pub open spec fn first_hit(objs: Seq<SDFObject>, p: Vec3i) -> Option<Color>
    decreases objs.len(),
{
    if objs.len() == 0 {
        None
    } else {
        match objs[0].hit_spec(p) {
            Some(c) => Some(c),
            None => first_hit(objs.drop_first(), p),
        }
    }
}

/// The union of the boxes of `objs`, gathered from the first to the last.
pub open spec fn objects_box(objs: Seq<SDFObject>) -> Aabb
    decreases objs.len(),
{
    if objs.len() <= 1 {
        objs[0].bbox()
    } else {
        objects_box(objs.drop_last()).union_spec(objs.last().bbox())
    }
}

pub open spec fn objects_wf(objs: Seq<SDFObject>) -> bool {
    forall|i: int| 0 <= i < objs.len() ==> (#[trigger] objs[i]).wf()
}

impl ObjectsScene {
    pub open spec fn wf(self) -> bool {
        match self.state {
            SceneState::Editable(objs) => objects_wf(objs@),
            SceneState::Accelerated(b) => b.wf(),
        }
    }

    pub open spec fn hit_spec(self, p: Vec3i) -> Color {
        let found = match self.state {
            SceneState::Editable(objs) => first_hit(objs@, p),
            SceneState::Accelerated(b) => b.hit_spec(p),
        };
        match found {
            Some(c) => c,
            None => self.background,
        }
    }

    pub open spec fn bbox(self) -> Option<Aabb> {
        match self.state {
            SceneState::Editable(objs) => if objs.len() == 0 {
                None
            } else {
                Some(objects_box(objs@))
            },
            SceneState::Accelerated(b) => b.bbox(),
        }
    }

    /// An empty, editable scene on a black background.
    pub fn new() -> (r: ObjectsScene)
        ensures
            r.wf(),
            r.state matches SceneState::Editable(objs) && objs@.len() == 0,
            r.background == (Vec3 { x: 0i64, y: 0i64, z: 0i64 }),
    {
        ObjectsScene { state: SceneState::Editable(Vec::new()), background: Vec3::new(0, 0, 0) }
    }

    /// Appends an object; refused once the scene is indexed.
    pub fn add_object(&mut self, object: SDFObject) -> (r: Result<(), SceneError>)
        requires
            old(self).wf(),
            object.wf(),
        ensures
            final(self).wf(),
            final(self).background == old(self).background,
            match old(self).state {
                SceneState::Editable(objs) => r is Ok && (final(self).state matches SceneState::Editable(
                    nobjs,
                ) && nobjs@ == objs@.push(object)),
                SceneState::Accelerated(_) => r == Err::<(), SceneError>(SceneError::InvalidState)
                    && final(self).state == old(self).state,
            },
    {
        match &mut self.state {
            SceneState::Editable(objs) => {
                objs.push(object);
                Ok(())
            },
            SceneState::Accelerated(_) => Err(SceneError::InvalidState),
        }
    }

    /// Indexes the objects; the scene cannot be edited afterwards. Refused when the
    /// scene is already indexed.
    pub fn build_bvh(&mut self) -> (r: Result<(), SceneError>)
        requires
            old(self).wf(),
        ensures
            final(self).wf(),
            final(self).background == old(self).background,
            match old(self).state {
                SceneState::Editable(objs) => r is Ok && (final(self).state matches SceneState::Accelerated(
                    b,
                ) && b.objects@ == objs@),
                SceneState::Accelerated(_) => r == Err::<(), SceneError>(SceneError::InvalidState)
                    && final(self).state == old(self).state,
            },
    {
        let mut state = SceneState::Editable(Vec::new());
        std::mem::swap(&mut state, &mut self.state);
        match state {
            SceneState::Editable(objs) => {
                self.state = SceneState::Accelerated(BVH::new(objs));
                Ok(())
            },
            SceneState::Accelerated(b) => {
                self.state = SceneState::Accelerated(b);
                Err(SceneError::InvalidState)
            },
        }
    }

    pub fn set_background(&mut self, background: Color)
        ensures
            final(self).background == background,
            final(self).state == old(self).state,
    {
        self.background = background;
    }

    /// The color at `p`: the first object hit (in list order, or in the index's
    /// traversal order once indexed), else the background.
    pub fn hit(&self, p: Vec3i) -> (r: Color)
        requires
            self.wf(),
            in_range(p),
        ensures
            r == self.hit_spec(p),
    {
        let found = match &self.state {
            SceneState::Editable(objs) => first_object_hit(objs, p),
            SceneState::Accelerated(b) => b.hit(p),
        };
        match found {
            Some(c) => c,
            None => self.background,
        }
    }

    /// The box enclosing every object; none for an empty scene.
    pub fn bounding_box(&self) -> (r: Option<Aabb>)
        ensures
            r == self.bbox(),
    {
        match &self.state {
            SceneState::Editable(objs) => {
                if objs.len() == 0 {
                    return None;
                }
                let mut acc = objs[0].bounding_box();
                let mut i: usize = 1;
                assert(objs@.take(1).drop_last().len() == 0);
                while i < objs.len()
                    invariant
                        1 <= i <= objs.len(),
                        acc == objects_box(objs@.take(i as int)),
                    decreases objs.len() - i,
                {
                    assert(objs@.take(i + 1).drop_last() =~= objs@.take(i as int));
                    acc = acc.union(&objs[i].bounding_box());
                    i += 1;
                }
                assert(objs@.take(objs.len() as int) =~= objs@);
                Some(acc)
            },
            SceneState::Accelerated(b) => b.bounding_box(),
        }
    }
}

/// The scan finds a hit exactly when some object is hit, and what it finds is the
/// color of an object hit at `p`.
pub proof fn lemma_first_hit(objs: Seq<SDFObject>, p: Vec3i)
    ensures
        first_hit(objs, p) is Some <==> exists|i: int|
            0 <= i < objs.len() && (#[trigger] objs[i]).hit_spec(p) is Some,
        first_hit(objs, p) is Some ==> exists|i: int|
            0 <= i < objs.len() && (#[trigger] objs[i]).hit_spec(p) == first_hit(objs, p),
    decreases objs.len(),
{
    if objs.len() > 0 {
        let rest = objs.drop_first();
        lemma_first_hit(rest, p);
        if exists|i: int| 0 <= i < objs.len() && (#[trigger] objs[i]).hit_spec(p) is Some {
            let i = choose|i: int| 0 <= i < objs.len() && (#[trigger] objs[i]).hit_spec(p) is Some;
            if i > 0 {
                assert(rest[i - 1] == objs[i]);
            }
        }
        if objs[0].hit_spec(p) is None && first_hit(rest, p) is Some {
            let j = choose|j: int|
                0 <= j < rest.len() && (#[trigger] rest[j]).hit_spec(p) == first_hit(rest, p);
            assert(objs[j + 1] == rest[j]);
        }
        if objs[0].hit_spec(p) is None && first_hit(rest, p) is None {
            assert forall|i: int| 0 <= i < objs.len() implies (#[trigger] objs[i]).hit_spec(p) is None by {
                if i > 0 {
                    assert(rest[i - 1] == objs[i]);
                }
            }
        }
    }
}

/// An indexed query agrees with the linear scan over the same list: one finds a
/// hit exactly when the other does, and when at most one object is hit at `p`
/// both return its color. (Each round cone hit at `p` from the lateral branch of its
/// distance must have `p` in its box.)
pub proof fn lemma_index_agrees_with_scan(bvh: BVH, p: Vec3i)
    requires
        bvh.wf(),
        in_range(p),
        forall|i: int| 0 <= i < bvh.objects.len() ==> lateral_in_box(#[trigger] bvh.objects@[i].sdf, p),
    ensures
        bvh.hit_spec(p) is Some <==> first_hit(bvh.objects@, p) is Some,
        (forall|i: int, j: int|
            0 <= i < bvh.objects.len() && 0 <= j < bvh.objects.len() && (#[trigger] bvh.objects@[i]).hit_spec(p) is Some
                && (#[trigger] bvh.objects@[j]).hit_spec(p) is Some ==> i == j) ==> bvh.hit_spec(p)
            == first_hit(bvh.objects@, p),
{
    let objs = bvh.objects@;
    assert forall|i: int|
        0 <= i < objs.len() && (#[trigger] objs[i]).hit_spec(p) is Some implies objs[i].bbox().contains_spec(p) by {
        assert(lateral_in_box(objs[i].sdf, p));
        lemma_hit_in_box(&objs[i].sdf, p);
    }
    lemma_bvh_equivalence(bvh, p);
    lemma_first_hit(objs, p);
}

/// Linear scan: the first object of `objs` that `p` hits.
pub fn first_object_hit(objs: &Vec<SDFObject>, p: Vec3i) -> (r: Option<Color>)
    requires
        objects_wf(objs@),
        in_range(p),
    ensures
        r == first_hit(objs@, p),
{
    let mut i: usize = 0;
    assert(objs@.skip(0) =~= objs@);
    while i < objs.len()
        invariant
            i <= objs.len(),
            objects_wf(objs@),
            in_range(p),
            first_hit(objs@, p) == first_hit(objs@.skip(i as int), p),
        decreases objs.len() - i,
    {
        assert(objs@.skip(i as int).drop_first() =~= objs@.skip(i + 1));
        assert(objs@.skip(i as int)[0] == objs@[i as int]);
        match objs[i].hit(p) {
            Some(c) => {
                return Some(c);
            },
            None => {},
        }
        i += 1;
    }
    assert(objs@.skip(i as int).len() == 0);
    None
}

} // verus!
